//! Statistics over a duplicate report: how many files and how many bytes the
//! duplicates take.

use vstd::prelude::*;
use crate::assemble::views;
use crate::json::{decimal, decimal_string};

verus! {

/// Files with the same size and content hash.
#[derive(Debug, Clone)]
pub struct DuplicateGroup {
    pub bytes: u64,
    pub blake3: String,
    pub files: Vec<String>,
}

/// Bytes that the copies of one group take beyond its first file.
#[derive(Debug, Clone, Copy, PartialEq, Eq, Structural)]
pub struct DupGroupSummary {
    pub bytes: u64,
    pub files: usize,
    pub extra_bytes: u64,
}

#[derive(Debug, Clone)]
pub struct DupStatsSummary {
    pub total_groups: usize,
    pub total_files: usize,
    pub total_extra_bytes: u64,
    pub groups: Vec<DupGroupSummary>,
}

/// Bytes taken by all copies of a group but one.
pub open spec fn extra_of(g: DuplicateGroup) -> int {
    if g.files@.len() >= 2 {
        (g.files@.len() - 1) * g.bytes
    } else {
        0
    }
}

pub open spec fn files_total(gs: Seq<DuplicateGroup>) -> int
    decreases gs.len(),
{
    if gs.len() == 0 {
        0
    } else {
        files_total(gs.drop_last()) + gs.last().files@.len()
    }
}

pub open spec fn extra_total(gs: Seq<DuplicateGroup>) -> int
    decreases gs.len(),
{
    if gs.len() == 0 {
        0
    } else {
        extra_total(gs.drop_last()) + extra_of(gs.last())
    }
}

/// One summary for each group whose copies take bytes, in report order.
pub open spec fn summaries(gs: Seq<DuplicateGroup>) -> Seq<DupGroupSummary>
    decreases gs.len(),
{
    if gs.len() == 0 {
        Seq::empty()
    } else if extra_of(gs.last()) > 0 {
        summaries(gs.drop_last()).push(
            DupGroupSummary {
                bytes: gs.last().bytes,
                files: gs.last().files@.len() as usize,
                extra_bytes: extra_of(gs.last()) as u64,
            },
        )
    } else {
        summaries(gs.drop_last())
    }
}

/// Where `x` goes in `s`: after the last summary, counted from the end, whose
/// extra bytes are not below those of `x`.
pub open spec fn slot_for(s: Seq<DupGroupSummary>, x: DupGroupSummary) -> int
    decreases s.len(),
{
    if s.len() == 0 {
        0
    } else if s.last().extra_bytes >= x.extra_bytes {
        s.len() as int
    } else {
        slot_for(s.drop_last(), x)
    }
}

/// Summaries ordered by extra bytes, largest first; equal ones keep their order.
pub open spec fn sorted_desc(s: Seq<DupGroupSummary>) -> Seq<DupGroupSummary>
    decreases s.len(),
{
    if s.len() == 0 {
        Seq::empty()
    } else {
        let t = sorted_desc(s.drop_last());
        t.insert(slot_for(t, s.last()), s.last())
    }
}

proof fn lemma_slot_for(s: Seq<DupGroupSummary>, x: DupGroupSummary)
    ensures
        0 <= slot_for(s, x) <= s.len(),
    decreases s.len(),
{
    if s.len() > 0 {
        lemma_slot_for(s.drop_last(), x);
    }
}

proof fn lemma_files_total_grows(gs: Seq<DuplicateGroup>, i: int)
    requires
        0 <= i <= gs.len(),
    ensures
        files_total(gs.take(i)) <= files_total(gs),
        extra_total(gs.take(i)) <= extra_total(gs),
    decreases gs.len() - i,
{
    if i < gs.len() {
        lemma_files_total_grows(gs, i + 1);
        assert(gs.take(i + 1).drop_last() =~= gs.take(i));
        assert(extra_of(gs[i]) >= 0) by (nonlinear_arith)
            requires
                gs[i].files@.len() >= 2 ==> extra_of(gs[i]) == (gs[i].files@.len() - 1) * gs[i].bytes,
                gs[i].files@.len() < 2 ==> extra_of(gs[i]) == 0,
                gs[i].bytes >= 0,
        ;
    } else {
        assert(gs.take(i) =~= gs);
    }
}

/// Totals of a duplicate report and the groups that waste bytes, largest waste
/// first. None when a total does not fit in its integer type.
pub fn summarize(groups: &[DuplicateGroup]) -> (r: Option<DupStatsSummary>)
    ensures
        r is None <==> files_total(groups@) > usize::MAX || extra_total(groups@) > u64::MAX,
        r matches Some(s) ==> {
            &&& s.total_groups == groups@.len()
            &&& s.total_files == files_total(groups@)
            &&& s.total_extra_bytes == extra_total(groups@)
            &&& s.groups@ == sorted_desc(summaries(groups@))
        },
{
    let ghost gs = groups@;
    let mut total_files: usize = 0;
    let mut total_extra: u64 = 0;
    let mut found: Vec<DupGroupSummary> = Vec::new();
    let mut i: usize = 0;
    while i < groups.len()
        invariant
            i <= groups.len(),
            gs == groups@,
            total_files == files_total(gs.take(i as int)),
            total_extra == extra_total(gs.take(i as int)),
            found@ == summaries(gs.take(i as int)),
        decreases groups.len() - i,
    {
        let g = &groups[i];
        let n = g.files.len();
        proof {
            assert(gs.take(i + 1).drop_last() =~= gs.take(i as int));
            assert(gs.take(i + 1).last() == *g);
            lemma_files_total_grows(gs, i + 1);
        }
        if n > usize::MAX - total_files {
            return None;
        }
        total_files = total_files + n;
        if n >= 2 {
            let copies = (n - 1) as u64;
            if g.bytes > 0 && copies > u64::MAX / g.bytes {
                proof {
                    assert(copies * g.bytes > u64::MAX) by (nonlinear_arith)
                        requires
                            g.bytes > 0,
                            copies > u64::MAX / g.bytes,
                    ;
                }
                return None;
            }
            proof {
                assert(copies * g.bytes <= u64::MAX) by (nonlinear_arith)
                    requires
                        g.bytes == 0 || copies <= u64::MAX / g.bytes,
                ;
            }
            let extra = copies * g.bytes;
            if extra > u64::MAX - total_extra {
                return None;
            }
            total_extra = total_extra + extra;
            if extra > 0 {
                found.push(DupGroupSummary { bytes: g.bytes, files: n, extra_bytes: extra });
            }
        }
        i = i + 1;
    }
    assert(gs.take(groups.len() as int) =~= gs);
    let mut sorted: Vec<DupGroupSummary> = Vec::new();
    let mut k: usize = 0;
    assert(found@.take(0) =~= Seq::<DupGroupSummary>::empty());
    while k < found.len()
        invariant
            k <= found.len(),
            sorted@ == sorted_desc(found@.take(k as int)),
            sorted@.len() == k,
        decreases found.len() - k,
    {
        let x = found[k];
        let mut j: usize = sorted.len();
        assert(sorted@.take(j as int) =~= sorted@);
        while j > 0 && sorted[j - 1].extra_bytes < x.extra_bytes
            invariant
                j <= sorted@.len(),
                slot_for(sorted@, x) == slot_for(sorted@.take(j as int), x),
            decreases j,
        {
            assert(sorted@.take(j as int).drop_last() =~= sorted@.take(j - 1));
            j = j - 1;
        }
        proof {
            if j > 0 {
                assert(sorted@.take(j as int).last() == sorted@[j - 1]);
            }
            assert(found@.take(k + 1).drop_last() =~= found@.take(k as int));
            assert(found@.take(k + 1).last() == x);
        }
        sorted.insert(j, x);
        k = k + 1;
    }
    assert(found@.take(found.len() as int) =~= found@);
    Some(DupStatsSummary {
        total_groups: groups.len(),
        total_files,
        total_extra_bytes: total_extra,
        groups: sorted,
    })
}

/// The listed paths of a group, one per line.
pub open spec fn path_lines(ps: Seq<Seq<char>>) -> Seq<char>
    decreases ps.len(),
{
    if ps.len() == 0 {
        Seq::empty()
    } else {
        path_lines(ps.drop_last()) + "  - "@ + ps.last() + seq!['\n']
    }
}

/// The block of group number `n` (counted from one).
pub open spec fn group_block(n: nat, g: DuplicateGroup) -> Seq<char> {
    "== Group "@ + decimal(n) + ": "@ + decimal(g.files@.len()) + " files | "@ + decimal(g.bytes as nat)
        + " bytes | blake3 "@ + g.blake3@ + " ==\n"@ + path_lines(views(g.files@)) + seq!['\n']
}

pub open spec fn group_blocks(gs: Seq<DuplicateGroup>) -> Seq<char>
    decreases gs.len(),
{
    if gs.len() == 0 {
        Seq::empty()
    } else {
        group_blocks(gs.drop_last()) + group_block(gs.len(), gs.last())
    }
}

/// The plain-text duplicate report.
pub open spec fn report_text(gs: Seq<DuplicateGroup>) -> Seq<char> {
    if gs.len() == 0 {
        "No duplicates found (by full-file BLAKE3 hash).\n"@
    } else {
        "Duplicate groups: "@ + decimal(gs.len()) + "\n\n"@ + group_blocks(gs)
    }
}

fn group_block_in(out: &mut String, n: usize, g: &DuplicateGroup)
    ensures
        final(out)@ == old(out)@ + group_block(n as nat, *g),
{
    let ghost start = out@;
    out.append("== Group ");
    out.append(decimal_string(n as u64).as_str());
    out.append(": ");
    out.append(decimal_string(g.files.len() as u64).as_str());
    out.append(" files | ");
    out.append(decimal_string(g.bytes).as_str());
    out.append(" bytes | blake3 ");
    out.append(g.blake3.as_str());
    out.append(" ==\n");
    let ghost head = out@;
    let ghost fv = views(g.files@);
    let mut i: usize = 0;
    assert(fv.take(0) =~= Seq::<Seq<char>>::empty());
    assert(head =~= head + path_lines(fv.take(0)));
    while i < g.files.len()
        invariant
            i <= g.files.len(),
            fv == views(g.files@),
            out@ == head + path_lines(fv.take(i as int)),
        decreases g.files.len() - i,
    {
        out.append("  - ");
        out.append(g.files[i].as_str());
        crate::text::push_char(out, '\n');
        proof {
            assert(fv.take(i + 1).drop_last() =~= fv.take(i as int));
            assert(fv.take(i + 1).last() == g.files@[i as int]@);
            assert(out@ =~= head + path_lines(fv.take(i + 1)));
        }
        i = i + 1;
    }
    assert(fv.take(g.files.len() as int) =~= fv);
    crate::text::push_char(out, '\n');
    assert(out@ =~= start + group_block(n as nat, *g));
}

/// The plain-text report of duplicate groups: a count, then one block per group
/// with its size, hash and paths.
pub fn text_report(groups: &[DuplicateGroup]) -> (r: String)
    ensures
        r@ == report_text(groups@),
{
    if groups.len() == 0 {
        return String::from_str("No duplicates found (by full-file BLAKE3 hash).\n");
    }
    let mut out = String::from_str("Duplicate groups: ");
    out.append(decimal_string(groups.len() as u64).as_str());
    out.append("\n\n");
    let ghost head = out@;
    let ghost gs = groups@;
    let mut i: usize = 0;
    assert(gs.take(0) =~= Seq::<DuplicateGroup>::empty());
    assert(head =~= head + group_blocks(gs.take(0)));
    while i < groups.len()
        invariant
            i <= groups.len(),
            gs == groups@,
            out@ == head + group_blocks(gs.take(i as int)),
        decreases groups.len() - i,
    {
        group_block_in(&mut out, i + 1, &groups[i]);
        proof {
            assert(gs.take(i + 1).drop_last() =~= gs.take(i as int));
            assert(gs.take(i + 1).last() == groups@[i as int]);
            assert(out@ =~= head + group_blocks(gs.take(i + 1)));
        }
        i = i + 1;
    }
    assert(gs.take(groups.len() as int) =~= gs);
    out
}

} // verus!
