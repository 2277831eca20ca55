//! Choices of the duplicate scan over a library tree: which files take part and
//! with which settings.

use vstd::prelude::*;
use crate::assemble::{strings_of, views};
use crate::config::{DupsConfig, DupsOutputFormat};
use crate::paragraph::{lower_ascii, lower_ascii_in};
use crate::text::{chars_of, deep, lemma_deep_push, same_str, string_of, trim, trim_chars};
use crate::util::strip_leading;

verus! {

/// Options of one scan as given on the command line; unset ones fall back to the
/// configuration.
#[derive(Debug, Clone)]
pub struct DupsArgs {
    pub library: Option<String>,
    pub output: Option<DupsOutputFormat>,
    pub out: Option<String>,
    pub ext: Vec<String>,
    pub follow_symlinks: bool,
    pub threads: usize,
    pub min_size: u64,
    pub include_sidecars: bool,
}

/// The settings a scan runs with.
#[derive(Debug, Clone)]
pub struct DupsSettings {
    pub output: DupsOutputFormat,
    pub out: Option<String>,
    pub ext: Vec<String>,
    pub follow_symlinks: bool,
    pub threads: usize,
    pub min_size: u64,
    pub include_sidecars: bool,
}

/// An extension as given, trimmed, without leading dots, in ASCII lower case.
pub open spec fn clean_ext(s: Seq<char>) -> Seq<char> {
    lower_ascii(strip_leading(trim(s), '.'))
}

/// The cleaned extensions that are not empty, in order.
pub open spec fn clean_exts(ss: Seq<Seq<char>>) -> Seq<Seq<char>>
    decreases ss.len(),
{
    if ss.len() == 0 {
        Seq::empty()
    } else if clean_ext(ss.last()).len() > 0 {
        clean_exts(ss.drop_last()).push(clean_ext(ss.last()))
    } else {
        clean_exts(ss.drop_last())
    }
}

fn clean_ext_chars(s: &str) -> (r: Vec<char>)
    ensures
        r@ == clean_ext(s@),
{
    let t = trim_chars(&chars_of(s));
    let n = t.len();
    let mut a: usize = 0;
    assert(t@.subrange(0, n as int) =~= t@);
    while a < n && t[a] == '.'
        invariant
            a <= n == t.len(),
            strip_leading(t@, '.') == strip_leading(t@.subrange(a as int, n as int), '.'),
        decreases n - a,
    {
        assert(t@.subrange(a as int, n as int).drop_first() =~= t@.subrange(a + 1, n as int));
        a = a + 1;
    }
    let mut w: Vec<char> = Vec::new();
    let mut k: usize = a;
    while k < n
        invariant
            a <= k <= n == t.len(),
            w@ == t@.subrange(a as int, k as int),
        decreases n - k,
    {
        w.push(t[k]);
        assert(t@.subrange(a as int, k + 1) =~= t@.subrange(a as int, k as int).push(t@[k as int]));
        k = k + 1;
    }
    lower_ascii_in(&w)
}

/// Extensions cleaned for comparison: trimmed, leading dots removed, ASCII lower
/// case; empty ones dropped.
pub fn normalize_exts(inputs: &[String]) -> (r: Vec<String>)
    ensures
        views(r@) == clean_exts(views(inputs@)),
{
    let ghost iv = views(inputs@);
    let mut out: Vec<Vec<char>> = Vec::new();
    let mut i: usize = 0;
    assert(deep(out@) =~= Seq::<Seq<char>>::empty());
    assert(iv.take(0) =~= Seq::<Seq<char>>::empty());
    while i < inputs.len()
        invariant
            i <= inputs.len(),
            iv == views(inputs@),
            deep(out@) == clean_exts(iv.take(i as int)),
        decreases inputs.len() - i,
    {
        let c = clean_ext_chars(inputs[i].as_str());
        proof {
            assert(iv.take(i + 1).drop_last() =~= iv.take(i as int));
            assert(iv.take(i + 1).last() == inputs@[i as int]@);
        }
        if c.len() > 0 {
            proof {
                lemma_deep_push(out@, c);
            }
            out.push(c);
        }
        i = i + 1;
    }
    assert(iv.take(inputs.len() as int) =~= iv);
    strings_of(&out)
}

/// The extensions scanned when none are configured.
pub open spec fn default_ext_list() -> Seq<Seq<char>> {
    seq![
        "epub"@, "pdf"@, "mobi"@, "azw"@, "azw3"@, "djvu"@, "fb2"@, "rtf"@, "txt"@, "doc"@,
        "docx"@, "cbz"@, "cbr"@,
    ]
}

/// The extensions scanned when none are configured.
pub fn default_exts() -> (r: Vec<String>)
    ensures
        views(r@) == default_ext_list(),
{
    let mut r: Vec<String> = Vec::new();
    r.push(String::from_str("epub"));
    r.push(String::from_str("pdf"));
    r.push(String::from_str("mobi"));
    r.push(String::from_str("azw"));
    r.push(String::from_str("azw3"));
    r.push(String::from_str("djvu"));
    r.push(String::from_str("fb2"));
    r.push(String::from_str("rtf"));
    r.push(String::from_str("txt"));
    r.push(String::from_str("doc"));
    r.push(String::from_str("docx"));
    r.push(String::from_str("cbz"));
    r.push(String::from_str("cbr"));
    assert(views(r@) =~= default_ext_list());
    r
}

/// Files that a library keeps beside each book.
pub open spec fn sidecar_name(name: Seq<char>) -> bool {
    name == "metadata.opf"@ || name == "cover.jpg"@ || name == "cover.jpeg"@ || name == "cover.png"@
}

/// Whether a file name is a library sidecar.
pub fn is_sidecar(name: &str) -> (r: bool)
    ensures
        r == sidecar_name(name@),
{
    same_str(name, "metadata.opf") || same_str(name, "cover.jpg") || same_str(name, "cover.jpeg") || same_str(
        name,
        "cover.png",
    )
}

/// A file takes part in the scan when it is a sidecar and sidecars are wanted, or
/// when its extension, in ASCII lower case, is one of `exts`.
pub open spec fn wanted(
    file_name: Option<Seq<char>>,
    ext: Option<Seq<char>>,
    exts: Seq<Seq<char>>,
    include_sidecars: bool,
) -> bool {
    match file_name {
        None => false,
        Some(n) => if include_sidecars && sidecar_name(n) {
            true
        } else {
            match ext {
                None => false,
                Some(e) => exts.contains(lower_ascii(e)),
            }
        },
    }
}

/// Whether a regular file, given its name and extension, takes part in the scan.
#[verifier::loop_isolation(false)]
pub fn wants_file(
    file_name: Option<&str>,
    ext: Option<&str>,
    exts: &[String],
    include_sidecars: bool,
) -> (r: bool)
    ensures
        r == wanted(
            match file_name {
                Some(n) => Some(n@),
                None => None,
            },
            match ext {
                Some(e) => Some(e@),
                None => None,
            },
            views(exts@),
            include_sidecars,
        ),
{
    let name = match file_name {
        Some(n) => n,
        None => return false,
    };
    if include_sidecars && is_sidecar(name) {
        return true;
    }
    let e = match ext {
        Some(e) => e,
        None => return false,
    };
    let lower = string_of(&lower_ascii_in(&chars_of(e)));
    let mut i: usize = 0;
    while i < exts.len()
        invariant
            i <= exts.len(),
            forall|j: int| 0 <= j < i ==> exts@[j]@ != lower@,
        decreases exts.len() - i,
    {
        if same_str(exts[i].as_str(), lower.as_str()) {
            assert(views(exts@)[i as int] == lower@);
            return true;
        }
        i = i + 1;
    }
    assert(!views(exts@).contains(lower@)) by {
        if views(exts@).contains(lower@) {
            let j = choose|j: int| 0 <= j < views(exts@).len() && views(exts@)[j] == lower@;
            assert(exts@[j]@ == lower@);
        }
    }
    false
}

/// The library root and the settings of a scan: options given on the command line
/// win; extensions, threads and the minimum size fall back to the configuration
/// when not given, and the flags are set when either side sets them.
pub fn resolve_settings(args: &DupsArgs, config: &DupsConfig, calibre_root: &str) -> (r: (String, DupsSettings))
    ensures
        r.0@ == match args.library {
            Some(l) => l@,
            None => calibre_root@,
        },
        views(r.1.ext@) == clean_exts(if args.ext@.len() == 0 { views(config.ext@) } else { views(args.ext@) }),
        r.1.output == match args.output {
            Some(o) => o,
            None => config.output,
        },
        (match (r.1.out, args.out, config.out) {
            (Some(a), Some(b), _) => a@ == b@,
            (Some(a), None, Some(c)) => a@ == c@,
            (None, None, None) => true,
            _ => false,
        }),
        r.1.follow_symlinks == (args.follow_symlinks || config.follow_symlinks),
        r.1.threads == if args.threads == 0 { config.threads } else { args.threads },
        r.1.min_size == if args.min_size == 0 { config.min_size } else { args.min_size },
        r.1.include_sidecars == (args.include_sidecars || config.include_sidecars),
{
    let root = match &args.library {
        Some(l) => l.clone(),
        None => String::from_str(calibre_root),
    };
    let ext = if args.ext.len() == 0 {
        normalize_exts(config.ext.as_slice())
    } else {
        normalize_exts(args.ext.as_slice())
    };
    let output = match args.output {
        Some(o) => o,
        None => config.output,
    };
    let out = match &args.out {
        Some(o) => Some(o.clone()),
        None => match &config.out {
            Some(c) => Some(c.clone()),
            None => None,
        },
    };
    let settings = DupsSettings {
        output,
        out,
        ext,
        follow_symlinks: args.follow_symlinks || config.follow_symlinks,
        threads: if args.threads == 0 { config.threads } else { args.threads },
        min_size: if args.min_size == 0 { config.min_size } else { args.min_size },
        include_sidecars: args.include_sidecars || config.include_sidecars,
    };
    (root, settings)
}

} // verus!
