use std::sync::{Arc, Mutex};

use chunkr::batch::{file_permits, group_bounds};
use tokio::sync::Semaphore;

#[test]
fn one_file_permit_serializes_files() {
    let rt = tokio::runtime::Runtime::new().unwrap();
    let events: Arc<Mutex<Vec<String>>> = Arc::new(Mutex::new(Vec::new()));
    rt.block_on(async {
        let permits = Arc::new(Semaphore::new(file_permits(1)));
        let mut tasks = Vec::new();
        for file in ["first", "second"] {
            let permit = permits.clone().acquire_owned().await.unwrap();
            let events = events.clone();
            tasks.push(tokio::spawn(async move {
                let _permit = permit;
                for (b, _) in group_bounds(3, 1).into_iter().enumerate() {
                    events.lock().unwrap().push(format!("{file} start {b}"));
                    tokio::task::yield_now().await;
                    events.lock().unwrap().push(format!("{file} end {b}"));
                }
            }));
        }
        for t in tasks {
            t.await.unwrap();
        }
    });
    let events = events.lock().unwrap().clone();
    let last_first = events.iter().position(|e| e == "first end 2").unwrap();
    let first_second = events.iter().position(|e| e == "second start 0").unwrap();
    assert!(last_first < first_second, "{events:?}");
}
