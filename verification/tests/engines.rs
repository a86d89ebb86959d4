use std::sync::Arc;
use std::sync::Mutex;

use kvs::server::handle;
use kvs::sled::{removal_of, value_of_bytes, SledKvsEngine};
use kvs::thread_pool::{
    worker_step, RayonThreadPool, ThreadPool, WorkerAction, WorkerEvent, WorkerState,
};
use kvs::{KvStoreError, KvsEngine, Result};

fn text(s: &str) -> String {
    s.to_owned()
}

fn spawn_counter<P: ThreadPool>(pool: P) -> Result<()> {
    const TASK_NUM: usize = 20;
    const ADD_COUNT: usize = 1000;

    let counter = Arc::new(Mutex::new(0));

    for _ in 0..TASK_NUM {
        let counter = Arc::clone(&counter);
        pool.spawn(move || {
            for _ in 0..ADD_COUNT {
                *counter.lock().unwrap() += 1;
            }
        })
    }

    let start = std::time::Instant::now();

    while std::time::Instant::now() - start < std::time::Duration::from_secs(5) {
        if *counter.lock().unwrap() == TASK_NUM * ADD_COUNT {
            return Ok(());
        }
    }

    panic!("timeout");
}

#[test]
fn rayon_thread_pool_spawn_counter() {
    let pool = RayonThreadPool::new(4).unwrap();
    spawn_counter(pool).unwrap();
}

#[test]
fn found_bytes_become_a_value() {
    assert_eq!(value_of_bytes(None), Ok(None));
    assert_eq!(value_of_bytes(Some(b"value".to_vec())), Ok(Some(text("value"))));
    assert_eq!(value_of_bytes(Some("värde".as_bytes().to_vec())), Ok(Some(text("värde"))));
    assert_eq!(value_of_bytes(Some(Vec::new())), Ok(Some(text(""))));
    assert_eq!(
        value_of_bytes(Some(vec![0xff, 0xfe])),
        Err(KvStoreError::DeserializationFailure)
    );
    assert_eq!(
        value_of_bytes(Some(vec![0xed, 0xa0, 0x80])),
        Err(KvStoreError::DeserializationFailure)
    );
}

#[test]
fn a_key_that_had_no_bytes_was_not_there() {
    assert_eq!(removal_of(Some(b"old".to_vec())), Ok(()));
    assert_eq!(removal_of(Some(Vec::new())), Ok(()));
    assert_eq!(removal_of(None), Err(KvStoreError::KeyNotFound));
}

#[test]
fn the_sled_engine_stores_and_removes() {
    let dir = tempfile::tempdir().unwrap();
    let mut engine = SledKvsEngine::open(dir.path().to_str().unwrap()).unwrap();
    assert_eq!(engine.get(text("a")), Ok(None));
    assert_eq!(engine.set(text("a"), text("1")), Ok(()));
    assert_eq!(engine.set(text("a"), text("2")), Ok(()));
    assert_eq!(engine.get(text("a")), Ok(Some(text("2"))));
    assert_eq!(engine.remove(text("a")), Ok(()));
    assert_eq!(engine.get(text("a")), Ok(None));
    assert_eq!(engine.remove(text("a")), Err(KvStoreError::KeyNotFound));
    assert_eq!(engine.flush(), Ok(()));
}

#[test]
fn the_sled_engine_serves_requests() {
    let dir = tempfile::tempdir().unwrap();
    let mut engine = SledKvsEngine::open(dir.path().to_str().unwrap()).unwrap();
    assert_eq!(handle(b"{\"Set\":[\"a\",\"1\"]}", &mut engine).unwrap(), b"{\"Ok\":\"Set\"}".to_vec());
    assert_eq!(handle(b"{\"Get\":\"a\"}", &mut engine).unwrap(), b"{\"Ok\":{\"Get\":\"1\"}}".to_vec());
    assert_eq!(
        handle(b"{\"Remove\":\"b\"}", &mut engine).unwrap(),
        b"{\"Err\":{\"Server\":\"Key not found\"}}".to_vec()
    );
}

#[test]
fn a_worker_stops_only_when_the_queue_is_closed() {
    assert_eq!(
        worker_step(WorkerState::Waiting, WorkerEvent::JobReceived),
        (WorkerState::Running, WorkerAction::Run)
    );
    assert_eq!(
        worker_step(WorkerState::Running, WorkerEvent::JobReturned),
        (WorkerState::Waiting, WorkerAction::Receive)
    );
    assert_eq!(
        worker_step(WorkerState::Running, WorkerEvent::JobPanicked),
        (WorkerState::Waiting, WorkerAction::LogAndReceive)
    );
    assert_eq!(
        worker_step(WorkerState::Waiting, WorkerEvent::QueueClosed),
        (WorkerState::Stopped, WorkerAction::Exit)
    );
    assert_eq!(
        worker_step(WorkerState::Running, WorkerEvent::QueueClosed),
        (WorkerState::Stopped, WorkerAction::Exit)
    );
    assert_eq!(
        worker_step(WorkerState::Stopped, WorkerEvent::JobReceived),
        (WorkerState::Stopped, WorkerAction::Exit)
    );
}

#[test]
fn a_worker_outlives_many_panics() {
    let mut state = WorkerState::Waiting;
    let mut finished = 0;
    for i in 0..1000 {
        state = worker_step(state, WorkerEvent::JobReceived).0;
        assert_eq!(state, WorkerState::Running);
        let event = if i % 4 == 0 { WorkerEvent::JobReturned } else { WorkerEvent::JobPanicked };
        if event == WorkerEvent::JobReturned {
            finished += 1;
        }
        state = worker_step(state, event).0;
        assert_eq!(state, WorkerState::Waiting);
    }
    assert_eq!(finished, 250);
}

#[test]
fn the_sled_engine_keeps_each_key_apart() {
    let dir = tempfile::tempdir().unwrap();
    let mut engine = SledKvsEngine::open(dir.path().to_str().unwrap()).unwrap();
    assert_eq!(engine.set(text("a"), text("1")), Ok(()));
    assert_eq!(engine.set(text("b"), text("2")), Ok(()));
    assert_eq!(engine.set(text("a"), text("3")), Ok(()));
    assert_eq!(engine.get(text("b")), Ok(Some(text("2"))));
    assert_eq!(engine.remove(text("a")), Ok(()));
    assert_eq!(engine.get(text("b")), Ok(Some(text("2"))));
    assert_eq!(engine.get(text("a")), Ok(None));
    assert_eq!(engine.flush(), Ok(()));
    assert_eq!(engine.get(text("b")), Ok(Some(text("2"))));
}

#[test]
fn the_sled_engine_keeps_strings_beyond_ascii_and_empty_ones() {
    let dir = tempfile::tempdir().unwrap();
    let mut engine = SledKvsEngine::open(dir.path().to_str().unwrap()).unwrap();
    assert_eq!(engine.set(text("clé"), text("värde ✓")), Ok(()));
    assert_eq!(engine.set(text(""), text("")), Ok(()));
    assert_eq!(engine.get(text("clé")), Ok(Some(text("värde ✓"))));
    assert_eq!(engine.get(text("")), Ok(Some(text(""))));
    assert_eq!(engine.remove(text("")), Ok(()));
    assert_eq!(engine.get(text("")), Ok(None));
}

#[test]
fn a_rayon_pool_has_the_workers_that_were_asked_for() {
    assert_eq!(RayonThreadPool::new(1).unwrap().workers(), 1);
    assert_eq!(RayonThreadPool::new(4).unwrap().workers(), 4);
    assert_eq!(RayonThreadPool::new(7).unwrap().workers(), 7);
    assert!(RayonThreadPool::new(0).unwrap().workers() > 0);
}

#[test]
fn a_pool_that_was_not_built_is_a_failure() {
    assert!(matches!(
        kvs::thread_pool::started_pool(None),
        Err(KvStoreError::GenericFailure)
    ));
    let built = RayonThreadPool::new(2).ok();
    assert_eq!(kvs::thread_pool::started_pool(built).unwrap().workers(), 2);
}

#[test]
fn a_rayon_pool_outlives_jobs_that_panic() {
    let pool = RayonThreadPool::new(4).unwrap();
    for _ in 0..100 {
        pool.spawn(move || {
            panic!("a job that fails");
        })
    }
    spawn_counter(pool).unwrap();
}

#[test]
fn the_sled_engine_is_what_the_database_gave() {
    assert!(matches!(SledKvsEngine::engine_of(None), Err(KvStoreError::PageCache)));
    let dir = tempfile::tempdir().unwrap();
    let mut engine = SledKvsEngine::engine_of(sled::open(dir.path()).ok()).unwrap();
    assert_eq!(engine.set(text("a"), text("1")), Ok(()));
    assert_eq!(engine.get(text("a")), Ok(Some(text("1"))));
}

#[test]
fn a_call_that_the_database_failed_is_a_page_cache_failure() {
    assert_eq!(SledKvsEngine::outcome_of(true), Ok(()));
    assert_eq!(SledKvsEngine::outcome_of(false), Err(KvStoreError::PageCache));
}

#[test]
fn a_second_open_of_one_directory_fails() {
    let dir = tempfile::tempdir().unwrap();
    let path = dir.path().to_str().unwrap();
    let first = SledKvsEngine::open(path);
    assert!(first.is_ok());
    assert!(matches!(SledKvsEngine::open(path), Err(KvStoreError::PageCache)));
}
