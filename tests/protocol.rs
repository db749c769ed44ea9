use std::collections::HashMap;
use std::sync::{Arc, Mutex};

use kvs::common::KvsEngine;
use kvs::error::{Error, ErrorKind, Result};
use kvs::net::{Request, Response};
use kvs::server::handle_request;
use kvs::thread_pool::{worker_step, Message, Supervisor, SupervisorAction};

#[derive(Clone)]
struct MemEngine {
    map: Arc<Mutex<HashMap<String, String>>>,
}

impl KvsEngine for MemEngine {
    fn get(&self, key: String) -> Result<Option<String>> {
        Ok(self.map.lock().unwrap().get(&key).cloned())
    }

    fn set(&self, key: String, value: String) -> Result<()> {
        self.map.lock().unwrap().insert(key, value);
        Ok(())
    }

    fn remove(&self, key: String) -> Result<()> {
        match self.map.lock().unwrap().remove(&key) {
            Some(_) => Ok(()),
            None => Err(Error::key_not_found(format!("key {} not found", key))),
        }
    }
}

#[test]
fn requests_on_one_connection_answer_in_order() {
    let engine = MemEngine { map: Arc::new(Mutex::new(HashMap::new())) };
    let x = || "x".to_string();
    let reqs = vec![
        Request::Put { key: x(), value: "y".to_string() },
        Request::Get { key: x() },
        Request::Remove { key: x() },
        Request::Get { key: x() },
    ];
    let resps: Vec<Response> = reqs.into_iter().map(|r| handle_request(&engine, r)).collect();
    assert_eq!(
        resps,
        vec![
            Response::Put(Ok(())),
            Response::Get(Ok(Some("y".to_string()))),
            Response::Remove(Ok(())),
            Response::Get(Ok(None)),
        ]
    );
}

#[test]
fn engine_errors_cross_as_messages() {
    let engine = MemEngine { map: Arc::new(Mutex::new(HashMap::new())) };
    let r = handle_request(&engine, Request::Remove { key: "k".to_string() });
    assert_eq!(r, Response::Remove(Err("key k not found".to_string())));
}

#[test]
fn response_constructors() {
    assert_eq!(Response::set(Ok(())), Response::Put(Ok(())));
    assert_eq!(Response::get(Ok(None)), Response::Get(Ok(None)));
    assert_eq!(Response::remove(Err("e".to_string())), Response::Remove(Err("e".to_string())));
    let e = Error::invalid_command("bad".to_string());
    assert_eq!(Response::for_get(Err(e)), Response::Get(Err("bad".to_string())));
    assert_eq!(Response::for_set(Ok(())), Response::Put(Ok(())));
}

#[test]
fn client_reads_payloads_and_remote_errors() {
    assert_eq!(
        Response::into_get(Some(Response::Get(Ok(Some("v".to_string()))))).unwrap(),
        Some("v".to_string())
    );
    assert_eq!(Response::into_get(Some(Response::Get(Ok(None)))).unwrap(), None);
    let e = Response::into_remove(Some(Response::Remove(Err("key k not found".to_string()))))
        .unwrap_err();
    assert_eq!(e.kind, ErrorKind::Remote("key k not found".to_string()));
    assert!(Response::into_set(Some(Response::Put(Ok(())))).is_ok());
}

#[test]
fn client_refuses_mismatched_or_missing_responses() {
    let e = Response::into_get(Some(Response::Put(Ok(())))).unwrap_err();
    assert!(matches!(e.kind, ErrorKind::InvalidFormat(_)));
    let e = Response::into_set(None).unwrap_err();
    assert!(matches!(e.kind, ErrorKind::InvalidFormat(_)));
    let e = Response::into_remove(Some(Response::Get(Ok(None)))).unwrap_err();
    assert!(matches!(e.kind, ErrorKind::InvalidFormat(_)));
}

#[test]
fn supervisor_revives_dead_workers_in_place() {
    let mut s = Supervisor::new(3);
    assert_eq!(s.worker_count(), 3);
    let a = s.on_message::<()>(&Message::Dead(4));
    assert_eq!(a, SupervisorAction::Revive { slot: 1, id: 4 });
    assert_eq!(s.worker_count(), 3);
    assert_eq!(s.on_message::<()>(&Message::Work(())), SupervisorAction::Ignore);
    assert_eq!(s.on_message::<()>(&Message::Terminate), SupervisorAction::Stop);
    assert_eq!(s.worker_count(), 3);
    assert_eq!(s.size(), 3);
}

#[test]
fn supervisor_of_an_empty_pool_ignores_deaths() {
    let mut s = Supervisor::new(0);
    assert_eq!(s.on_message::<()>(&Message::Dead(0)), SupervisorAction::Ignore);
    assert_eq!(s.worker_count(), 0);
}

#[test]
fn workers_run_jobs_and_stop_on_terminate() {
    assert_eq!(worker_step(Message::Work(7)), Some(7));
    assert_eq!(worker_step::<u8>(Message::Terminate), None);
    assert_eq!(worker_step::<u8>(Message::Dead(1)), None);
}

#[test]
fn error_messages() {
    let e = Error::new(ErrorKind::Io("disk gone".to_string()));
    assert_eq!(e.as_string(), "disk gone");
    assert!(!e.is_key_not_found());
}
