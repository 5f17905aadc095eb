use std::collections::BTreeMap;
use std::time::{SystemTime, UNIX_EPOCH};

use greptimedb::process_manager::{
    execute_kill, KillAction, ProcessKey, ProcessManager, ProcessValue,
};

/// The processes of a cluster, by key.
#[derive(Default)]
struct Store {
    processes: BTreeMap<Vec<u8>, ProcessValue>,
    next_id: u64,
}

impl Store {
    fn register(
        &mut self,
        manager: &mut ProcessManager<u32>,
        query: &str,
        token: Option<u32>,
    ) -> u64 {
        let id = self.next_id;
        self.next_id += 1;
        let put =
            manager.register_query(id, "public".to_string(), query.to_string(), now_millis());
        self.processes.insert(put.key, put.value);
        manager.registered(id, token)
    }

    fn deregister(&mut self, manager: &ProcessManager<u32>, id: u64) -> bool {
        self.processes.remove(&manager.deregister_query(id)).is_some()
    }

    fn deregister_all(&mut self, manager: &ProcessManager<u32>) {
        let prefix = manager.deregister_all_queries();
        self.processes.retain(|key, _| !key.starts_with(&prefix));
    }

    fn dump(&self, manager: &ProcessManager<u32>) -> Vec<(ProcessKey, &ProcessValue)> {
        let prefix = manager.list_all_processes();
        self.processes
            .iter()
            .filter(|(key, _)| key.starts_with(&prefix))
            .map(|(key, value)| (ProcessKey::from_bytes(key).unwrap(), value))
            .collect()
    }
}

fn now_millis() -> i64 {
    SystemTime::now().duration_since(UNIX_EPOCH).unwrap().as_millis() as i64
}

fn manager(addr: &str) -> ProcessManager<u32> {
    ProcessManager::new(addr.to_string())
}

#[test]
fn test_register_query() {
    let mut store = Store::default();
    let mut process_manager = manager("127.0.0.1:8000");
    let process_id = store.register(&mut process_manager, "SELECT * FROM table", None);

    let running_processes = store.dump(&process_manager);
    assert_eq!(running_processes.len(), 1);
    assert_eq!(running_processes[0].0.frontend_ip, "127.0.0.1:8000");
    assert_eq!(running_processes[0].0.id, process_id);
    assert_eq!(running_processes[0].1.query, "SELECT * FROM table");

    assert!(store.deregister(&process_manager, process_id));
    assert_eq!(store.dump(&process_manager).len(), 0);
}

#[test]
fn test_register_multiple_queries() {
    let mut store = Store::default();
    let mut process_manager = manager("127.0.0.1:8000");
    let id1 = store.register(&mut process_manager, "SELECT 1", None);
    let id2 = store.register(&mut process_manager, "SELECT 2", None);
    let id3 = store.register(&mut process_manager, "SELECT 3", None);
    assert_eq!(store.dump(&process_manager).len(), 3);

    store.deregister(&process_manager, id2);
    let processes = store.dump(&process_manager);
    assert_eq!(processes.len(), 2);
    assert!(processes.iter().any(|p| p.0.id == id1));
    assert!(processes.iter().any(|p| p.0.id == id3));
}

#[test]
fn test_deregister_nonexistent_query() {
    let mut store = Store::default();
    let process_manager = manager("127.0.0.1:8000");
    assert!(!store.deregister(&process_manager, 999));
}

#[test]
fn test_process_timestamps() {
    let mut store = Store::default();
    let mut process_manager = manager("127.0.0.1:8000");
    let before = now_millis();
    store.register(&mut process_manager, "SELECT NOW()", None);
    let after = now_millis();

    let running_processes = store.dump(&process_manager);
    let process = &running_processes[0];
    assert!(process.1.start_timestamp_ms >= before);
    assert!(process.1.start_timestamp_ms <= after);
}

#[test]
fn test_multiple_frontends() {
    let mut store = Store::default();
    let mut pm1 = manager("127.0.0.1:8000");
    let mut pm2 = manager("127.0.0.1:8001");
    let id1 = store.register(&mut pm1, "SELECT 1", None);
    let id2 = store.register(&mut pm2, "SELECT 2", None);

    let pm1_processes = store.dump(&pm1);
    assert_eq!(pm1_processes.len(), 1);
    let p1 = pm1_processes.iter().find(|p| p.0.id == id1).unwrap();
    assert_eq!(p1.0.frontend_ip, "127.0.0.1:8000");

    let p2_processes = store.dump(&pm2);
    assert_eq!(p2_processes.len(), 1);
    let p2 = p2_processes.iter().find(|p| p.0.id == id2).unwrap();
    assert_eq!(p2.0.frontend_ip, "127.0.0.1:8001");
    assert_eq!(p2.1.database, "public");

    store.deregister_all(&pm1);
    assert_eq!(store.dump(&pm1).len(), 0);
    assert_eq!(store.dump(&pm2).len(), 1);
}

#[test]
fn test_list_empty_processes() {
    let store = Store::default();
    assert!(store.dump(&manager("127.0.0.1:8000")).is_empty());
}

#[test]
fn test_deregister_all_queries() {
    let mut store = Store::default();
    let mut process_manager = manager("127.0.0.1:8000");
    store.register(&mut process_manager, "SELECT 1", None);
    store.register(&mut process_manager, "SELECT 2", None);
    store.register(&mut process_manager, "SELECT 3", None);
    assert_eq!(store.dump(&process_manager).len(), 3);

    store.deregister_all(&process_manager);
    assert_eq!(store.dump(&process_manager).len(), 0);
}

#[test]
fn process_keys_as_bytes() {
    let key = ProcessKey { frontend_ip: "node-a:4000".to_string(), id: 17 };
    assert_eq!(key.to_bytes(), b"__process/node-a:4000-17");
    assert_eq!(ProcessKey::from_bytes(&key.to_bytes()), Some(key));
    for bad in [
        &b"__process/"[..],
        b"__process/a",
        b"__process/a-",
        b"__process/a-x",
        b"__process/a-+1",
        b"__other/a-1",
        b"__process/\xff-1",
        b"__process/a-18446744073709551616",
    ] {
        assert_eq!(ProcessKey::from_bytes(bad), None);
    }
}

#[test]
fn a_query_is_cancelled_once() {
    let mut store = Store::default();
    let mut process_manager = manager("127.0.0.1:8000");
    let id = store.register(&mut process_manager, "SELECT 1", Some(77));
    let plain = store.register(&mut process_manager, "SELECT 2", None);
    let here = || "127.0.0.1:8000".to_string();
    assert!(matches!(process_manager.kill(here(), plain), KillAction::Nothing));
    assert!(matches!(process_manager.kill(here(), id), KillAction::Cancel(77)));
    assert!(matches!(process_manager.kill(here(), id), KillAction::Nothing));
    let action = process_manager.kill("127.0.0.1:8001".to_string(), 5);
    assert!(matches!(
        action,
        KillAction::Ask { server_addr, process_id: 5 } if server_addr == "127.0.0.1:8001"
    ));
}

#[test]
fn kill_looks_for_the_frontend_of_a_query() {
    let key = |ip: &str, id: u64| ProcessKey { frontend_ip: ip.to_string(), id };
    let list = vec![key("a", 1), key("b", 2), key("c", 2)];
    assert_eq!(execute_kill(Some(&list), 2), (Some("c".to_string()), 0));
    assert_eq!(execute_kill(Some(&list), 1), (Some("a".to_string()), 0));
    assert_eq!(execute_kill(Some(&list), 3), (None, 0));
    assert_eq!(execute_kill(None, 1), (None, 0));
}

#[test]
fn frontends_with_dashes_are_told_apart() {
    let mut store = Store::default();
    let mut own = manager("node-1:80");
    let mut other = manager("node-2:80");
    store.register(&mut own, "q1", None);
    store.register(&mut other, "q2", None);
    assert_eq!(store.dump(&own).len(), 1);
    store.deregister_all(&own);
    assert_eq!(store.dump(&own).len(), 0);
    assert_eq!(store.dump(&other)[0].1.query, "q2");
}
