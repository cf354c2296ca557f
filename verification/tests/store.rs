use resp_kv::db::NodeAddress;
use resp_kv::db::NodeRole;
use resp_kv::db::DB;

fn text(s: &str) -> String {
    s.to_string()
}

#[test]
fn new_store_is_empty() {
    let mut db = DB::new(NodeRole::Master);
    assert_eq!(db.replid, "8371b4fb1155b71f4a04d3e1bc3e18c4a990aeeb");
    assert_eq!(db.replid.len(), 40);
    assert_eq!(db.repl_offset, 0);
    assert!(matches!(db.role, NodeRole::Master));
    assert!(!db.contains(&text("k")));
    assert_eq!(db.get(&text("k")), None);
}

#[test]
fn new_store_keeps_the_role() {
    let db = DB::new(NodeRole::Slave(NodeAddress { host: text("localhost"), port: 6379 }));
    match &db.role {
        NodeRole::Slave(address) => {
            assert_eq!(address.host, "localhost");
            assert_eq!(address.port, 6379);
        }
        NodeRole::Master => panic!("role was replaced"),
    }
}

#[test]
fn role_names() {
    assert_eq!(NodeRole::Master.to_string(), "master");
    assert_eq!(
        NodeRole::Slave(NodeAddress { host: text("h"), port: 1 }).to_string(),
        "slave"
    );
}

#[test]
fn set_then_get() {
    let mut db = DB::new(NodeRole::Master);
    db.set(text("k"), text("v"), None);
    assert_eq!(db.get(&text("k")), Some(text("v")));
    assert_eq!(db.get(&text("other")), None);
    assert!(db.contains(&text("k")));
}

#[test]
fn store_overwrite() {
    let mut db = DB::new(NodeRole::Master);
    db.set(text("k"), text("a"), None);
    db.set(text("k"), text("b"), None);
    assert_eq!(db.get(&text("k")), Some(text("b")));
    db.del(&text("k"));
    assert_eq!(db.get(&text("k")), None);
    assert!(!db.contains(&text("k")));
}

#[test]
fn overwrite_replaces_the_expiry_too() {
    let mut db = DB::new(NodeRole::Master);
    db.set_at(text("k"), text("a"), Some(10), 0);
    db.set_at(text("k"), text("b"), None, 5);
    assert_eq!(db.get_at(&text("k"), 1_000_000), Some(text("b")));
    db.set_at(text("k"), text("c"), Some(10), 1_000_000);
    assert_eq!(db.get_at(&text("k"), 1_000_009), Some(text("c")));
    assert_eq!(db.get_at(&text("k"), 1_000_010), None);
}

#[test]
fn store_ttl() {
    let mut db = DB::new(NodeRole::Master);
    db.set_at(text("k"), text("v"), Some(10), 100);
    assert_eq!(db.get_at(&text("k"), 100), Some(text("v")));
    assert_eq!(db.get_at(&text("k"), 109), Some(text("v")));
    assert!(db.contains(&text("k")));
    assert_eq!(db.get_at(&text("k"), 111), None);
    assert!(!db.contains(&text("k")));
    assert_eq!(db.get_at(&text("k"), 100), None);
}

#[test]
fn entry_expires_at_its_expiry_time() {
    let mut db = DB::new(NodeRole::Master);
    db.set_at(text("k"), text("v"), Some(10), 100);
    assert_eq!(db.get_at(&text("k"), 110), None);
    assert!(!db.contains(&text("k")));
}

#[test]
fn expiry_is_lazy() {
    let mut db = DB::new(NodeRole::Master);
    db.set_at(text("a"), text("1"), Some(1), 0);
    db.set_at(text("b"), text("2"), Some(1), 0);
    assert_eq!(db.get_at(&text("a"), 50), None);
    assert!(!db.contains(&text("a")));
    assert!(db.contains(&text("b")));
}

#[test]
fn zero_time_to_live_is_dead_at_once() {
    let mut db = DB::new(NodeRole::Master);
    db.set(text("k"), text("v"), Some(0));
    assert!(db.contains(&text("k")));
    assert_eq!(db.get(&text("k")), None);
    assert!(!db.contains(&text("k")));
}

#[test]
fn long_time_to_live_on_the_real_clock() {
    let mut db = DB::new(NodeRole::Master);
    db.set(text("k"), text("v"), Some(3_600_000));
    assert_eq!(db.get(&text("k")), Some(text("v")));
    db.set(text("m"), text("w"), Some(u64::MAX));
    assert_eq!(db.get(&text("m")), Some(text("w")));
}

#[test]
fn explicit_times_leave_the_clock_alone() {
    let mut db = DB::new(NodeRole::Master);
    db.set_at(text("k"), text("v"), Some(5), 1_000_000_000);
    assert_eq!(db.get_at(&text("k"), 1_000_000_004), Some(text("v")));
    assert!(db.now() < 60_000);
    assert_eq!(db.get(&text("k")), Some(text("v")));
}

#[test]
fn largest_times_do_not_overflow() {
    let mut db = DB::new(NodeRole::Master);
    db.set_at(text("k"), text("v"), Some(u64::MAX), u64::MAX);
    assert_eq!(db.get_at(&text("k"), u64::MAX), Some(text("v")));
    db.set_at(text("z"), text("v"), Some(0), u64::MAX);
    assert_eq!(db.get_at(&text("z"), u64::MAX), None);
}

#[test]
fn short_time_to_live_on_the_real_clock() {
    let mut db = DB::new(NodeRole::Master);
    db.set(text("k"), text("v"), Some(10));
    let written_at = db.now();
    while db.now() < written_at + 12 {
        std::hint::spin_loop();
    }
    assert_eq!(db.get(&text("k")), None);
    assert!(!db.contains(&text("k")));
}

#[test]
fn tick_moves_the_clock_on() {
    let mut db = DB::new(NodeRole::Master);
    assert_eq!(db.tick(5), 5);
    assert_eq!(db.tick(5), 5);
    assert_eq!(db.tick(1_000_000), 1_000_000);
}

#[test]
fn tick_never_moves_the_clock_back() {
    let mut db = DB::new(NodeRole::Master);
    assert_eq!(db.tick(1_000_000), 1_000_000);
    assert_eq!(db.tick(3), 1_000_000);
    assert_eq!(db.tick(0), 1_000_000);
    assert_eq!(db.now(), 1_000_000);
}

#[test]
fn tick_cuts_the_reading_down_to_u64() {
    let mut db = DB::new(NodeRole::Master);
    assert_eq!(db.tick(u64::MAX as u128), u64::MAX);
    let mut db = DB::new(NodeRole::Master);
    assert_eq!(db.tick(u64::MAX as u128 + 1), u64::MAX);
    assert_eq!(db.tick(u128::MAX), u64::MAX);
    assert_eq!(db.tick(7), u64::MAX);
}

#[test]
fn tick_leaves_the_entries() {
    let mut db = DB::new(NodeRole::Master);
    db.set_at(text("k"), text("v"), Some(10), 0);
    db.tick(1_000_000);
    assert!(db.contains(&text("k")));
    assert_eq!(db.get(&text("k")), None);
    assert!(!db.contains(&text("k")));
}

#[test]
fn clock_does_not_run_backwards() {
    let mut db = DB::new(NodeRole::Master);
    let mut last = db.now();
    for _ in 0..1000 {
        let now = db.now();
        assert!(last <= now);
        last = now;
    }
    assert!(last < 60_000);
}

#[test]
fn del_removes_only_the_key() {
    let mut db = DB::new(NodeRole::Master);
    db.set(text("a"), text("1"), None);
    db.set(text("b"), text("2"), None);
    db.del(&text("a"));
    db.del(&text("missing"));
    assert_eq!(db.get(&text("a")), None);
    assert_eq!(db.get(&text("b")), Some(text("2")));
}

#[test]
fn keys_are_compared_as_texts() {
    let mut db = DB::new(NodeRole::Master);
    db.set(text("Key"), text("upper"), None);
    db.set(text("key"), text("lower"), None);
    db.set(text(""), text("empty"), None);
    assert_eq!(db.get(&text("Key")), Some(text("upper")));
    assert_eq!(db.get(&text("key")), Some(text("lower")));
    assert_eq!(db.get(&text("")), Some(text("empty")));
}
