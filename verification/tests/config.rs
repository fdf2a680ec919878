//! The configuration.

use bunnymeshdb::server::config::{resolve_data_dir, Config};

#[test]
fn defaults() {
    let c = Config::default();
    assert!(c.peers.is_empty());
    assert!(!c.node.name.is_empty());
}

#[test]
fn peers_come_and_go() {
    let mut c = Config::default();
    c.add_peer("a", "/ip4/127.0.0.1/tcp/1").unwrap();
    assert_eq!(c.peer("a").unwrap().pin, "");
    assert_eq!(c.add_peer("a", "/ip4/127.0.0.1/tcp/2"), Err("peer \"a\" already exists".to_string()));
    assert_eq!(c.add_peer("b", "nonsense"), Err("invalid peer addr \"nonsense\"".to_string()));
    assert_eq!(
        c.add_peer_with("b", "/ip4/127.0.0.1/tcp/2", "zz", None),
        Err("invalid peer pin \"zz\"".to_string())
    );
    let pin = "11".repeat(32);
    c.add_peer_with("b", "/ip4/127.0.0.1/tcp/2", &pin, Some(vec!["n".into()])).unwrap();
    assert_eq!(
        c.add_peer_with("c", "/ip4/127.0.0.1/tcp/3", &pin, None),
        Err("pin already belongs to peer \"b\"".to_string())
    );
    assert!(c.remove_peer("a"));
    assert!(!c.remove_peer("a"));
    assert!(c.peer("a").is_none());
    c.peer_mut("b").unwrap().pin = String::new();
    assert_eq!(c.peer("b").unwrap().pin, "");
}

#[test]
fn data_dir_is_relative_to_the_config() {
    assert_eq!(resolve_data_dir(Some("/etc/bmdb"), "data"), "/etc/bmdb/data");
    assert_eq!(resolve_data_dir(Some("/etc/bmdb"), "/var/data"), "/var/data");
    assert_eq!(resolve_data_dir(None, "data"), "data");
}
