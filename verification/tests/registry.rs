use jftermd::registry::{Bind, Registry};
use tokio::sync::mpsc;

#[test]
fn create_then_get_then_remove() {
    let mut reg = Registry::new();
    assert!(reg.is_empty());
    let bind = reg.attach_or_create("s1", 7);
    assert!(matches!(bind, Bind::Created { .. }));
    assert!(!reg.is_empty());
    assert!(reg.get("s1").is_some());
    assert_eq!(reg.handles().len(), 1);
    reg.remove("s1");
    assert!(reg.is_empty());
    assert!(reg.get("s1").is_none());
}

#[test]
fn second_attach_or_create_returns_existing() {
    let mut reg = Registry::default();
    let (keep_tx, _keep_rx) = mpsc::channel::<u8>(256);
    let first = reg.attach_or_create("s1", keep_tx.clone());
    match first {
        Bind::Created => {}
        _ => panic!("expected Created"),
    }
    let (other_tx, _other_rx) = mpsc::channel::<u8>(256);
    let second = reg.attach_or_create("s1", other_tx);
    match second {
        Bind::Existing => assert!(reg.get("s1").unwrap().same_channel(&keep_tx)),
        _ => panic!("expected Existing on second attach"),
    }
}

#[test]
fn removing_one_keeps_the_others() {
    let mut reg = Registry::new();
    for (i, id) in ["a", "b", "c"].iter().enumerate() {
        assert_eq!(reg.attach_or_create(id, i), Bind::Created);
    }
    reg.remove("b");
    reg.remove("nobody");
    assert_eq!(reg.get("a"), Some(&0));
    assert_eq!(reg.get("b"), None);
    assert_eq!(reg.get("c"), Some(&2));
    let mut all: Vec<(String, usize)> = reg.handles().into_iter().map(|(k, v)| (k, *v)).collect();
    all.sort();
    assert_eq!(all, vec![("a".to_string(), 0), ("c".to_string(), 2)]);
    assert_eq!(reg.attach_or_create("b", 9), Bind::Created);
    assert_eq!(reg.get("b"), Some(&9));
}
