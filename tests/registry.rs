use std::collections::HashSet;

use t1_lab_redes::{Registry, NO_NAME};

#[test]
fn assigned_ids_are_distinct_and_bound() {
    let mut reg = Registry::new();
    let mut ids = Vec::new();
    for i in 0..200 {
        let addr = format!("10.0.0.{}:{}", i % 250, 4000 + i);
        let id = reg.assign_id(addr.clone()).unwrap();
        ids.push((id, addr));
    }
    let distinct: HashSet<u16> = ids.iter().map(|(id, _)| *id).collect();
    assert_eq!(distinct.len(), 200);
    for (id, addr) in &ids {
        assert_eq!(reg.resolve_by_id(*id), Some(addr.clone()));
        assert_eq!(reg.resolve_by_address(addr), Some(*id));
    }
}

#[test]
fn known_address_keeps_its_id() {
    let mut reg = Registry::new();
    let a = reg.assign_id("127.0.0.1:5000".to_string()).unwrap();
    let b = reg.assign_id("127.0.0.1:5000".to_string()).unwrap();
    assert_eq!(a, b);
    assert_eq!(reg.registered_ids(), vec![a]);
}

#[test]
fn name_stays_with_first_owner() {
    let mut reg = Registry::new();
    let a = reg.assign_id("a:1".to_string()).unwrap();
    let b = reg.assign_id("b:1".to_string()).unwrap();
    assert!(reg.set_name(a, "X".to_string()));
    assert!(!reg.set_name(b, "X".to_string()));
    assert_eq!(reg.name_of(a), Some("X".to_string()));
    assert_eq!(reg.name_of(b), None);
    // the owner may claim its own name again
    assert!(reg.set_name(a, "X".to_string()));
    assert!(reg.set_name(b, "Y".to_string()));
}

#[test]
fn unregistered_id_gets_no_name() {
    let mut reg = Registry::new();
    let a = reg.assign_id("a:1".to_string()).unwrap();
    let other = a.wrapping_add(1);
    assert!(!reg.set_name(other, "Z".to_string()));
    assert_eq!(reg.name_of(other), None);
}

#[test]
fn remove_releases_id_address_and_name() {
    let mut reg = Registry::new();
    let a = reg.assign_id("a:1".to_string()).unwrap();
    let b = reg.assign_id("b:1".to_string()).unwrap();
    assert!(reg.set_name(a, "Ann".to_string()));
    reg.remove(a);
    assert!(!reg.contains(a));
    assert_eq!(reg.resolve_by_id(a), None);
    assert_eq!(reg.resolve_by_address(&"a:1".to_string()), None);
    assert_eq!(reg.name_of(a), None);
    assert!(reg.set_name(b, "Ann".to_string()));
}

#[test]
fn snapshot_is_sorted_with_placeholder() {
    let mut reg = Registry::new();
    let mut ids = Vec::new();
    for i in 0..10 {
        ids.push(reg.assign_id(format!("h:{}", i)).unwrap());
    }
    assert!(reg.set_name(ids[3], "Cid".to_string()));
    let snap = reg.snapshot();
    let mut sorted = ids.clone();
    sorted.sort();
    assert_eq!(snap.iter().map(|(id, _)| *id).collect::<Vec<_>>(), sorted);
    for (id, name) in &snap {
        if *id == ids[3] {
            assert_eq!(name, "Cid");
        } else {
            assert_eq!(name, NO_NAME);
        }
    }
    assert_eq!(reg.registered_ids(), sorted);
}

#[test]
fn empty_registry() {
    let reg = Registry::new();
    assert!(reg.snapshot().is_empty());
    assert!(reg.registered_ids().is_empty());
    assert_eq!(reg.resolve_by_id(0), None);
}
