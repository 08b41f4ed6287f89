use dcone::access_key::AccessKey;
use dcone::domain::Domain;
use dcone::error::Error;
use dcone::log::NodeEvent;
use dcone::node::{ListValue, NodeValue};

fn key(s: &str) -> AccessKey {
    AccessKey::Key(s.to_string())
}

#[test]
fn domain_gen() -> Result<(), Error> {
    let mut domain = Domain::new();
    let s = domain.root();
    let s = s.set_empty_map(&mut domain)?;
    let s = s.set_map_item(&mut domain, key("a"))?;
    let s = s.focus(&mut domain, key("a"))?;
    let s = s.set_map_item(&mut domain, key("b"))?;
    let s = s.focus(&mut domain, key("b"))?;
    let s = s.set_map_item(&mut domain, key("c"))?;
    let s = s.focus(&mut domain, key("c"))?;
    let s = s.set_item(&mut domain, key("x"), NodeValue::Integer(10))?;
    let s = s.set_item(&mut domain, key("y"), NodeValue::Integer(20))?;
    s.release(&mut domain);

    println!("xxx root node {:?}", domain.get_root_id());

    let sx = domain.navigate("/a/b/c/x")?;
    assert_eq!(sx.to_i64(&domain), 10);
    sx.release(&mut domain);
    let sy = domain.navigate("/a/b/c/y")?;
    assert_eq!(sy.to_i64(&domain), 20);
    sy.release(&mut domain);

    Ok(())
}

#[test]
fn list_building() -> Result<(), Error> {
    let mut domain = Domain::new();
    let s = domain.root();
    let s = s.set_empty_list(&mut domain)?;
    let s = s.push_item(&mut domain, NodeValue::Integer(10))?;
    let s = s.push_map_item(&mut domain)?;
    let s = s.push_list_item(&mut domain)?;

    assert_eq!(s.len(&domain)?, 3);
    let first = s.focus(&mut domain, AccessKey::Index(0))?;
    assert!(first.is_integer(&domain));
    assert_eq!(first.to_i64(&domain), 10);
    first.release(&mut domain);

    Ok(())
}

#[test]
fn removal() -> Result<(), Error> {
    let mut domain = Domain::new();
    let s = domain.root();
    let s = s.set_empty_map(&mut domain)?;
    let s = s.set_item(&mut domain, key("k"), NodeValue::Integer(5))?;
    let s = s.set_item(&mut domain, key("l"), NodeValue::Integer(6))?;
    assert_eq!(s.len(&domain)?, 2);

    // removing an absent key is NoSuchItem and leaves the map alone
    let s = match s.remove(&mut domain, key("z")) {
        Ok(_) => panic!("removing an absent key must fail"),
        Err(Error::NoSuchItem { .. }) => domain.navigate("/")?,
        Err(_) => panic!("wrong error kind"),
    };
    assert_eq!(s.len(&domain)?, 2);

    // removing a present key shrinks the map by exactly one
    let s = s.remove(&mut domain, key("k"))?;
    assert_eq!(s.len(&domain)?, 1);
    s.release(&mut domain);

    // the removed value is retrievable from the deletion event payload
    let mut removed: Option<usize> = None;
    for ev in domain.logger.events().iter() {
        if let NodeEvent::ValueDeleted { value, .. } = ev {
            removed = Some(*value);
        }
    }
    let removed = removed.expect("a deletion event was recorded");
    match domain.node_value(removed) {
        Some(NodeValue::Integer(v)) => assert_eq!(*v, 5),
        _ => panic!("the deleted payload should be the old integer"),
    }

    Ok(())
}

#[test]
fn negative_indexing() {
    // a standalone list value: ids are plain numbers here
    let l0 = ListValue::new();
    let l1 = l0.push(10);
    let l2 = l1.push(20);
    let l3 = l2.push(30);
    let n: isize = 3;
    assert_eq!(l3.get_item(-1), l3.get_item(n - 1));
    assert_eq!(l3.get_item(-n), l3.get_item(0));
    assert_eq!(l3.get_item(-1), Some(30));
    assert_eq!(l3.get_item(-3), Some(10));
    assert_eq!(l3.get_item(3), None);
    assert_eq!(l3.get_item(-4), None);
}

#[test]
fn structural_sharing() -> Result<(), Error> {
    let mut domain = Domain::new();
    let s = domain.root();
    let s = s.set_empty_map(&mut domain)?;
    let s = s.set_map_item(&mut domain, key("left"))?;
    let s = s.set_map_item(&mut domain, key("right"))?;
    let sl = s.focus(&mut domain, key("left"))?;
    let sl = sl.set_item(&mut domain, key("x"), NodeValue::Integer(1))?;
    sl.release(&mut domain);

    // identity of the untouched branch before an edit elsewhere
    let before = domain.navigate("/right")?;
    let right_before = before.node;
    before.release(&mut domain);

    let sl2 = domain.navigate("/left")?;
    let sl2 = sl2.set_item(&mut domain, key("y"), NodeValue::Integer(2))?;
    sl2.release(&mut domain);

    // every node off the edited path keeps its identity; the edited one is new
    let after = domain.navigate("/right")?;
    assert_eq!(after.node, right_before);
    after.release(&mut domain);
    let left_after = domain.navigate("/left")?;
    assert!(left_after.node != right_before);
    left_after.release(&mut domain);

    Ok(())
}

#[test]
fn value_accessors() -> Result<(), Error> {
    let mut domain = Domain::new();
    let s = domain.root();
    assert!(s.is_none(&domain));
    let s = s.set_empty_map(&mut domain)?;
    let s = s.set_item(&mut domain, key("b"), NodeValue::Bool(true))?;
    let s = s.set_item(&mut domain, key("t"), NodeValue::Text("hi".to_string()))?;
    let s = s.set_item(&mut domain, key("f"), NodeValue::Float((1.5f64).to_bits()))?;
    s.release(&mut domain);

    let b = domain.navigate("/b")?;
    assert!(b.to_bool(&domain));
    b.release(&mut domain);
    let t = domain.navigate("/t")?;
    assert_eq!(t.to_string(&domain), "hi");
    t.release(&mut domain);
    let f = domain.navigate("/f")?;
    assert_eq!(f64::from_bits(f.to_f64_bits(&domain)), 1.5f64);
    f.release(&mut domain);

    // len on a scalar is CollectionRequired
    let b2 = domain.navigate("/b")?;
    assert!(matches!(b2.len(&domain), Err(Error::CollectionRequired { .. })));
    b2.release(&mut domain);

    Ok(())
}

#[test]
fn insert_and_errors() -> Result<(), Error> {
    let mut domain = Domain::new();
    let s = domain.root();
    let s = s.set_empty_list(&mut domain)?;
    let s = s.push_item(&mut domain, NodeValue::Integer(1))?;
    let s = s.push_item(&mut domain, NodeValue::Integer(3))?;
    let s = s.insert_item(&mut domain, AccessKey::Index(1), NodeValue::Integer(2))?;
    assert_eq!(s.len(&domain)?, 3);
    s.release(&mut domain);
    let mid = domain.navigate("/#1")?;
    assert_eq!(mid.to_i64(&domain), 2);
    mid.release(&mut domain);

    // indexing into a map is WrongItemAccess
    let mut d2 = Domain::new();
    let m = d2.root().set_empty_map(&mut d2)?;
    match m.focus(&mut d2, AccessKey::Index(0)) {
        Err(Error::WrongItemAccess { .. }) => {},
        _ => panic!("index into a map must be WrongItemAccess"),
    }

    // a list set_item out of range is NoSuchItem
    let mut d3 = Domain::new();
    let l = d3.root().set_empty_list(&mut d3)?;
    match l.set_item(&mut d3, AccessKey::Index(5), NodeValue::Integer(9)) {
        Err(Error::NoSuchItem { .. }) => {},
        _ => panic!("out-of-range list write must be NoSuchItem"),
    }

    // pushing onto a scalar is the must-be-a-list error
    let mut d4 = Domain::new();
    let v = d4.root().set_value(&mut d4, NodeValue::Integer(7))?;
    match v.push_item(&mut d4, NodeValue::Integer(8)) {
        Err(Error::WrongItemAccess { .. }) => {},
        _ => panic!("push onto a scalar must be WrongItemAccess"),
    }

    Ok(())
}

#[test]
fn log_events_recorded() -> Result<(), Error> {
    let mut domain = Domain::new();
    let s = domain.root();
    let s = s.set_empty_map(&mut domain)?;
    let s = s.set_item(&mut domain, key("x"), NodeValue::Integer(1))?;
    s.release(&mut domain);

    let events = domain.logger.events();
    assert!(events.len() >= 2);
    assert!(matches!(events[0], NodeEvent::RootUpdated { .. }));
    let mut saw_created = false;
    let mut saw_internal_root = false;
    for ev in events.iter() {
        if let NodeEvent::ValueCreated { .. } = ev {
            saw_created = true;
        }
        if let NodeEvent::InternalRootUpdated { .. } = ev {
            saw_internal_root = true;
        }
    }
    assert!(saw_created);
    assert!(saw_internal_root);
    Ok(())
}

#[test]
fn container_creation_errors() -> Result<(), Error> {
    // creating a child container under a scalar is WrongItemAccess
    let mut d = Domain::new();
    let v = d.root().set_value(&mut d, NodeValue::Integer(1))?;
    match v.set_map_item(&mut d, key("a")) {
        Err(Error::WrongItemAccess { .. }) => {},
        _ => panic!("map-item under a scalar must be WrongItemAccess"),
    }

    // creating a list child at an out-of-range index is NoSuchItem
    let mut d2 = Domain::new();
    let l = d2.root().set_empty_list(&mut d2)?;
    match l.set_list_item(&mut d2, AccessKey::Index(3)) {
        Err(Error::NoSuchItem { .. }) => {},
        _ => panic!("out-of-range list slot must be NoSuchItem"),
    }

    // an out-of-range insert leaves the domain's history untouched
    let mut d3 = Domain::new();
    let l3 = d3.root().set_empty_list(&mut d3)?;
    let before = d3.logger.events().len();
    match l3.insert_item(&mut d3, AccessKey::Index(7), NodeValue::Integer(1)) {
        Err(Error::NoSuchItem { .. }) => {},
        _ => panic!("out-of-range insert must be NoSuchItem"),
    }
    assert_eq!(d3.logger.events().len(), before);

    Ok(())
}

#[test]
fn pre_built_node_write() -> Result<(), Error> {
    // a pre-built container node may be written as a child, as long as it
    // references nodes already in the store
    let mut d = Domain::new();
    let s = d.root().set_empty_map(&mut d)?;
    let s = s.set_item(&mut d, key("n"), NodeValue::Integer(7))?;
    s.release(&mut d);
    let inner_spot = d.navigate("/n")?;
    let inner = inner_spot.node;
    inner_spot.release(&mut d);
    let lv = ListValue::new().push(inner);
    let s2 = d.navigate("/")?;
    let s2 = s2.set_item(&mut d, key("wrap"), NodeValue::List(lv))?;
    s2.release(&mut d);
    let got = d.navigate("/wrap#0")?;
    assert_eq!(got.to_i64(&d), 7);
    got.release(&mut d);
    Ok(())
}
