use dcone::access_key::AccessKey;
use dcone::focus::{Focus, FocusTree};

fn key(s: &str) -> AccessKey {
    AccessKey::Key(s.to_string())
}

#[test]
fn focus() {
    let (mut t, f) = FocusTree::new();

    let f1_1 = f.focus(&mut t, AccessKey::Index(1));
    let f1_1_a = f1_1.focus(&mut t, key("A"));
    assert_eq!(f1_1.get_access_key(&t), AccessKey::Index(1));
    assert_eq!(f1_1_a.get_access_key(&t), key("A"));

    let f2_1 = f.focus(&mut t, AccessKey::Index(1));
    let f2_1_a = f2_1.focus(&mut t, key("A"));
    let f2_1_b = f2_1.focus(&mut t, key("B"));
    assert!(f1_1_a == f2_1_a);
    assert_eq!(f1_1_a, f2_1_a);
    assert_ne!(f1_1_a, f2_1_b);
}

#[test]
fn ancestors() {
    let (mut t, root) = FocusTree::new();
    let fa = root.focus(&mut t, key("a"));
    let fb = fa.focus(&mut t, key("b"));
    let f = fb.focus(&mut t, key("c"));

    let mut ancestors: Vec<Focus> = Vec::new();
    let mut it = f.ancestors(&t);
    while let Some(h) = it.next(&mut t) {
        ancestors.push(h);
    }

    assert_eq!(ancestors.len(), 4);
    assert_eq!(ancestors[0].get_access_key(&t), key("c"));
    assert_eq!(ancestors[1].get_access_key(&t), key("b"));
    assert_eq!(ancestors[2].get_access_key(&t), key("a"));
    assert_eq!(ancestors[3].get_access_key(&t), AccessKey::Root);

    let rt = f.get_root(&mut t);
    assert!(rt == ancestors[3]);
    let rt2 = f.get_root(&mut t);
    assert!(rt2 == ancestors[3]);

    println!("Root: {:?}", rt);
}

fn assert_turn_to(t: &mut FocusTree, from: &Focus, left_path: &str, right_path: &str) {
    let focus = from.turn_to(t, left_path).ok().unwrap();
    assert_eq!(focus.access_path(t), right_path);
    focus.release(t);
}

fn assert_overfocus_error(t: &mut FocusTree, from: &Focus, left_path: &str) {
    assert!(match from.turn_to(t, left_path) {
        Ok(_) => false,
        Err(err) => match err {
            dcone::path::AccessPathError::OverFocus(_) => true,
            _ => false,
        },
    });
}

#[test]
fn access_path_1() {
    let (mut t, f) = FocusTree::new();

    assert_eq!(f.access_path(&t), "/");

    assert_turn_to(&mut t, &f, "a", "/a");
    assert_turn_to(&mut t, &f, "a/b", "/a/b");
    assert_turn_to(&mut t, &f, "/a/b", "/a/b");
    assert_turn_to(&mut t, &f, "#1#2#3#4", "/#1#2#3#4");
    assert_turn_to(&mut t, &f, "#1#2/#3#4", "/#1#2#3#4");

    assert_turn_to(&mut t, &f, "/a/b/c/../../d", "/a/d");

    assert_overfocus_error(&mut t, &f, "..");
    assert_overfocus_error(&mut t, &f, "../../d");
    assert_overfocus_error(&mut t, &f, "/a/../../d");
}

#[test]
fn access_path_2() {
    let (mut t, f) = FocusTree::new();

    let f2 = f.turn_to(&mut t, "/a1/b2#123/c3").ok().unwrap();

    let f3a = f.turn_to(&mut t, "a1/b2").ok().unwrap();
    let f3b = f3a.turn_to(&mut t, "#123").ok().unwrap();
    let f3 = f3b.turn_to(&mut t, "c3").ok().unwrap();
    f3a.release(&mut t);
    f3b.release(&mut t);

    assert!(f2 == f3);
    assert_eq!(f2, f3);
    assert_eq!(f3.access_path(&t), "/a1/b2#123/c3");

    let ga = f.focus(&mut t, key("a"));
    let gb = ga.focus(&mut t, key("b"));
    let gc = gb.focus(&mut t, key("c"));
    assert_eq!(gc.access_path(&t), "/a/b/c");

    let h1 = f.focus(&mut t, AccessKey::Index(1));
    let h2 = h1.focus(&mut t, AccessKey::Index(2));
    let h3 = h2.focus(&mut t, AccessKey::Index(-3));
    let h4 = h3.focus(&mut t, AccessKey::Index(4));
    assert_eq!(h4.access_path(&t), "/#1#2#-3#4");
}

#[test]
fn foreach_directions() {
    let (mut t, r) = FocusTree::new();

    let mut focuses: Vec<Focus> = Vec::new();
    focuses.push(r.turn_to(&mut t, "/a1/a").ok().unwrap());
    focuses.push(r.turn_to(&mut t, "/a2/a").ok().unwrap());
    focuses.push(r.turn_to(&mut t, "/a3/a").ok().unwrap());
    focuses.push(r.turn_to(&mut t, "/a4/a").ok().unwrap());

    assert_eq!(r.get_direction_keys(&t).len(), 4);

    let directions = r.get_directions(&mut t);
    assert_eq!(directions.len(), 4);

    let mut all: Vec<Focus> = Vec::new();
    for d in directions {
        let inner = d.get_directions(&mut t);
        all.push(d);
        for i in inner {
            all.push(i);
        }
    }
    assert_eq!(all.len(), 8);
}

#[test]
fn auto_drop() {
    let (mut t, r) = FocusTree::new();
    {
        let a = r.focus(&mut t, key("a"));
        let b = r.focus(&mut t, key("b"));
        let c = r.focus(&mut t, key("c"));
        {
            let a1 = a.focus(&mut t, key("a1"));
            assert_eq!(a.get_direction_keys(&t).len(), 1);
            {
                let a2 = a1.focus(&mut t, key("a2"));
                a2.release(&mut t);
                println!("-[1]--------------");
            }

            let b2 = b.focus(&mut t, key("b1"));
            let c3 = c.focus(&mut t, key("c1"));

            assert_eq!(a1.get_direction_keys(&t).len(), 0);
            println!("-[2]--------------");
            a1.release(&mut t);
            b2.release(&mut t);
            c3.release(&mut t);
        }
        assert_eq!(r.get_direction_keys(&t).len(), 3);
        assert_eq!(a.get_direction_keys(&t).len(), 0);
        println!("-[3]--------------");
        a.release(&mut t);
        b.release(&mut t);
        c.release(&mut t);
    }
    assert_eq!(r.get_direction_keys(&t).len(), 0);
}

#[test]
fn turn_to_round_trip() {
    let (mut t, f) = FocusTree::new();
    let g = f.turn_to(&mut t, "a/b#2/c").ok().unwrap();
    let path = g.access_path(&t);
    assert_eq!(path, "/a/b#2/c");
    let h = f.turn_to(&mut t, path.as_str()).ok().unwrap();
    assert!(g == h);
}

#[test]
fn focus_interning() {
    let (mut t, root) = FocusTree::new();
    let a1 = root.focus(&mut t, key("a"));
    let b1 = a1.focus(&mut t, key("b"));
    let a2 = root.focus(&mut t, key("a"));
    let b2 = a2.focus(&mut t, key("b"));
    let c = a2.focus(&mut t, key("c"));
    assert!(b1 == b2);
    assert!(!(b1 == c));
}
