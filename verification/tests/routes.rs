use lib::mqtt_routes::route_entity::RouteEntity;

fn levels(s: &[&str]) -> Vec<String> {
    s.iter().map(|x| x.to_string()).collect()
}

#[test]
fn empty_tree_finds_only_its_own_list() {
    let root = RouteEntity::init_empty();
    let none: Option<Vec<u64>> = None;
    let (hit, cl) = root.deep_find_children("a".to_string(), &none);
    assert!(!hit);
    assert!(cl.is_none());
    let (hit, cl) = root.deep_find_children(String::new(), &none);
    assert!(hit);
    assert!(cl.is_none());
}

#[test]
fn subscribe_then_lookup_delivers() {
    let mut root = RouteEntity::init(Vec::new(), Vec::new(), None);
    root.add_route(levels(&["a", "b"]), 1, &Vec::new());
    let none: Option<Vec<u64>> = None;
    let (hit, cl) = root.deep_find_children("a/b".to_string(), &none);
    assert!(hit);
    assert_eq!(cl, &Some(vec![1]));
    // The inner level exists without subscribers.
    let (hit, cl) = root.deep_find_children("a".to_string(), &none);
    assert!(hit);
    assert!(cl.is_none());
    let (hit, _) = root.deep_find_children("a/c".to_string(), &none);
    assert!(!hit);
}

#[test]
fn resubscribing_drops_closed_connections_and_appends() {
    let mut root = RouteEntity::init_empty();
    root.add_route(levels(&["t"]), 1, &Vec::new());
    root.add_route(levels(&["t"]), 2, &Vec::new());
    root.add_route(levels(&["t"]), 3, &vec![1]);
    let none: Option<Vec<u64>> = None;
    let (hit, cl) = root.deep_find_children("t".to_string(), &none);
    assert!(hit);
    assert_eq!(cl, &Some(vec![2, 3]));
}

#[test]
fn other_topics_keep_their_subscribers() {
    let mut root = RouteEntity::init_empty();
    root.add_route(levels(&["a"]), 1, &Vec::new());
    root.add_route(levels(&["a", "b", "c"]), 2, &Vec::new());
    root.add_route(levels(&["x"]), 3, &Vec::new());
    let none: Option<Vec<u64>> = None;
    assert_eq!(root.deep_find_children("a".to_string(), &none), (true, &Some(vec![1])));
    assert_eq!(root.deep_find_children("a/b/c".to_string(), &none), (true, &Some(vec![2])));
    assert_eq!(root.deep_find_children("x".to_string(), &none), (true, &Some(vec![3])));
    assert_eq!(root.deep_find_children("a/b".to_string(), &none), (true, &None));
}

#[test]
fn an_empty_level_ends_the_lookup() {
    let mut root = RouteEntity::init_empty();
    root.add_route(levels(&["a"]), 1, &Vec::new());
    root.add_route(levels(&["a", "", "b"]), 2, &Vec::new());
    let none: Option<Vec<u64>> = None;
    // "a//b" stops at the empty level and yields the list of "a".
    assert_eq!(root.deep_find_children("a//b".to_string(), &none), (true, &Some(vec![1])));
}

#[test]
fn a_missing_level_returns_the_list_carried_so_far() {
    let mut root = RouteEntity::init_empty();
    root.add_route(levels(&["a"]), 1, &Vec::new());
    let start = Some(vec![9]);
    // The first level is missing: the given list comes back.
    assert_eq!(root.deep_find_children("z".to_string(), &start), (false, &Some(vec![9])));
    // "a" is found, then "q" is missing: the root's list (none) comes back.
    assert_eq!(root.deep_find_children("a/q".to_string(), &start), (false, &None));
}

#[test]
fn find_child_and_push_child() {
    let mut root = RouteEntity::init_empty();
    let child = root.push_child("k".to_string(), RouteEntity::init_empty());
    child.client = Some(vec![5]);
    match root.find_child("k") {
        Some((Some(c), cl)) => {
            assert_eq!(c.client, Some(vec![5]));
            assert!(cl.is_none());
        }
        _ => panic!("child not found"),
    }
    assert!(root.find_child("j").is_none());
    match root.find_child("") {
        Some((None, cl)) => assert!(cl.is_none()),
        _ => panic!("empty name finds the level itself"),
    }
}

#[test]
fn get_client_replaces_the_list() {
    let mut root = RouteEntity::init_empty();
    *root.get_client() = Some(vec![4]);
    let none: Option<Vec<u64>> = None;
    assert_eq!(root.deep_find_children(String::new(), &none), (true, &Some(vec![4])));
}

#[test]
fn list_contains_follows_the_whole_path() {
    let mut root = RouteEntity::init_empty();
    root.add_route(levels(&["a", "b"]), 1, &Vec::new());
    assert!(root.list_contains(&levels(&["a", "b"]), 1));
    assert!(!root.list_contains(&levels(&["a", "b"]), 2));
    assert!(!root.list_contains(&levels(&["a"]), 1));
    assert!(!root.list_contains(&levels(&["b"]), 1));
}

#[test]
fn clone_copies_the_tree() {
    let mut root = RouteEntity::init_empty();
    root.add_route(levels(&["a"]), 1, &Vec::new());
    let copy = root.clone();
    root.add_route(levels(&["a"]), 2, &Vec::new());
    let none: Option<Vec<u64>> = None;
    assert_eq!(copy.deep_find_children("a".to_string(), &none), (true, &Some(vec![1])));
    assert_eq!(root.deep_find_children("a".to_string(), &none), (true, &Some(vec![1, 2])));
}

#[test]
fn names_reach_children_by_position() {
    // A level built with a child that has no name: a new name is added at
    // the position of that child, and the new branch goes after it.
    let mut root = RouteEntity::init(Vec::new(), vec![RouteEntity::init_empty()], None);
    root.add_route(levels(&["a"]), 1, &Vec::new());
    let none: Option<Vec<u64>> = None;
    assert_eq!(root.deep_find_children("a".to_string(), &none), (true, &None));
    assert_eq!(root.children_entity.len(), 2);
    assert_eq!(root.children_entity[1].client, Some(vec![1]));
}

#[test]
fn subscribing_again_adds_no_second_child_of_the_same_name() {
    let mut root = RouteEntity::init_empty();
    root.add_route(levels(&["a", "b"]), 1, &Vec::new());
    root.add_route(levels(&["a", "b"]), 2, &Vec::new());
    root.add_route(levels(&["a", "c"]), 3, &Vec::new());
    assert_eq!(root.children_entity.len(), 1);
    assert_eq!(root.children_entity[0].children_entity.len(), 2);
}

#[test]
fn lookup_misses_children_past_the_signed_16_bit_positions() {
    let count: usize = 65537;
    let mut names = Vec::new();
    let mut kids = Vec::new();
    for k in 0..count {
        names.push(format!("n{}", k));
        let mut kid = RouteEntity::init_empty();
        kid.client = Some(vec![k as u64]);
        kids.push(kid);
    }
    let root = RouteEntity::init(names, kids, None);
    match root.find_child("n32767") {
        Some((Some(c), _)) => assert_eq!(c.client, Some(vec![32767])),
        _ => panic!("position 32767 is found"),
    }
    assert!(root.find_child("n32768").is_none());
    assert!(root.find_child("n65535").is_none());
    match root.find_child("n65536") {
        Some((Some(c), _)) => assert_eq!(c.client, Some(vec![65536])),
        _ => panic!("position 65536 wraps to 0 and is found"),
    }
    let none: Option<Vec<u64>> = None;
    let (hit, cl) = root.deep_find_children("n32767".to_string(), &none);
    assert!(hit);
    assert_eq!(cl, &Some(vec![32767]));
    let (hit, cl) = root.deep_find_children("n40000".to_string(), &none);
    assert!(!hit);
    assert!(cl.is_none());
}
