use dsa_sim::topology::{apply_link_ops, spawned_line, Connection, Instance, SpawnRefusal, SpawnRejection, SpawnRequest, Topology, MAX_NODES};

fn inst(name: &str, links: &[&str], payload: u32) -> Instance<u32> {
    Instance { name: name.to_string(), links: links.iter().map(|s| s.to_string()).collect(), payload }
}

fn conn(name: &str, payload: u32) -> Connection<u32> {
    Connection { name: name.to_string(), payload }
}

fn strings(v: &[&str]) -> Vec<String> {
    v.iter().map(|s| s.to_string()).collect()
}

fn sample() -> Topology<u32, u32> {
    Topology {
        instances: vec![inst("a", &["b", "c"], 1), inst("b", &["a"], 2), inst("c", &["a", "b"], 3)],
        connections: vec![conn("a", 10), conn("b", 20), conn("c", 30)],
        node_types: strings(&["server", "client"]),
    }
}

#[test]
fn link_and_unlink_in_call_order() {
    let mut links = strings(&["a", "b", "a"]);
    let ops = vec![(true, "c".to_string()), (true, "b".to_string()), (false, "a".to_string()), (true, "a".to_string())];
    apply_link_ops(&mut links, &ops);
    assert_eq!(links, strings(&["b", "c", "a"]));
}

#[test]
fn despawn_removes_node_and_links_to_it() {
    let mut t = sample();
    let removed = t.apply_despawns(vec![("a".to_string(), "b".to_string())]);
    assert_eq!(removed, strings(&["b"]));
    let names: Vec<&str> = t.instances.iter().map(|i| i.name.as_str()).collect();
    assert_eq!(names, vec!["a", "c"]);
    assert_eq!(t.instances[0].links, strings(&["c"]));
    assert_eq!(t.instances[1].links, strings(&["a"]));
    assert_eq!(t.instances[1].payload, 3);
    let conns: Vec<&str> = t.connections.iter().map(|c| c.name.as_str()).collect();
    assert_eq!(conns, vec!["a", "c"]);
}

#[test]
fn despawn_of_unknown_node_changes_nothing() {
    let mut t = sample();
    let removed = t.apply_despawns(vec![("a".to_string(), "zzz".to_string())]);
    assert!(removed.is_empty());
    assert_eq!(t.instances.len(), 3);
    assert_eq!(t.instances[0].links, strings(&["b", "c"]));
}

#[test]
fn despawn_keeps_survivors_in_order_without_removed_links() {
    let mut t = sample();
    let removed = t.apply_despawns(vec![
        ("b".to_string(), "zzz".to_string()),
        ("b".to_string(), "a".to_string()),
        ("c".to_string(), "zzz".to_string()),
        ("b".to_string(), "a".to_string()),
    ]);
    assert_eq!(removed, strings(&["a"]));
    let names: Vec<&str> = t.instances.iter().map(|i| i.name.as_str()).collect();
    assert_eq!(names, vec!["b", "c"]);
    assert!(t.instances[0].links.is_empty());
    assert_eq!(t.instances[1].links, strings(&["b"]));
    let conns: Vec<(&str, u32)> = t.connections.iter().map(|c| (c.name.as_str(), c.payload)).collect();
    assert_eq!(conns, vec![("b", 20), ("c", 30)]);
}

#[test]
fn despawn_batch_in_order_and_self() {
    let mut t = sample();
    let removed = t.apply_despawns(vec![
        ("c".to_string(), "c".to_string()),
        ("a".to_string(), "c".to_string()),
        ("a".to_string(), "a".to_string()),
    ]);
    assert_eq!(removed, strings(&["c", "a"]));
    assert_eq!(t.instances.len(), 1);
    assert_eq!(t.instances[0].name, "b");
    assert!(t.instances[0].links.is_empty());
}

#[test]
fn spawn_requests_are_checked_in_order() {
    let t = sample();
    assert_eq!(t.plan_spawn(&"a".to_string(), &"server".to_string(), &vec![]).unwrap_err(), SpawnRejection::NameUnavailable);
    assert_eq!(t.plan_spawn(&"".to_string(), &"server".to_string(), &vec![]).unwrap_err(), SpawnRejection::NameUnavailable);
    assert_eq!(t.plan_spawn(&"d".to_string(), &"router".to_string(), &vec![]).unwrap_err(), SpawnRejection::UnknownNodeType);
    let links = t.plan_spawn(&"d".to_string(), &"client".to_string(), &strings(&["x", "c", "a", "y"])).unwrap();
    assert_eq!(links, strings(&["c", "a"]));
}

#[test]
fn spawn_stops_at_node_cap() {
    let mut t: Topology<u32, u32> = Topology { instances: vec![], connections: vec![], node_types: strings(&["n"]) };
    for k in 0..MAX_NODES {
        let name = format!("n{}", k);
        let links = t.plan_spawn(&name, &"n".to_string(), &vec!["n0".to_string()]).unwrap();
        t.commit_spawn(Instance { name: name.clone(), links, payload: k as u32 }, Connection { name, payload: 0 });
    }
    assert_eq!(t.instances.len(), MAX_NODES);
    assert!(t.instances[0].links.is_empty());
    assert_eq!(t.instances[1].links, strings(&["n0"]));
    assert_eq!(t.plan_spawn(&"late".to_string(), &"n".to_string(), &vec![]).unwrap_err(), SpawnRejection::NodeCapReached);
    assert!(t.has_instance_named(&"n199".to_string()));
    assert!(!t.has_instance_named(&"late".to_string()));
}

#[test]
fn spawn_decision_checks_the_request_then_its_script() {
    let engine = rhai::Engine::new();
    let t = sample();
    let (links, ast) = t
        .decide_spawn(&engine, &"d".to_string(), &"client".to_string(), &strings(&["a", "zz"]), &None)
        .unwrap();
    assert_eq!(links, strings(&["a"]));
    assert!(ast.is_none());
    let ok = t.decide_spawn(&engine, &"d".to_string(), &"client".to_string(), &vec![], &Some("fn on_init() { 1 }".to_string()));
    assert!(ok.unwrap().1.is_some());
    let bad = t.decide_spawn(&engine, &"d".to_string(), &"client".to_string(), &vec![], &Some("fn on_init( {".to_string()));
    let why = bad.unwrap_err();
    assert!(matches!(why, SpawnRefusal::BadOverride(_)));
    assert!(why.line(&"a".to_string(), &"d".to_string(), &"client".to_string()).starts_with("a tried to spawn d with an invalid fn override: "));
    let taken = t.decide_spawn(&engine, &"a".to_string(), &"client".to_string(), &vec![], &Some("fn on_init( {".to_string()));
    let why = taken.unwrap_err();
    assert!(matches!(why, SpawnRefusal::Rejected(SpawnRejection::NameUnavailable)));
    assert_eq!(why.line(&"b".to_string(), &"a".to_string(), &"client".to_string()), "b tried to spawn a but that name is empty or already in use");
    assert_eq!(
        SpawnRefusal::Rejected(SpawnRejection::NodeCapReached).line(&"b".to_string(), &"x".to_string(), &"client".to_string()),
        "b tried to spawn x but the node cap (200) is reached"
    );
    assert_eq!(
        SpawnRefusal::Rejected(SpawnRejection::UnknownNodeType).line(&"b".to_string(), &"x".to_string(), &"router".to_string()),
        "b tried to spawn x with unknown node type router"
    );
    assert_eq!(spawned_line(&"b".to_string(), &"x".to_string()), "b spawned x");
}

#[test]
fn a_batch_of_spawns_is_decided_in_order() {
    let engine = rhai::Engine::new();
    let t = sample();
    let req = |n: &str, ty: &str, links: &[&str], f: Option<&str>| SpawnRequest {
        name: n.to_string(),
        type_id: ty.to_string(),
        links: strings(links),
        func: f.map(|f| f.to_string()),
    };
    let reqs = vec![
        req("d", "client", &["a", "e"], None),
        req("d", "client", &[], None),
        req("e", "server", &["d", "a"], None),
        req("f", "router", &[], None),
        req("g", "server", &[], Some("fn on_init( {")),
    ];
    let out = t.decide_spawns(&engine, &reqs);
    assert_eq!(out.len(), 5);
    assert_eq!(out[0].as_ref().unwrap().0, strings(&["a"]));
    assert!(matches!(out[1], Err(SpawnRefusal::Rejected(SpawnRejection::NameUnavailable))));
    // a node granted earlier in the batch can be linked to
    assert_eq!(out[2].as_ref().unwrap().0, strings(&["d", "a"]));
    assert!(matches!(out[3], Err(SpawnRefusal::Rejected(SpawnRejection::UnknownNodeType))));
    assert!(matches!(out[4], Err(SpawnRefusal::BadOverride(_))));
    // the topology itself is left alone
    assert_eq!(t.instances.len(), 3);
}
