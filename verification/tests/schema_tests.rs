use dsa_sim::schema::{
    check_definition, EntryCheck,
    check_node_type, compile_ast, compile_override, find_node_type, own_or_file, own_or_file_list,
    join_template, resolve_ticks_secs, SchemaError, TickTimer, Ticks, TypeCheck,
};

fn s(x: &str) -> String {
    x.to_string()
}

fn check(id: &str, icon: Option<&str>, has_template: bool, tref: Option<&str>, ticks: Ticks) -> TypeCheck {
    TypeCheck { id: s(id), icon: icon.map(s), has_template, template_ref: tref.map(s), ticks }
}

#[test]
fn node_type_checks_and_messages() {
    let icons = vec![s("aws_alb")];
    let templates = vec![s("card"), s("default"), s("card")];
    let e = check_node_type(&check("t", Some("nope"), false, None, Ticks::Fixed(1)), &icons, &templates).unwrap_err();
    assert_eq!(e.message(), "Icon 'nope' referenced by node type 't' not found in icons list");
    let e = check_node_type(&check("t", None, false, Some("gone"), Ticks::Fixed(1)), &icons, &templates).unwrap_err();
    assert_eq!(e.message(), "Template 'gone' referenced by node type 't' not found in node_templates list");
    let e = check_node_type(&check("t", None, false, None, Ticks::Range { min: 5, max: 2, jitter: false }), &icons, &templates)
        .unwrap_err();
    assert_eq!(e.message(), "Invalid ticks range for node type 't': min (5) > max (2)");
    let r = check_node_type(&check("t", Some("aws_alb"), false, Some("card"), Ticks::Fixed(1)), &icons, &templates).unwrap();
    assert_eq!(r.template_ref, Some(s("card")));
    assert_eq!(r.template_index, Some(0));
}

#[test]
fn default_template_applies_without_own_look() {
    let templates = vec![s("card"), s("default")];
    let r = check_node_type(&check("t", None, false, None, Ticks::Fixed(2)), &vec![], &templates).unwrap();
    assert_eq!(r.template_ref, Some(s("default")));
    assert_eq!(r.template_index, Some(1));
    let r = check_node_type(&check("t", None, true, None, Ticks::Fixed(2)), &vec![], &templates).unwrap();
    assert_eq!(r.template_ref, None);
    assert_eq!(r.template_index, None);
    let r = check_node_type(&check("t", None, false, None, Ticks::Fixed(2)), &vec![], &vec![s("card")]).unwrap();
    assert_eq!(r.template_ref, None);
}

#[test]
fn graph_entries_need_known_types() {
    let types = vec![s("server"), s("client"), s("server")];
    assert_eq!(find_node_type(&types, &s("server")).unwrap(), 0);
    assert_eq!(find_node_type(&types, &s("client")).unwrap(), 1);
    let e = find_node_type(&types, &s("router")).unwrap_err();
    assert_eq!(e.message(), "Node type not found for type router");
}

#[test]
fn ticks_resolve_within_range() {
    assert_eq!(resolve_ticks_secs(&Ticks::Fixed(7)), 7);
    for _ in 0..50 {
        let v = resolve_ticks_secs(&Ticks::Range { min: 2, max: 4, jitter: true });
        assert!((2..=4).contains(&v));
    }
    assert_eq!(resolve_ticks_secs(&Ticks::Range { min: 3, max: 3, jitter: false }), 3);
    assert!(Ticks::Range { min: 1, max: 2, jitter: true }.jitters());
    assert!(!Ticks::Range { min: 1, max: 2, jitter: false }.jitters());
    assert!(!Ticks::Fixed(1).jitters());
}

#[test]
fn scripts_compile_or_name_their_owner() {
    let engine = rhai::Engine::new();
    assert!(compile_ast(&engine, &s("t"), &None).unwrap().is_none());
    assert!(compile_ast(&engine, &s("t"), &Some(s("fn on_init() { let x = 1; }"))).unwrap().is_some());
    match compile_ast(&engine, &s("broken"), &Some(s("fn on_init( {"))) {
        Err(e @ SchemaError::Compile { .. }) => {
            assert!(e.message().starts_with("Error compiling function for node type broken with error: "))
        }
        other => panic!("unexpected {:?}", other.is_ok()),
    }
    match compile_override(&engine, &s("w1"), &s("fn on_timer() {")) {
        Err(e @ SchemaError::OverrideCompile { .. }) => {
            assert!(e.message().starts_with("Error compiling per-instance fn override for node 'w1': "))
        }
        other => panic!("unexpected {:?}", other.is_ok()),
    }
}

#[test]
fn file_level_values_fill_in() {
    assert_eq!(own_or_file(Some(1), Some(2)), Some(1));
    assert_eq!(own_or_file(None, Some(2)), Some(2));
    assert_eq!(own_or_file_list(vec![], vec![3]), vec![3]);
    assert_eq!(own_or_file_list(vec![1], vec![3]), vec![1]);
}

#[test]
fn ranged_ticks_reach_the_top() {
    let mut hit_max = false;
    for _ in 0..400 {
        if resolve_ticks_secs(&Ticks::Range { min: 1, max: 2, jitter: false }) == 2 {
            hit_max = true;
        }
    }
    assert!(hit_max);
}

#[test]
fn whole_file_checks_report_the_first_failure() {
    let engine = rhai::Engine::new();
    let types = vec![
        check("server", None, false, None, Ticks::Fixed(1)),
        check("client", Some("laptop"), false, Some("card"), Ticks::Fixed(2)),
    ];
    let funcs = vec![Some(s("fn on_init() {}")), None];
    let icons = vec![s("laptop")];
    let templates = vec![s("card")];
    let entry = |n: &str, t: &str, f: Option<&str>| EntryCheck { name: s(n), node_type: s(t), func: f.map(s) };
    let ok = check_definition(&engine, &types, &funcs, &icons, &templates, &vec![entry("a", "client", None), entry("b", "server", Some("fn on_timer() {}"))])
        .unwrap_or_else(|e| panic!("{}", e.message()));
    assert!(ok.types[0].0.is_some());
    assert!(ok.types[1].0.is_none());
    assert_eq!(ok.types[1].1.template_index, Some(0));
    assert_eq!(ok.entries[0].0, 1);
    assert!(ok.entries[0].1.is_none());
    assert_eq!(ok.entries[1].0, 0);
    assert!(ok.entries[1].1.is_some());
    let e = check_definition(&engine, &types, &funcs, &vec![], &templates, &vec![]).err().unwrap();
    assert_eq!(e.message(), "Icon 'laptop' referenced by node type 'client' not found in icons list");
    let e = check_definition(&engine, &types, &funcs, &icons, &templates, &vec![entry("a", "router", None)]).err().unwrap();
    assert_eq!(e.message(), "Node type not found for type router");
}

#[test]
fn timer_fires_every_interval_and_starts_over() {
    let mut t = TickTimer::new(3);
    let fired: Vec<bool> = (0..7).map(|_| t.tick()).collect();
    assert_eq!(fired, vec![false, false, true, false, false, true, false]);
    assert_eq!(t.elapsed, 1);
    let mut every = TickTimer::new(0);
    assert!(every.tick());
    assert!(every.tick());
    assert_eq!(every.elapsed, 0);
    let mut late = TickTimer { elapsed: 9, interval: 2 };
    assert!(late.tick());
    assert_eq!(late.elapsed, 0);
}

#[test]
fn named_template_shapes_come_before_inline_ones() {
    assert_eq!(join_template(vec![1, 2], Some(vec![3])), vec![1, 2, 3]);
    assert_eq!(join_template(vec![1, 2], None), vec![1, 2]);
    assert_eq!(join_template(Vec::<u8>::new(), Some(vec![7, 8])), vec![7, 8]);
}

#[test]
fn a_script_that_does_not_compile_fails_before_its_types_checks() {
    let engine = rhai::Engine::new();
    let types = vec![
        check("server", Some("missing"), false, None, Ticks::Fixed(1)),
        check("client", Some("missing"), false, None, Ticks::Fixed(1)),
    ];
    let entry = |n: &str, t: &str, f: Option<&str>| EntryCheck { name: s(n), node_type: s(t), func: f.map(s) };
    // the first type's script is checked before its icon
    let funcs = vec![Some(s("fn on_init( {")), None];
    let e = check_definition(&engine, &types, &funcs, &vec![], &vec![], &vec![]).err().unwrap();
    assert!(matches!(e, SchemaError::Compile { ref node_type, .. } if node_type == "server"));
    // a later type's bad script comes after an earlier type's missing icon
    let funcs = vec![None, Some(s("fn on_init( {"))];
    let e = check_definition(&engine, &types, &funcs, &vec![], &vec![], &vec![]).err().unwrap();
    assert!(matches!(e, SchemaError::MissingIcon { ref node_type, .. } if node_type == "server"));
    // entries: the unknown type of an earlier entry before a later entry's bad script
    let icons = vec![s("missing")];
    let funcs = vec![None, None];
    let entries = vec![entry("a", "router", None), entry("b", "server", Some("fn on_init( {"))];
    let e = check_definition(&engine, &types, &funcs, &icons, &vec![], &entries).err().unwrap();
    assert_eq!(e.message(), "Node type not found for type router");
    let entries = vec![entry("b", "server", Some("fn on_init( {")), entry("a", "router", None)];
    let e = check_definition(&engine, &types, &funcs, &icons, &vec![], &entries).err().unwrap();
    assert!(matches!(e, SchemaError::OverrideCompile { ref node, .. } if node == "b"));
    assert!(compile_ast(&engine, &s("t"), &Some(s("fn f() { 1 }"))).unwrap().is_some());
    assert!(compile_override(&engine, &s("n"), &s("fn f( {")).is_err());
}
