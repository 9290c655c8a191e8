use dsa_sim::graph::parse_graph;

#[test]
fn parse_graph_test() {
    let code = String::from(
        "a: b c d e f
                           b: g
                           g: d",
    );
    let res = parse_graph(&code);
    assert!(res.is_ok());
    let hm = res.ok().unwrap();

    assert!(hm.get("a").unwrap().len() == 5, "{:?}", hm);
    assert!(hm.get("b").unwrap().len() == 2, "{:?}", hm);
    assert!(hm.get("c").unwrap().len() == 1, "{:?}", hm);
    assert!(hm.get("d").unwrap().len() == 2, "{:?}", hm);
    assert!(hm.get("e").unwrap().len() == 1, "{:?}", hm);
    assert!(hm.get("f").unwrap().len() == 1, "{:?}", hm);
    assert!(hm.get("g").unwrap().len() == 2, "{:?}", hm);
}

#[test]
fn parse_graph_test_dup_removal() {
    let code = String::from(
        "a: b b
                           b: a
              ",
    );
    let res = parse_graph(&code);
    assert!(res.is_ok());
    let hm = res.ok().unwrap();

    assert!(hm.get("a").unwrap().len() == 1, "{:?}", hm);
}

#[test]
fn parse_graph_rejects_line_without_one_colon() {
    let code = String::from("a: b\nno colon here\nc: d");
    assert_eq!(parse_graph(&code).err(), Some("ill format line 1".to_string()));
    let code = String::from("a: b: c");
    assert_eq!(parse_graph(&code).err(), Some("ill format line 0".to_string()));
}

#[test]
fn parse_graph_links_are_symmetric() {
    let code = String::from("x: y z\n\n  y: w  ");
    let g = parse_graph(&code).unwrap();
    assert_eq!(g.len(), 4);
    let mut x = g.get("x").unwrap().clone();
    x.sort();
    assert_eq!(x, vec!["y".to_string(), "z".to_string()]);
    assert!(g.get("y").unwrap().contains(&"x".to_string()));
    assert!(g.get("y").unwrap().contains(&"w".to_string()));
    assert_eq!(g.get("z").unwrap(), &vec!["x".to_string()]);
    assert_eq!(g.get("w").unwrap(), &vec!["y".to_string()]);
    assert!(g.get("q").is_none());
}

#[test]
fn parse_graph_self_link_is_not_mirrored() {
    let g = parse_graph(&String::from("a: a b")).unwrap();
    let mut a = g.get("a").unwrap().clone();
    a.sort();
    assert_eq!(a, vec!["a".to_string(), "b".to_string()]);
    assert_eq!(g.get("b").unwrap(), &vec!["a".to_string()]);
}
