use dsa_sim::template::{merge_param_updates, substitute, template_params, ParamMap};

fn map(pairs: &[(&str, &str)]) -> ParamMap {
    let mut m = ParamMap::new();
    for (k, v) in pairs {
        m.set(k.to_string(), v.to_string());
    }
    m
}

#[test]
fn substitute_fills_placeholders() {
    let p = map(&[("name", "db"), ("color", "#fff")]);
    assert_eq!(substitute("{{name}} is {{color}} {{name}}", &p), "db is #fff db");
    assert_eq!(substitute("{{missing}} stays", &p), "{{missing}} stays");
    assert_eq!(substitute("no placeholders", &p), "no placeholders");
}

#[test]
fn template_params_layer_builtins_then_explicit() {
    let explicit = map(&[("status_text", "BOOTING"), ("extra", "1")]);
    let p = template_params("web", &Some("aws_alb".to_string()), &explicit);
    assert_eq!(p.get(&"node_name".to_string()), Some(&"web".to_string()));
    assert_eq!(p.get(&"icon".to_string()), Some(&"aws_alb".to_string()));
    assert_eq!(p.get(&"status_text".to_string()), Some(&"BOOTING".to_string()));
    assert_eq!(p.get(&"accent_color".to_string()), Some(&"#38bdf8".to_string()));
    assert_eq!(p.get(&"extra".to_string()), Some(&"1".to_string()));
    let q = template_params("web", &None, &ParamMap::new());
    assert_eq!(q.get(&"icon".to_string()), None);
    assert_eq!(q.get(&"status_text".to_string()), Some(&"HEALTHY • ACTIVE".to_string()));
    assert_eq!(q.len(), 19);
}

#[test]
fn update_params_merges_and_refuses_without_template() {
    let explicit = map(&[]);
    let mut overrides = map(&[("a", "1")]);
    let err = merge_param_updates("plain", false, &None, &explicit, &mut overrides, &map(&[("status_text", "x")]));
    assert_eq!(err.unwrap_err(), "update_node_params called on 'plain', which has no template_ref/template to update");
    let err = merge_param_updates("n", true, &None, &explicit, &mut overrides, &map(&[]));
    assert_eq!(err.unwrap_err(), "update_node_params called on 'n' with no params");
    assert_eq!(overrides.len(), 1);
    let p = merge_param_updates("n", true, &None, &explicit, &mut overrides, &map(&[("status_text", "BOOTING")])).unwrap();
    assert_eq!(p.get(&"status_text".to_string()), Some(&"BOOTING".to_string()));
    assert_eq!(p.get(&"a".to_string()), Some(&"1".to_string()));
    assert_eq!(overrides.len(), 2);
}

#[test]
fn test_update_node_params_without_template_is_noop() {
    let mut overrides = ParamMap::new();
    let updates = map(&[("status_text", "X")]);
    let err = merge_param_updates("plain", false, &None, &ParamMap::new(), &mut overrides, &updates)
        .expect_err("node with no template should return a warning, not Ok");
    assert!(err.contains("no template_ref/template"));
    assert_eq!(overrides.len(), 0);
}

#[test]
fn test_update_node_params_merges_and_rerenders_template() {
    // the `card` template's text shape reads "{{status_text}}" and the
    // worker's `on_init` calls `update_node_params(#{ status_text: "BOOTING" })`
    let mut overrides = ParamMap::new();
    let params = merge_param_updates("w1", true, &None, &ParamMap::new(), &mut overrides, &map(&[("status_text", "BOOTING")]))
        .expect("a node with a template takes the update");
    assert_eq!(overrides.get(&"status_text".to_string()).map(String::as_str), Some("BOOTING"));
    assert_eq!(substitute("{{status_text}}", &params), "BOOTING");
    assert_eq!(substitute("{{status_color}}", &params), "#1e40af");
}

#[test]
fn text_without_placeholders_is_left_alone() {
    let p = map(&[("a", "x"), ("b", "{{a}}")]);
    assert_eq!(substitute("plain { text } {a}", &p), "plain { text } {a}");
    assert_eq!(substitute("{{a}} and {{b}}", &ParamMap::new()), "{{a}} and {{b}}");
}
