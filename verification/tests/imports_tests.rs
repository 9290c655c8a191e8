use dsa_sim::imports::{
    attr_slot, check_import_depth, collect_imports, get_builtin_preset, import_source, merge_graph_definitions,
    preset_id, scan_import_urls, BuiltinPreset, Definitions, ImportDef, ImportError, ImportSource,
    Keyed, PresetLibrary, TypeDef, PRESET_STDLIB_CACHE, PRESET_STDLIB_CIRCUIT_BREAKER, PRESET_STDLIB_LOAD_BALANCER,
};
use dsa_sim::schema::find_node_type;
use serde_yaml::Value;

type YamlDefs = Definitions<Value, Value, Value, Value, Value, Value>;

fn ids(v: &Value, key: &str, id_key: &str) -> Vec<Keyed<Value>> {
    v.get(key)
        .and_then(|l| l.as_sequence())
        .map(|l| {
            l.iter()
                .map(|e| Keyed { id: e.get(id_key).and_then(|i| i.as_str()).unwrap_or_default().to_string(), payload: e.clone() })
                .collect()
        })
        .unwrap_or_default()
}

fn imports_of(v: &Value) -> Vec<ImportDef> {
    v.get("imports")
        .and_then(|l| l.as_sequence())
        .map(|l| {
            l.iter()
                .map(|i| ImportDef {
                    from: i.get("from").and_then(|f| f.as_str()).unwrap_or_default().to_string(),
                    import: i.get("import").and_then(|f| f.as_sequence()).map(|s| {
                        s.iter().filter_map(|x| x.as_str().map(|x| x.to_string())).collect()
                    }),
                    alias: i.get("as").and_then(|a| a.as_str()).map(|a| a.to_string()),
                })
                .collect()
        })
        .unwrap_or_default()
}

/// A graph file's definition, with every import resolved and merged.
fn resolve(text: &str, sources: &Vec<(String, String)>, depth: usize) -> Result<YamlDefs, String> {
    resolve_with(text, &PresetLibrary::builtin(), sources, depth)
}

/// `resolve` against a given preset library.
fn resolve_with(text: &str, library: &PresetLibrary, sources: &Vec<(String, String)>, depth: usize) -> Result<YamlDefs, String> {
    check_import_depth(depth).map_err(|e| e.message())?;
    let file: Value = serde_yaml::from_str(text).map_err(|e| e.to_string())?;
    let empty = Value::Mapping(Default::default());
    let defn = file.get("graph_defn").unwrap_or(&empty);
    let theme = |v: &Value| v.get("theme").and_then(|t| t.as_str()).map(|t| t.to_string());
    let all = collect_imports(theme(&file), theme(defn), imports_of(&file), imports_of(defn));
    let title = defn
        .get("graph_attrs")
        .and_then(|a| a.get("title"))
        .and_then(|t| t.as_str())
        .unwrap_or_default()
        .to_string();
    let mut merged: YamlDefs = Definitions {
        attrs: vec![attr_slot(title, "").map(Value::String)],
        icons: ids(defn, "icons", "id"),
        templates: ids(defn, "node_templates", "id"),
        node_types: ids(defn, "node_types", "id")
            .into_iter()
            .map(|k| TypeDef {
                func: k.payload.get("fn").and_then(|f| f.as_str()).map(|f| f.to_string()),
                id: k.id,
                payload: k.payload,
            })
            .collect(),
        graph: ids(defn, "graph", "name"),
        layout: None,
        groups: vec![],
    };
    for imp in all {
        let text = match import_source(&imp.from, library, sources) {
            Ok(ImportSource::Preset(t)) => t,
            Ok(ImportSource::External(k)) => sources[k].1.clone(),
            Err(e) => return Err(e.message()),
        };
        let imported = resolve_with(&text, library, sources, depth + 1)?;
        merge_graph_definitions(&mut merged, imported, imp.import.as_ref(), imp.alias.as_deref());
    }
    Ok(merged)
}

/// The merged graph title.
fn title_of(d: &YamlDefs) -> String {
    d.attrs[0].as_ref().and_then(|t| t.as_str()).unwrap_or_default().to_string()
}

/// The built-in library, with every preset that lives in its own file
/// holding a small stand-in graph, as if its file had been loaded.
fn library_with_files() -> PresetLibrary {
    let mut lib = PresetLibrary::builtin();
    for p in BuiltinPreset::all() {
        if p.file().is_some() {
            lib.add(p, "graph_defn:\n  node_templates: []\n".to_string());
        }
    }
    lib
}

fn type_ids(d: &YamlDefs) -> Vec<String> {
    d.node_types.iter().map(|t| t.id.clone()).collect()
}

fn node_type_of(d: &YamlDefs, k: usize) -> String {
    d.graph[k].payload.get("node_type").and_then(|t| t.as_str()).unwrap_or_default().to_string()
}

#[test]
fn test_remote_url_scanning_and_resolution() {
    let yaml = r#"
imports:
  - from: "https://example.com/custom_nodes.yml"
graph_defn:
  graph:
    - name: worker
      node_type: remote_worker
      links: []
"#
    .to_string();

    let urls = scan_import_urls(&yaml, &vec!["https://example.com/custom_nodes.yml".to_string()]);
    assert_eq!(urls, vec!["https://example.com/custom_nodes.yml".to_string()]);

    let remote_content = r#"
graph_defn:
  node_types:
    - id: remote_worker
      attrs:
        ticks: 5
      fn: |
        fn on_init() { log("Remote worker ready"); }
"#;
    let sources = vec![("https://example.com/custom_nodes.yml".to_string(), remote_content.to_string())];

    let defs = resolve(&yaml, &sources, 0).expect("Should parse with remote sources");
    assert_eq!(defs.graph.len(), 1);
    let k = find_node_type(&type_ids(&defs), &node_type_of(&defs, 0)).unwrap();
    assert_eq!(defs.node_types[k].id, "remote_worker");
}

#[test]
fn test_builtin_stdlib_load_balancer() {
    let yaml = r#"
imports:
  - from: "stdlib:load_balancer"
graph_defn:
  graph:
    - name: lb
      node_type: round_robin_lb
      links: ["srv1"]
    - name: srv1
      node_type: server
      links: []
  node_types:
    - id: server
      attrs:
        ticks: 1
"#
    .to_string();

    let defs = resolve(&yaml, &vec![], 0).expect("Should parse with stdlib load balancer");
    assert_eq!(defs.graph.len(), 2);
    for k in 0..2 {
        assert!(find_node_type(&type_ids(&defs), &node_type_of(&defs, k)).is_ok());
    }
    assert!(defs.node_types.iter().any(|t| t.id == "round_robin_lb"));
    assert!(defs.node_types.iter().any(|t| t.id == "weighted_lb"));
}

#[test]
fn test_selective_import_and_aliasing() {
    let yaml = r#"
imports:
  - from: "stdlib:load_balancer"
    import: ["round_robin_lb"]
    as: "my_lb"
graph_defn:
  graph:
    - name: lb
      node_type: my_lb
      links: []
"#
    .to_string();

    let defs = resolve(&yaml, &vec![], 0).expect("Should parse with aliased selective import");
    assert!(defs.node_types.iter().any(|t| t.id == "my_lb"));
    assert!(!defs.node_types.iter().any(|t| t.id == "weighted_lb"));
    let k = find_node_type(&type_ids(&defs), &node_type_of(&defs, 0)).unwrap();
    assert_eq!(defs.node_types[k].id, "my_lb");
}

#[test]
fn stdlib_presets_resolve_and_carry_scripts() {
    for preset in ["stdlib:load_balancer", "stdlib:circuit_breaker", "stdlib:cache"] {
        let yaml = format!("imports:\n  - from: \"{}\"\n", preset);
        let defs = resolve(&yaml, &vec![], 0).unwrap_or_else(|e| panic!("Preset '{}' failed to parse: {}", preset, e));
        assert!(!defs.node_types.is_empty());
        assert!(defs.node_types.iter().all(|t| t.func.is_some()));
    }
}

#[test]
fn cyclic_imports_are_refused() {
    let sources = vec![("https://a.example/x.yml".to_string(), "imports:\n  - from: https://a.example/x.yml\n".to_string())];
    let e = resolve("imports:\n  - from: https://a.example/x.yml\n", &sources, 0).unwrap_err();
    assert_eq!(e, "Cyclic or too deeply nested imports");
}



#[test]
fn builtin_preset_names_are_normalized() {
    let lib = PresetLibrary::builtin();
    assert_eq!(get_builtin_preset("stdlib:load_balancer", &lib), Some(PRESET_STDLIB_LOAD_BALANCER.to_string()));
    assert_eq!(get_builtin_preset("  STDLIB:LB \n", &lib), Some(PRESET_STDLIB_LOAD_BALANCER.to_string()));
    assert_eq!(get_builtin_preset("circuit_breaker", &lib), Some(PRESET_STDLIB_CIRCUIT_BREAKER.to_string()));
    assert_eq!(get_builtin_preset("Lru_Cache", &lib), Some(PRESET_STDLIB_CACHE.to_string()));
    assert_eq!(get_builtin_preset("stdlib:nothing", &lib), None);
    assert_eq!(get_builtin_preset("", &lib), None);
}

#[test]
fn preset_ids_cover_every_alias() {
    assert_eq!(preset_id("cyberpunk"), Some(BuiltinPreset::ThemeCyberpunk));
    assert_eq!(preset_id("plibs/themes/cloud.yml"), Some(BuiltinPreset::ThemeCloud));
    assert_eq!(preset_id("rack"), Some(BuiltinPreset::ThemeDatacenter));
    assert_eq!(preset_id("capsule"), Some(BuiltinPreset::ThemeMinimal));
    assert_eq!(preset_id("theme:synthwave"), Some(BuiltinPreset::ThemeSynthwave));
    assert_eq!(preset_id("nord"), Some(BuiltinPreset::ThemeNordic));
    assert_eq!(preset_id("themes:dracula"), Some(BuiltinPreset::ThemeDracula));
    assert_eq!(preset_id("plibs:matrix"), Some(BuiltinPreset::ThemeMatrix));
    assert_eq!(preset_id("solarized"), Some(BuiltinPreset::ThemeSolarizedLight));
    assert_eq!(preset_id("aws:compute"), Some(BuiltinPreset::AwsCompute));
    assert_eq!(preset_id("plibs:aws/networking"), Some(BuiltinPreset::AwsNetworking));
    assert_eq!(preset_id("plibs/aws/database.yml"), Some(BuiltinPreset::AwsDatabase));
    assert_eq!(preset_id("aws:messaging"), Some(BuiltinPreset::AwsMessaging));
    assert_eq!(preset_id("aws"), Some(BuiltinPreset::AwsAll));
    assert_eq!(preset_id("lb"), Some(BuiltinPreset::StdlibLoadBalancer));
    assert_eq!(preset_id("stdlib:circuit_breaker"), Some(BuiltinPreset::StdlibCircuitBreaker));
    assert_eq!(preset_id("stdlib:lru_cache"), Some(BuiltinPreset::StdlibCache));
    // ids are matched after normalization only by `get_builtin_preset`
    assert_eq!(preset_id("Cyberpunk"), None);
    assert_eq!(PresetLibrary::builtin().text(BuiltinPreset::StdlibCache), Some(&PRESET_STDLIB_CACHE.to_string()));
    assert_eq!(BuiltinPreset::StdlibCache.file(), None);
    assert_eq!(BuiltinPreset::ThemeCyberpunk.file(), Some("plibs/themes/cyberpunk.yml"));
    assert_eq!(BuiltinPreset::all().len(), 17);
}

#[test]
fn scan_skips_presets_and_keeps_order() {
    let yaml = "from: 'http://a.example/x.yml'\n- from: stdlib:cache\n  - from: \"https://b.example/y.yml\"\nfrom: http://a.example/x.yml\nnot from: https://c.example\n";
    let urls = scan_import_urls(yaml, &vec!["https://d.example/z.yml".to_string(), "theme:cloud".to_string()]);
    assert_eq!(
        urls,
        vec![
            "http://a.example/x.yml".to_string(),
            "https://b.example/y.yml".to_string(),
            "https://d.example/z.yml".to_string(),
        ]
    );
}

fn keyed(id: &str, p: u32) -> Keyed<u32> {
    Keyed { id: id.to_string(), payload: p }
}

fn ty(id: &str, func: Option<&str>, p: u32) -> TypeDef<u32> {
    TypeDef { id: id.to_string(), func: func.map(|s| s.to_string()), payload: p }
}

fn defs(
    attrs: Vec<Option<u32>>,
    icons: Vec<Keyed<u32>>,
    node_types: Vec<TypeDef<u32>>,
    layout: Option<u32>,
) -> Definitions<u32, u32, u32, u32, u32, u32> {
    Definitions {
        attrs,
        icons,
        templates: vec![],
        node_types,
        graph: vec![],
        layout,
        groups: vec![],
    }
}

#[test]
fn merge_keeps_local_entries_first() {
    let mut base = defs(
        vec![Some(1), None, None],
        vec![keyed("a", 1)],
        vec![ty("round_robin_lb", None, 99), ty("server", Some("fn on_init() {}"), 5)],
        None,
    );
    let imported = defs(
        vec![Some(7), Some(8), None],
        vec![keyed("a", 2), keyed("b", 3), keyed("b", 4)],
        vec![ty("round_robin_lb", Some("fn on_timer() {}"), 1), ty("server", Some("x"), 6), ty("weighted_lb", None, 2)],
        Some(4),
    );
    merge_graph_definitions(&mut base, imported, None, None);
    assert_eq!(base.attrs, vec![Some(1), Some(8), None]);
    assert_eq!(base.layout, Some(4));
    let icons: Vec<(String, u32)> = base.icons.iter().map(|k| (k.id.clone(), k.payload)).collect();
    assert_eq!(icons, vec![("a".to_string(), 1), ("b".to_string(), 3)]);
    let types: Vec<(String, Option<String>, u32)> =
        base.node_types.iter().map(|t| (t.id.clone(), t.func.clone(), t.payload)).collect();
    assert_eq!(
        types,
        vec![
            ("round_robin_lb".to_string(), Some("fn on_timer() {}".to_string()), 99),
            ("server".to_string(), Some("fn on_init() {}".to_string()), 5),
            ("weighted_lb".to_string(), None, 2),
        ]
    );
}

#[test]
fn merge_applies_filter_and_alias() {
    let lb = || defs(vec![], vec![], vec![ty("round_robin_lb", Some("a"), 1), ty("weighted_lb", Some("b"), 2)], None);
    let mut base = defs(vec![], vec![], vec![], None);
    let only = vec!["round_robin_lb".to_string()];
    merge_graph_definitions(&mut base, lb(), Some(&only), Some("my_lb"));
    let ids: Vec<String> = base.node_types.iter().map(|t| t.id.clone()).collect();
    assert_eq!(ids, vec!["my_lb".to_string()]);

    let mut base = defs(vec![], vec![], vec![], None);
    let both = vec!["round_robin_lb".to_string(), "weighted_lb".to_string()];
    merge_graph_definitions(&mut base, lb(), Some(&both), Some("lb"));
    let ids: Vec<String> = base.node_types.iter().map(|t| t.id.clone()).collect();
    assert_eq!(ids, vec!["lb_round_robin_lb".to_string(), "lb_weighted_lb".to_string()]);

    let mut base = defs(vec![], vec![], vec![], None);
    merge_graph_definitions(&mut base, lb(), None, Some("one"));
    let types: Vec<(String, Option<String>)> = base.node_types.iter().map(|t| (t.id.clone(), t.func.clone())).collect();
    assert_eq!(types, vec![("one".to_string(), Some("a".to_string()))]);
}

#[test]
fn merge_fills_blank_script_only() {
    let mut base = defs(vec![], vec![], vec![ty("t", Some("   "), 1)], None);
    merge_graph_definitions(&mut base, defs(vec![], vec![], vec![ty("t", Some("fn f() {}"), 2)], None), None, None);
    assert_eq!(base.node_types[0].func, Some("fn f() {}".to_string()));
    assert_eq!(base.node_types[0].payload, 1);
}

#[test]
fn import_depth_limit() {
    assert!(check_import_depth(0).is_ok());
    assert!(check_import_depth(8).is_ok());
    let e = check_import_depth(9).unwrap_err();
    assert_eq!(e.message(), "Cyclic or too deeply nested imports");
}

#[test]
fn import_sources_in_order_of_precedence() {
    let lib = PresetLibrary::builtin();
    let sources = vec![
        ("https://example.com/a.yml".to_string(), "graph_defn: {}".to_string()),
        ("lb".to_string(), "shadowed".to_string()),
    ];
    match import_source(&"stdlib:lb".to_string(), &lib, &sources) {
        Ok(ImportSource::Preset(t)) => assert_eq!(t, PRESET_STDLIB_LOAD_BALANCER),
        other => panic!("unexpected {:?}", other),
    }
    match import_source(&"https://example.com/a.yml".to_string(), &lib, &sources) {
        Ok(ImportSource::External(k)) => assert_eq!(k, 0),
        other => panic!("unexpected {:?}", other),
    }
    match import_source(&"https://example.com/missing.yml".to_string(), &lib, &sources) {
        Err(e @ ImportError::RemoteNotLoaded(_)) => assert_eq!(
            e.message(),
            "Remote import 'https://example.com/missing.yml' is not yet loaded or failed to fetch"
        ),
        other => panic!("unexpected {:?}", other),
    }
    match import_source(&"stdlib:nope".to_string(), &lib, &sources) {
        Err(e @ ImportError::Unknown(_)) => assert_eq!(e.message(), "Unknown import or preset 'stdlib:nope'"),
        other => panic!("unexpected {:?}", other),
    }
}

#[test]
fn theme_shorthand_comes_first() {
    let imp = |f: &str| ImportDef { from: f.to_string(), import: None, alias: None };
    let all = collect_imports(None, Some("cloud".to_string()), vec![imp("a")], vec![imp("b")]);
    let froms: Vec<String> = all.iter().map(|i| i.from.clone()).collect();
    assert_eq!(froms, vec!["cloud".to_string(), "a".to_string(), "b".to_string()]);
    let all = collect_imports(Some("nordic".to_string()), Some("cloud".to_string()), vec![], vec![]);
    assert_eq!(all.len(), 1);
    assert_eq!(all[0].from, "nordic");
    assert!(collect_imports(None, None, vec![], vec![]).is_empty());
}

#[test]
fn theme_presets_resolve_once_their_file_is_loaded() {
    let theme_text = "graph_defn:\n  node_templates:\n    - id: cyber_hud\n      shapes: []\n    - id: node\n      shapes: []\n";
    let file = "theme: cyberpunk\ngraph_defn:\n  graph:\n    - name: node_a\n      node_type: client\n      links: []\n  node_types:\n    - id: client\n      attrs:\n        ticks: 2\n";
    // without the theme's file the name resolves to a preset with no text
    assert_eq!(get_builtin_preset("  Theme:Cyberpunk ", &PresetLibrary::builtin()), None);
    assert_eq!(resolve(file, &vec![], 0).unwrap_err(), "Unknown import or preset 'cyberpunk'");
    let mut lib = PresetLibrary::builtin();
    lib.add(BuiltinPreset::ThemeCyberpunk, theme_text.to_string());
    assert_eq!(get_builtin_preset("  Theme:Cyberpunk ", &lib), Some(theme_text.to_string()));
    assert_eq!(get_builtin_preset("plibs/themes/cyberpunk.yml", &lib), Some(theme_text.to_string()));
    let defs = resolve_with(file, &lib, &vec![], 0).expect("Should parse with cyberpunk theme");
    assert!(defs.templates.iter().any(|t| t.id == "cyber_hud"));
    assert!(defs.templates.iter().any(|t| t.id == "node"));
    assert_eq!(defs.graph.len(), 1);
    // a later text for the same preset does not replace the first
    lib.add(BuiltinPreset::ThemeCyberpunk, "other".to_string());
    assert_eq!(lib.text(BuiltinPreset::ThemeCyberpunk), Some(&theme_text.to_string()));
}

#[test]
fn test_local_override_precedence() {
    let yaml = "
theme: cyberpunk
graph_defn:
  graph_attrs:
    title: \"My Custom Cyberpunk Graph\"
  node_types:
    - id: round_robin_lb
      attrs:
        ticks: 99
imports:
  - from: \"stdlib:load_balancer\"
";
    let file = resolve_with(yaml, &library_with_files(), &vec![], 0).expect("Should parse with override");
    assert_eq!(title_of(&file), "My Custom Cyberpunk Graph");
    let lb_type = file.node_types.iter().find(|t| t.id == "round_robin_lb").unwrap();
    assert_eq!(lb_type.payload["attrs"]["ticks"], Value::from(99));
    assert!(lb_type.func.is_some(), "Should inherit func from stdlib:load_balancer");
}

#[test]
fn test_all_builtin_presets_validity() {
    let presets = [
        "plibs:themes/cyberpunk",
        "plibs:themes/cloud",
        "plibs:themes/datacenter",
        "plibs:themes/minimal",
        "plibs:themes/synthwave",
        "plibs:themes/nordic",
        "plibs:themes/dracula",
        "plibs:themes/matrix",
        "plibs:themes/solarized_light",
        "theme:cyberpunk",
        "theme:cloud",
        "theme:datacenter",
        "theme:minimal",
        "theme:synthwave",
        "theme:nordic",
        "theme:dracula",
        "theme:matrix",
        "theme:solarized_light",
        "plibs:aws/compute",
        "plibs:aws/networking",
        "plibs:aws/database",
        "plibs:aws/messaging",
        "plibs:aws/all",
        "stdlib:load_balancer",
        "stdlib:circuit_breaker",
        "stdlib:cache",
    ];
    let lib = library_with_files();
    for preset in presets {
        assert!(get_builtin_preset(preset, &lib).is_some(), "Preset '{}' has no text", preset);
        let yaml = format!("imports:\n  - from: \"{}\"\n", preset);
        if let Err(e) = resolve_with(&yaml, &lib, &vec![], 0) {
            panic!("Preset '{}' failed to parse: {}", preset, e);
        }
    }
    for missing in ["", "theme:unknown", "https://example.com/x.yml", "http://example.com/x.yml"] {
        assert_eq!(get_builtin_preset(missing, &lib), None);
    }
}

#[test]
fn attributes_at_their_default_take_the_imported_value() {
    type D = Definitions<String, (), (), (), (), ()>;
    let defs = |attrs: Vec<Option<String>>| -> D {
        Definitions { attrs, icons: vec![], templates: vec![], node_types: vec![], graph: vec![], layout: None, groups: vec![] }
    };
    let mut base = defs(vec![
        attr_slot("#FFFFFF".to_string(), "#FFFFFF"),
        attr_slot("red".to_string(), "#000000"),
        attr_slot("".to_string(), ""),
    ]);
    let imported = defs(vec![
        attr_slot("blue".to_string(), "#FFFFFF"),
        attr_slot("green".to_string(), "#000000"),
        attr_slot("".to_string(), ""),
    ]);
    merge_graph_definitions(&mut base, imported, None, None);
    assert_eq!(base.attrs, vec![Some("blue".to_string()), Some("red".to_string()), None]);
    assert_eq!(attr_slot("#ffffff".to_string(), "#FFFFFF"), Some("#ffffff".to_string()));
}
