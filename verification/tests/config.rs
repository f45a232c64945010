use shortie::config::{build_config, config_ready, ConfigFile, ConfigShort, ShortKind, Var};
use shortie::tokenizer::ShortToken;

fn var(name: &str, value: &str) -> Var {
    Var { name: name.to_string(), value: value.to_string() }
}

fn short(name: &str, content: &str) -> ConfigShort {
    ConfigShort { name: name.to_string(), content: content.to_string(), kind: None, vars: None, enter: None }
}

fn readme_file() -> ConfigFile {
    ConfigFile {
        path: "/home/u/.config/shortie/config.yaml".to_string(),
        vars: Some(vec![var("name", "Max")]),
        prefix: Some(";".to_string()),
        shorts: vec![
            short("l3", "localhost:3000"),
            short("l4", "localhost:4321"),
            short("time", "{now %H:%M:%S}"),
            ConfigShort {
                name: "intro".to_string(),
                content: "{var start} {var name}".to_string(),
                kind: Some(ShortKind::File),
                vars: Some(vec![var("start", "My name is")]),
                enter: Some(true),
            },
        ],
    }
}

#[test]
fn readme_config_groups_under_prefix() {
    let files = vec![readme_file()];
    assert!(config_ready(&files));
    let (config, reports) = build_config(&files);
    assert!(reports.is_empty());
    assert_eq!(config.groups.len(), 1);
    let group = &config.groups[0];
    assert_eq!(group.prefix, ";");
    let names: Vec<&str> = group.shorts.iter().map(|s| s.name.as_str()).collect();
    assert_eq!(names, vec![";l3", ";l4", ";time", ";intro"]);
    assert_eq!(config.max_len, 6);
    assert_eq!(config.conf_paths, vec!["/home/u/.config/shortie/config.yaml".to_string()]);
    assert_eq!(config.vars.len(), 1);
    assert_eq!(config.vars[0].name, "name");
    let intro = &group.shorts[3];
    assert_eq!(intro.kind, ShortKind::File);
    assert!(intro.enter);
    assert_eq!(intro.path_idx, 0);
    assert_eq!(intro.vars.len(), 1);
    assert_eq!(intro.tokens.len(), 3);
    assert_eq!(group.shorts[0].kind, ShortKind::Text);
    assert!(!group.shorts[0].enter);
    match &group.shorts[0].tokens[0] {
        ShortToken::Text { value, .. } => assert_eq!(value, "localhost:3000"),
        other => panic!("unexpected token {:?}", other),
    }
}

#[test]
fn without_prefix_groups_by_first_character() {
    let files = vec![ConfigFile {
        path: "a.yaml".to_string(),
        vars: None,
        prefix: None,
        shorts: vec![short("l3", "abc"), short("x1", "def"), short("l4", "ghi")],
    }];
    let (config, reports) = build_config(&files);
    assert!(reports.is_empty());
    assert_eq!(config.groups.len(), 2);
    let l = config.groups.iter().find(|g| g.prefix == "l").unwrap();
    let names: Vec<&str> = l.shorts.iter().map(|s| s.name.as_str()).collect();
    assert_eq!(names, vec!["l3", "l4"]);
    let x = config.groups.iter().find(|g| g.prefix == "x").unwrap();
    assert_eq!(x.shorts.len(), 1);
    assert_eq!(config.max_len, 2);
}

#[test]
fn later_variables_replace_earlier_ones() {
    let files = vec![
        ConfigFile {
            path: "a.yaml".to_string(),
            vars: Some(vec![var("a", "1"), var("b", "2"), var("a", "3")]),
            prefix: Some(";".to_string()),
            shorts: vec![],
        },
        ConfigFile {
            path: "b.yaml".to_string(),
            vars: Some(vec![var("b", "4")]),
            prefix: Some(";".to_string()),
            shorts: vec![short("x", "yz")],
        },
    ];
    let (config, _) = build_config(&files);
    let mut vars: Vec<(String, String)> =
        config.vars.iter().map(|v| (v.name.clone(), v.value.clone())).collect();
    vars.sort();
    assert_eq!(vars, vec![("a".to_string(), "3".to_string()), ("b".to_string(), "4".to_string())]);
    assert_eq!(config.conf_paths, vec!["a.yaml".to_string(), "b.yaml".to_string()]);
    assert_eq!(config.groups[0].shorts[0].path_idx, 1);
}

#[test]
fn shorts_of_several_files_share_a_group() {
    let mk = |path: &str, name: &str| ConfigFile {
        path: path.to_string(),
        vars: None,
        prefix: Some("!".to_string()),
        shorts: vec![short(name, "text")],
    };
    let (config, _) = build_config(&vec![mk("a.yaml", "one"), mk("b.yaml", "three")]);
    assert_eq!(config.groups.len(), 1);
    assert_eq!(config.groups[0].shorts.len(), 2);
    assert_eq!(config.groups[0].shorts[1].name, "!three");
    assert_eq!(config.max_len, 6);
}

#[test]
fn shorts_that_do_not_tokenize_are_reported() {
    let files = vec![ConfigFile {
        path: "c.yaml".to_string(),
        vars: None,
        prefix: Some(";".to_string()),
        shorts: vec![short("bad", "{var}"), short("worse", "{foo x}"), short("ok", "fine")],
    }];
    let (config, reports) = build_config(&files);
    assert_eq!(reports.len(), 2);
    let pointer = " ".repeat(17);
    assert_eq!(
        reports[0],
        format!(
            "Error in file: \"c.yaml\"\nshorts:\n  - name: \"bad\"\n    content: \"..ar}}..\"\n{p}^ Missing variable name!\n  {p}(example: {{var first_name}})",
            p = pointer
        )
    );
    assert_eq!(reports[1], "Tokenizer Error: Unknown function: \"foo\"");
    assert_eq!(config.groups[0].shorts.len(), 1);
    assert_eq!(config.groups[0].shorts[0].name, ";ok");
    // the name length counts for shorts left out too
    assert_eq!(config.max_len, 6);
}

#[test]
fn max_len_counts_bytes() {
    let files = vec![ConfigFile {
        path: "d.yaml".to_string(),
        vars: None,
        prefix: Some(";".to_string()),
        shorts: vec![short("é", "abc")],
    }];
    let (config, _) = build_config(&files);
    assert_eq!(config.max_len, 3);
}

#[test]
fn configs_that_cannot_be_taken_in() {
    let empty_content = vec![ConfigFile {
        path: "e.yaml".to_string(),
        vars: None,
        prefix: Some(";".to_string()),
        shorts: vec![short("x", "")],
    }];
    assert!(!config_ready(&empty_content));
    let wide_first_char = vec![ConfigFile {
        path: "e.yaml".to_string(),
        vars: None,
        prefix: None,
        shorts: vec![short("éa", "abc")],
    }];
    assert!(!config_ready(&wide_first_char));
    let empty_name = vec![ConfigFile {
        path: "e.yaml".to_string(),
        vars: None,
        prefix: None,
        shorts: vec![short("", "abc")],
    }];
    assert!(!config_ready(&empty_name));
    let fine = vec![ConfigFile {
        path: "e.yaml".to_string(),
        vars: None,
        prefix: Some("é".to_string()),
        shorts: vec![short("", "abc")],
    }];
    assert!(config_ready(&fine));
}
