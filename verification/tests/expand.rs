use shortie::config::{build_config, Config, ConfigFile, ConfigShort, Var};
use shortie::expand::{resolve_content, resolve_tokens, LocalTime, Piece, ResolveError};

fn var(name: &str, value: &str) -> Var {
    Var { name: name.to_string(), value: value.to_string() }
}

fn config_with(content: &str, short_vars: Vec<Var>, vars: Vec<Var>) -> Config {
    let files = vec![ConfigFile {
        path: "/cfg/config.yaml".to_string(),
        vars: Some(vars),
        prefix: Some(";".to_string()),
        shorts: vec![ConfigShort {
            name: "s".to_string(),
            content: content.to_string(),
            kind: None,
            vars: Some(short_vars),
            enter: None,
        }],
    }];
    build_config(&files).0
}

const EPOCH: LocalTime = LocalTime { secs: 0, nanos: 0, offset_secs: 0 };

fn resolve(config: &Config) -> (Vec<Piece>, Option<ResolveError>) {
    let short = &config.groups[0].shorts[0];
    resolve_tokens(config, short, &short.tokens, &EPOCH, 0)
}

fn texts(pieces: &[Piece]) -> String {
    pieces
        .iter()
        .map(|p| match p {
            Piece::Text(t) => t.clone(),
            other => panic!("unexpected piece {:?}", other),
        })
        .collect()
}

#[test]
fn readme_intro_short() {
    let config = config_with("{var start} {var name}", vec![var("start", "My name is")], vec![var("name", "Max")]);
    let (pieces, failure) = resolve(&config);
    assert!(failure.is_none());
    assert_eq!(texts(&pieces), "My name is Max");
}

#[test]
fn short_variable_wins_over_global_one() {
    let config = config_with("{var name}!!", vec![var("name", "Own")], vec![var("name", "Global")]);
    let (pieces, failure) = resolve(&config);
    assert!(failure.is_none());
    assert_eq!(texts(&pieces), "Own!!");
}

#[test]
fn newline_becomes_text() {
    let config = config_with("a\nbc", vec![], vec![]);
    let (pieces, _) = resolve(&config);
    assert_eq!(texts(&pieces), "a\nbc");
}

#[test]
fn missing_variable_is_marked() {
    let config = config_with("x{var nope}yz", vec![], vec![]);
    let (pieces, failure) = resolve(&config);
    assert!(failure.is_none());
    assert_eq!(pieces.len(), 3);
    assert!(matches!(&pieces[1], Piece::MissingVar(n) if n == "nope"));
}

#[test]
fn now_is_formatted_with_chrono() {
    let config = config_with("{now %Y-%m-%d %H:%M}", vec![], vec![]);
    let (pieces, failure) = resolve(&config);
    assert!(failure.is_none());
    assert_eq!(texts(&pieces), "1970-01-01 00:00");
    let short = &config.groups[0].shorts[0];
    let later = LocalTime { secs: 86_400 + 3_600, nanos: 0, offset_secs: 7_200 };
    let (pieces, _) = resolve_tokens(&config, short, &short.tokens, &later, 0);
    assert_eq!(texts(&pieces), "1970-01-02 03:00");
}

#[test]
fn invalid_time_format_fails() {
    let config = config_with("a {now %Q}", vec![], vec![]);
    let (pieces, failure) = resolve(&config);
    assert_eq!(texts(&pieces), "a ");
    assert!(matches!(failure, Some(ResolveError::TimeFormat(f)) if f == "%Q"));
}

#[test]
fn embed_is_marked_one_level_deeper() {
    let config = config_with("{embed ./t.txt}x", vec![], vec![]);
    let (pieces, failure) = resolve(&config);
    assert!(failure.is_none());
    assert!(matches!(&pieces[0], Piece::Embed { path, depth: 1 } if path == "./t.txt"));
}

#[test]
fn self_referencing_variable_stops_at_depth_limit() {
    let config = config_with("{var a}", vec![], vec![var("a", "x{var a}")]);
    let (pieces, failure) = resolve(&config);
    assert!(failure.is_none());
    assert_eq!(pieces.len(), 10);
    for p in &pieces[..9] {
        assert!(matches!(p, Piece::Text(t) if t == "x"));
    }
    assert!(matches!(pieces[9], Piece::DepthLimit(10)));
}

#[test]
fn variable_that_does_not_tokenize_fails() {
    let config = config_with("{var a}", vec![], vec![var("a", "{foo}")]);
    let (_, failure) = resolve(&config);
    assert!(matches!(failure, Some(ResolveError::Tokenizer(_))));
    let config = config_with("{var a}", vec![], vec![var("a", "")]);
    let (_, failure) = resolve(&config);
    assert!(matches!(failure, Some(ResolveError::Unreadable)));
}

#[test]
fn embedded_content_is_resolved_at_its_depth() {
    let config = config_with("abc", vec![], vec![var("v", "VW"), var("one", "Z")]);
    let short = &config.groups[0].shorts[0];
    let (pieces, failure) = resolve_content(&config, short, "Hi {var v}..", &EPOCH, 1);
    assert!(failure.is_none());
    assert_eq!(texts(&pieces), "Hi VW..");
    // a character that would start a token at the very end is not read
    let (pieces, _) = resolve_content(&config, short, "Hi {var v}.", &EPOCH, 1);
    assert_eq!(texts(&pieces), "Hi VW");
    // nor is the only character of a one-character content
    let (pieces, _) = resolve_content(&config, short, "Hi {var one}..", &EPOCH, 1);
    assert_eq!(texts(&pieces), "Hi ..");
    let (pieces, _) = resolve_content(&config, short, "Hi", &EPOCH, 10);
    assert!(matches!(pieces[0], Piece::DepthLimit(10)));
}

#[test]
fn resolving_concatenated_contents_joins_results() {
    let config = config_with("abc", vec![], vec![var("v", "VW")]);
    let short = &config.groups[0].shorts[0];
    let a = shortie::tokenizer::ShortTokenizer::new("x {var v}..").tokenize().unwrap();
    let b = shortie::tokenizer::ShortTokenizer::new("y\nz!").tokenize().unwrap();
    let (pa, _) = resolve_tokens(&config, short, &a, &EPOCH, 0);
    let (pb, _) = resolve_tokens(&config, short, &b, &EPOCH, 0);
    let mut both = shortie::tokenizer::ShortTokenizer::new("x {var v}..").tokenize().unwrap();
    both.extend(b);
    let (pab, failure) = resolve_tokens(&config, short, &both, &EPOCH, 0);
    assert!(failure.is_none());
    assert_eq!(texts(&pab), texts(&pa) + &texts(&pb));
}
