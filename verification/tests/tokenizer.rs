use shortie::tokenizer::{tokenize_content, FuncKind, ShortToken, ShortTokenizer, TokenizerError};

fn tokens(content: &str) -> Vec<ShortToken> {
    ShortTokenizer::new(content).tokenize().unwrap()
}

fn text(t: &ShortToken) -> (usize, usize, String) {
    match t {
        ShortToken::Text { debug, value } => (debug.start, debug.end, value.clone()),
        other => panic!("not text: {:?}", other),
    }
}

fn func(t: &ShortToken) -> (usize, usize, &FuncKind) {
    match t {
        ShortToken::Func { debug, func } => (debug.start, debug.end, func),
        other => panic!("not a call: {:?}", other),
    }
}

fn newline(t: &ShortToken) -> (usize, usize) {
    match t {
        ShortToken::NewLine { debug } => (debug.start, debug.end),
        other => panic!("not a newline: {:?}", other),
    }
}

#[test]
fn plain_text_is_one_token() {
    let ts = tokens("localhost:3000");
    assert_eq!(ts.len(), 1);
    assert_eq!(text(&ts[0]), (0, 14, "localhost:3000".to_string()));
}

#[test]
fn now_with_format() {
    let ts = tokens("{now %H:%M:%S}");
    assert_eq!(ts.len(), 1);
    let (s, e, f) = func(&ts[0]);
    assert_eq!((s, e), (0, 14));
    assert!(matches!(f, FuncKind::Now { format } if format == "%H:%M:%S"));
}

#[test]
fn now_without_format_uses_default() {
    let ts = tokens("{now}");
    assert_eq!(ts.len(), 1);
    let (_, _, f) = func(&ts[0]);
    assert!(matches!(f, FuncKind::Now { format } if format == "%H:%M:%S %d-%m-%Y"));
}

#[test]
fn embed_path() {
    let ts = tokens("{embed ./templates/email_1.txt}");
    assert_eq!(ts.len(), 1);
    let (s, e, f) = func(&ts[0]);
    assert_eq!((s, e), (0, 31));
    assert!(matches!(f, FuncKind::Embed { path } if path == "./templates/email_1.txt"));
}

#[test]
fn two_vars_with_text_between() {
    let ts = tokens("{var start} {var name}");
    assert_eq!(ts.len(), 3);
    let (s, e, f) = func(&ts[0]);
    assert_eq!((s, e), (0, 11));
    assert!(matches!(f, FuncKind::Var { name } if name == "start"));
    assert_eq!(text(&ts[1]), (11, 12, " ".to_string()));
    let (s, e, f) = func(&ts[2]);
    assert_eq!((s, e), (12, 22));
    assert!(matches!(f, FuncKind::Var { name } if name == "name"));
}

#[test]
fn var_name_keeps_inner_spaces() {
    let ts = tokens("{var  a b}x");
    let (_, _, f) = func(&ts[0]);
    assert!(matches!(f, FuncKind::Var { name } if name == " a b"));
}

#[test]
fn var_name_drops_one_trailing_space() {
    let ts = tokens("{var a }x");
    let (_, _, f) = func(&ts[0]);
    assert!(matches!(f, FuncKind::Var { name } if name == "a"));
    let ts = tokens("{var a  }x");
    let (_, _, f) = func(&ts[0]);
    assert!(matches!(f, FuncKind::Var { name } if name == "a "));
}

#[test]
fn call_without_closing_brace_runs_to_end() {
    let ts = tokens("{var abc");
    assert_eq!(ts.len(), 1);
    let (s, e, f) = func(&ts[0]);
    assert_eq!((s, e), (0, 8));
    assert!(matches!(f, FuncKind::Var { name } if name == "abc"));
}

#[test]
fn newline_then_last_character_is_not_read() {
    let ts = tokens("a\nb");
    assert_eq!(ts.len(), 2);
    assert_eq!(text(&ts[0]), (0, 1, "a".to_string()));
    assert_eq!(newline(&ts[1]), (1, 2));
}

#[test]
fn carriage_return_newline() {
    let ts = tokens("ab\r\ncd");
    assert_eq!(ts.len(), 3);
    assert_eq!(text(&ts[0]), (0, 3, "ab\r".to_string()));
    assert_eq!(newline(&ts[1]), (3, 4));
    assert_eq!(text(&ts[2]), (4, 6, "cd".to_string()));

    let ts = tokens("\r\nxy");
    assert_eq!(ts.len(), 2);
    assert_eq!(newline(&ts[0]), (0, 2));
    assert_eq!(text(&ts[1]), (2, 4, "xy".to_string()));
}

#[test]
fn lone_carriage_return_is_skipped() {
    let ts = tokens("\rab");
    assert_eq!(ts.len(), 1);
    assert_eq!(text(&ts[0]), (1, 3, "ab".to_string()));
}

#[test]
fn repeated_open_braces_are_text() {
    let ts = tokens("{{x");
    assert_eq!(ts.len(), 1);
    assert_eq!(text(&ts[0]), (0, 2, "{{".to_string()));
    let ts = tokens("{{{a}");
    assert_eq!(ts.len(), 2);
    assert_eq!(text(&ts[0]), (0, 3, "{{{".to_string()));
    assert_eq!(text(&ts[1]), (3, 5, "a}".to_string()));
}

#[test]
fn missing_variable_name() {
    let err = ShortTokenizer::new("{var}").tokenize().unwrap_err();
    match &err {
        TokenizerError::MissingArgs { func_name, chars, debug, msg } => {
            assert_eq!(func_name, "var");
            assert_eq!(chars.iter().collect::<String>(), "{var}");
            assert_eq!((debug.start, debug.end), (0, 5));
            assert_eq!(msg, &vec!["Missing variable name!".to_string(), "(example: {var first_name})".to_string()]);
        }
        other => panic!("wrong error: {:?}", other),
    }
    assert_eq!(err.message(), "Tokenizer Error: Missing arguments in function: \"var\"");
}

#[test]
fn missing_embed_path() {
    let err = ShortTokenizer::new("x {embed}").tokenize().unwrap_err();
    match &err {
        TokenizerError::MissingArgs { func_name, debug, msg, .. } => {
            assert_eq!(func_name, "embed");
            assert_eq!((debug.start, debug.end), (2, 9));
            assert_eq!(msg[0], "Missing file path!");
            assert_eq!(msg[1], "(example: {embed ./templates/email_1.txt})");
        }
        other => panic!("wrong error: {:?}", other),
    }
}

#[test]
fn unknown_function() {
    let err = ShortTokenizer::new("{foo x}").tokenize().unwrap_err();
    match &err {
        TokenizerError::UnknownFunc { func_name, debug, msg, .. } => {
            assert_eq!(func_name, "foo");
            assert_eq!((debug.start, debug.end), (0, 7));
            assert_eq!(msg, &vec!["Unknown function!".to_string(), "(function: now; embed; var)".to_string()]);
        }
        other => panic!("wrong error: {:?}", other),
    }
    assert_eq!(err.message(), "Tokenizer Error: Unknown function: \"foo\"");
}

#[test]
fn contents_that_cannot_be_tokenized() {
    assert!(tokenize_content("").is_none());
    assert!(tokenize_content("{}x").is_none());
    assert!(tokenize_content("a\n\0b").is_none());
    assert!(tokenize_content("ab").is_some());
}

#[test]
fn render_missing_args_report() {
    let err = ShortTokenizer::new("{var}").tokenize().unwrap_err();
    let pointer = " ".repeat(17);
    let expected = format!(
        "Error in file: \"conf.yaml\"\nshorts:\n  - name: \"x\"\n    content: \"..ar}}..\"\n{p}^ Missing variable name!\n  {p}(example: {{var first_name}})",
        p = pointer
    );
    assert_eq!(err.render_missing_args("conf.yaml", "x"), expected);
}

#[test]
fn render_counts_bytes_of_excerpt() {
    let err = ShortTokenizer::new("héllo wörld {var}").tokenize().unwrap_err();
    // the excerpt starts five characters before the call: "wörld {var}"... from index 7
    let report = err.render_missing_args("f", "n");
    let snippet: String = "héllo wörld {var}".chars().collect::<Vec<_>>()[7..17].iter().collect();
    assert!(report.contains(&format!("..{}..", snippet)));
    let pointer = " ".repeat(14 + snippet.len());
    assert!(report.contains(&format!("\n{}^ Missing variable name!", pointer)));
}

#[test]
fn tokenizer_resumes_from_its_position() {
    let mut t = ShortTokenizer::new("ab");
    let first = t.tokenize().unwrap();
    assert_eq!(first.len(), 1);
    let again = t.tokenize().unwrap();
    assert_eq!(again.len(), 0);
}

fn span(t: &ShortToken) -> (usize, usize) {
    match t {
        ShortToken::Text { debug, .. } | ShortToken::Func { debug, .. } | ShortToken::NewLine { debug } => {
            (debug.start, debug.end)
        }
    }
}

#[test]
fn token_spans_are_ordered_and_non_empty() {
    let content = "Hi {var name},\r\nsee {embed ./a b.txt}\n{{x\r{now %d %m} end";
    let ts = tokens(content);
    let n = content.chars().count();
    let mut last_end = 0;
    for t in &ts {
        let (s, e) = span(t);
        assert!(last_end <= s && s < e && e <= n, "{:?}", ts);
        last_end = e;
    }
    // "Hi ", var, ",\r", newline, "see ", embed, newline, "{{", "x\r", now, " end"
    assert_eq!(ts.len(), 11);
}

#[test]
fn call_arguments_keep_their_spaces() {
    let ts = tokens("{embed ./a b.txt}..");
    let (_, _, f) = func(&ts[0]);
    assert!(matches!(f, FuncKind::Embed { path } if path == "./a b.txt"));
    let ts = tokens("{now %d %m %Y}..");
    let (_, _, f) = func(&ts[0]);
    assert!(matches!(f, FuncKind::Now { format } if format == "%d %m %Y"));
}

#[test]
fn one_character_content_has_no_tokens() {
    assert_eq!(tokens("x").len(), 0);
    assert_eq!(tokens("xy").len(), 1);
}

#[test]
fn every_reported_error_renders() {
    for content in ["{var}", "ab{embed}", "abcdefghij {var}", "{embed }x"] {
        let err = ShortTokenizer::new(content).tokenize().unwrap_err();
        let report = err.render_missing_args("p", "n");
        assert!(report.starts_with("Error in file: \"p\"\nshorts:\n  - name: \"n\"\n"));
    }
}

#[test]
fn end_of_input_is_absorbing() {
    let mut t = ShortTokenizer::new("ab\r\ncd\r");
    let first = t.tokenize().unwrap();
    assert_eq!(first.len(), 3);
    for _ in 0..3 {
        assert_eq!(t.tokenize().unwrap().len(), 0);
    }
}
