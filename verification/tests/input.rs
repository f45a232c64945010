use shortie::config::{build_config, Config, ConfigFile, ConfigShort};
use shortie::input::{InputState, KeyAction, KeyInput};

fn short(name: &str) -> ConfigShort {
    ConfigShort { name: name.to_string(), content: "text".to_string(), kind: None, vars: None, enter: None }
}

fn config(prefix: Option<&str>, names: &[&str]) -> Config {
    build_config(&vec![ConfigFile {
        path: "c.yaml".to_string(),
        vars: None,
        prefix: prefix.map(|p| p.to_string()),
        shorts: names.iter().map(|n| short(n)).collect(),
    }])
    .0
}

fn typed(state: &mut InputState, config: &Config, text: &str) -> Vec<KeyAction> {
    text.chars().map(|c| state.handle_key(config, KeyInput::Other(c.to_string()))).collect()
}

#[test]
fn typing_a_short_expands_it() {
    let config = config(Some(";"), &["l3", "l4", "l5"]);
    let mut state = InputState::new();
    let actions = typed(&mut state, &config, ";l4");
    assert_eq!(actions[0], KeyAction::Nothing);
    assert_eq!(actions[1], KeyAction::Nothing);
    assert_eq!(actions[2], KeyAction::Expand { group: 0, short: 1, backspaces: 3 });
}

#[test]
fn typing_after_other_text_still_expands() {
    let config = config(Some(";"), &["l3"]);
    let mut state = InputState::new();
    let actions = typed(&mut state, &config, "hello;l3");
    assert_eq!(actions[7], KeyAction::Expand { group: 0, short: 0, backspaces: 3 });
}

#[test]
fn return_escape_and_backspace() {
    let config = config(Some(";"), &["l3"]);
    let mut state = InputState::new();
    typed(&mut state, &config, ";l");
    assert_eq!(state.handle_key(&config, KeyInput::Return), KeyAction::Nothing);
    assert_eq!(typed(&mut state, &config, "3")[0], KeyAction::Nothing);
    typed(&mut state, &config, ";l");
    state.handle_key(&config, KeyInput::Escape);
    assert_eq!(typed(&mut state, &config, "3")[0], KeyAction::Nothing);
    typed(&mut state, &config, ";lx");
    state.handle_key(&config, KeyInput::Backspace);
    assert_eq!(typed(&mut state, &config, "3")[0], KeyAction::Expand { group: 0, short: 0, backspaces: 3 });
}

#[test]
fn keys_of_more_than_one_byte_are_ignored() {
    let config = config(Some(";"), &["l3"]);
    let mut state = InputState::new();
    typed(&mut state, &config, ";l");
    assert_eq!(state.handle_key(&config, KeyInput::Other("é".to_string())), KeyAction::Nothing);
    assert_eq!(state.handle_key(&config, KeyInput::Other("ab".to_string())), KeyAction::Nothing);
    assert_eq!(typed(&mut state, &config, "3")[0], KeyAction::Expand { group: 0, short: 0, backspaces: 3 });
}

#[test]
fn without_prefix_the_first_letter_selects_the_group() {
    let config = config(None, &["ab", "ac"]);
    let mut state = InputState::new();
    // the first character is a group's prefix: the input restarts from it
    let actions = typed(&mut state, &config, "ac");
    assert_eq!(actions[1], KeyAction::Expand { group: 0, short: 1, backspaces: 2 });
}

#[test]
fn input_is_trimmed_to_the_longest_name() {
    let config = config(Some(";"), &["ab"]);
    let mut state = InputState::new();
    // ";" restarts the input, "xab" pushes ";" out, so ";ab" is never seen whole
    let actions = typed(&mut state, &config, ";xab");
    assert!(actions.iter().all(|a| *a == KeyAction::Nothing));
}

#[test]
fn first_of_two_shorts_with_the_same_name_wins() {
    let config = config(Some(";"), &["ab", "ab"]);
    let mut state = InputState::new();
    let actions = typed(&mut state, &config, ";ab");
    assert_eq!(actions[2], KeyAction::Expand { group: 0, short: 0, backspaces: 3 });
}
