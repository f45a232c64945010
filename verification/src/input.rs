//! What the daemon does with each key press: it keeps the last characters
//! typed and, when they spell the full name of a short, asks for that short
//! to be expanded.

use vstd::prelude::*;

use crate::config::{find_group, groups_map, lemma_groups_map_at, Config, ShortSpec};
use crate::text::{chars_eq, chars_of, lemma_single_byte, utf8_len_checked};

verus! {

/// A key press.
#[derive(Debug)]
pub enum KeyInput {
    Return,
    Escape,
    Backspace,
    /// Any other key, by the text it types.
    Other(String),
}

/// What to do after a key press.
#[derive(Debug, PartialEq, Eq, Structural)]
pub enum KeyAction {
    Nothing,
    /// Erase `backspaces` characters and type the expansion of short `short`
    /// of group `group` of the configuration.
    Expand { group: usize, short: usize, backspaces: usize },
}

/// The characters typed since the last reset, all of them ASCII.
pub struct InputState {
    current_input: Vec<char>,
}

/// Model of [`KeyInput`].
pub enum KeySpec {
    Return,
    Escape,
    Backspace,
    Other(Seq<char>),
}

/// What to do after a key press: nothing, or expand the short at index
/// `short` of the group of `prefix`, erasing `backspaces` characters.
pub enum ActionSpec {
    Nothing,
    Expand { prefix: Seq<char>, short: nat, backspaces: nat },
}

impl View for KeyInput {
    type V = KeySpec;

    open spec fn view(&self) -> KeySpec {
        match self {
            KeyInput::Return => KeySpec::Return,
            KeyInput::Escape => KeySpec::Escape,
            KeyInput::Backspace => KeySpec::Backspace,
            KeyInput::Other(s) => KeySpec::Other(s@),
        }
    }
}

/// The index of the first short named `name`, if any.
pub open spec fn match_index(shorts: Seq<ShortSpec>, name: Seq<char>) -> Option<nat>
    decreases shorts.len(),
{
    if shorts.len() == 0 {
        None
    } else {
        match match_index(shorts.drop_last(), name) {
            Some(i) => Some(i),
            None => if shorts.last().name == name {
                Some((shorts.len() - 1) as nat)
            } else {
                None
            },
        }
    }
}

/// Every character is ASCII.
pub open spec fn all_ascii(s: Seq<char>) -> bool {
    forall|i: int| 0 <= i < s.len() ==> (#[trigger] s[i] as u32) < 0x80
}

/// The input and the action after typing `name` with input `input`.
///
/// Only a key that types exactly one byte counts. Its character is added;
/// if it is itself the prefix of a group the input restarts from it, else
/// the group of the input's first character (if there is one) is searched.
/// The oldest character is dropped when the input grows past `max_len`.
/// When the input then equals the full name of a short of the group
/// searched, the first such short is expanded and the input cleared.
pub open spec fn typed_step(
    input: Seq<char>,
    groups: Map<Seq<char>, Seq<ShortSpec>>,
    max_len: nat,
    name: Seq<char>,
) -> (Seq<char>, ActionSpec) {
    if vstd::utf8::encode_utf8(name).len() != 1 {
        (input, ActionSpec::Nothing)
    } else {
        let pushed = input.push(name[0]);
        let first = pushed.take(1);
        let reset = groups.contains_key(name);
        let kept = if reset {
            name
        } else {
            pushed
        };
        let trimmed = if kept.len() > max_len {
            kept.drop_first()
        } else {
            kept
        };
        if !reset && groups.contains_key(first) {
            match match_index(groups[first], trimmed) {
                Some(i) => (
                    Seq::empty(),
                    ActionSpec::Expand { prefix: first, short: i, backspaces: trimmed.len() },
                ),
                None => (trimmed, ActionSpec::Nothing),
            }
        } else {
            (trimmed, ActionSpec::Nothing)
        }
    }
}

/// The input and the action after a key press: Return and Escape clear the
/// input, Backspace drops its last character, any other key is typed.
pub open spec fn key_step(
    input: Seq<char>,
    groups: Map<Seq<char>, Seq<ShortSpec>>,
    max_len: nat,
    key: KeySpec,
) -> (Seq<char>, ActionSpec) {
    match key {
        KeySpec::Return => (Seq::empty(), ActionSpec::Nothing),
        KeySpec::Escape => (Seq::empty(), ActionSpec::Nothing),
        KeySpec::Backspace => (
            if input.len() > 0 {
                input.drop_last()
            } else {
                input
            },
            ActionSpec::Nothing,
        ),
        KeySpec::Other(name) => typed_step(input, groups, max_len, name),
    }
}

/// `action` is the model `spec` for the configuration `config`.
pub open spec fn action_agrees(action: KeyAction, spec: ActionSpec, config: &Config) -> bool {
    match spec {
        ActionSpec::Nothing => action == KeyAction::Nothing,
        ActionSpec::Expand { prefix, short, backspaces } => action matches KeyAction::Expand {
            group: g,
            short: s,
            backspaces: b,
        } && g < config.groups@.len() && config.groups@[g as int].prefix@ == prefix && s == short
            && b == backspaces,
    }
}

/// The index of the first short of `group` named `name`.
fn find_short(config: &Config, group: usize, name: &Vec<char>) -> (res: Option<usize>)
    requires
        config.wf(),
        group < config.groups@.len(),
    ensures
        match res {
            Some(i) => match_index(groups_map(config.groups@)[config.groups@[group as int].prefix@], name@)
                == Some(i as nat) && i < config.groups@[group as int].shorts@.len(),
            None => match_index(groups_map(config.groups@)[config.groups@[group as int].prefix@], name@) is None,
        },
{
    proof {
        lemma_groups_map_at(config.groups@, group as int);
    }
    let shorts = &config.groups[group].shorts;
    let ghost sv = groups_map(config.groups@)[config.groups@[group as int].prefix@];
    let n = shorts.len();
    let mut i: usize = 0;
    assert(sv.take(0) =~= Seq::<ShortSpec>::empty());
    while i < n
        invariant
            config.wf(),
            group < config.groups@.len(),
            shorts == &config.groups@[group as int].shorts,
            sv == groups_map(config.groups@)[config.groups@[group as int].prefix@],
            n == shorts@.len(),
            sv.len() == n,
            forall|k: int| 0 <= k < n ==> #[trigger] sv[k] == shorts@[k]@,
            i <= n,
            match_index(sv.take(i as int), name@) is None,
        decreases n - i,
    {
        let short_name = chars_of(shorts[i].name.as_str());
        assert(sv.take(i + 1).drop_last() =~= sv.take(i as int));
        if chars_eq(&short_name, name) {
            proof {
                lemma_match_prefix(sv, name@, i + 1);
            }
            return Some(i);
        }
        i += 1;
    }
    assert(sv.take(n as int) =~= sv);
    None
}

/// A match among the first `m` shorts is the match among all of them.
proof fn lemma_match_prefix(shorts: Seq<ShortSpec>, name: Seq<char>, m: int)
    requires
        0 <= m <= shorts.len(),
        match_index(shorts.take(m), name) is Some,
    ensures
        match_index(shorts, name) == match_index(shorts.take(m), name),
    decreases shorts.len() - m,
{
    if m < shorts.len() {
        assert(shorts.take(m + 1).drop_last() =~= shorts.take(m));
        lemma_match_prefix(shorts, name, m + 1);
    } else {
        assert(shorts.take(m) =~= shorts);
    }
}

impl InputState {
    #[verifier::type_invariant]
    spec fn ascii_only(self) -> bool {
        all_ascii(self.current_input@)
    }

    /// The characters typed since the last reset.
    pub closed spec fn input(&self) -> Seq<char> {
        self.current_input@
    }

    /// An empty input.
    pub fn new() -> (res: Self)
        ensures
            res.input() == Seq::<char>::empty(),
    {
        InputState { current_input: Vec::new() }
    }

    /// Takes in one key press (see [`key_step`]) and says what to do.
    pub fn handle_key(&mut self, config: &Config, key: KeyInput) -> (res: KeyAction)
        requires
            config.wf(),
        ensures
            final(self).input() == key_step(
                old(self).input(),
                groups_map(config.groups@),
                config.max_len as nat,
                key@,
            ).0,
            action_agrees(
                res,
                key_step(old(self).input(), groups_map(config.groups@), config.max_len as nat, key@).1,
                config,
            ),
    {
        proof {
            use_type_invariant(&*self);
        }
        match key {
            KeyInput::Return => {
                self.current_input = Vec::new();
                KeyAction::Nothing
            },
            KeyInput::Escape => {
                self.current_input = Vec::new();
                KeyAction::Nothing
            },
            KeyInput::Backspace => {
                let mut input: Vec<char> = Vec::new();
        std::mem::swap(&mut input, &mut self.current_input);
                if input.len() > 0 {
                    input.pop();
                }
                assert(all_ascii(input@));
                self.current_input = input;
                KeyAction::Nothing
            },
            KeyInput::Other(name) => self.typed(config, &name),
        }
    }

    fn typed(&mut self, config: &Config, name: &String) -> (res: KeyAction)
        requires
            config.wf(),
        ensures
            final(self).input() == typed_step(
                old(self).input(),
                groups_map(config.groups@),
                config.max_len as nat,
                name@,
            ).0,
            action_agrees(
                res,
                typed_step(old(self).input(), groups_map(config.groups@), config.max_len as nat, name@).1,
                config,
            ),
    {
        proof {
            use_type_invariant(&*self);
        }
        let ghost groups = groups_map(config.groups@);
        match utf8_len_checked(name.as_str()) {
            Some(1) => {},
            _ => {
                return KeyAction::Nothing;
            },
        }
        proof {
            lemma_single_byte(name@);
        }
        let key_chars = chars_of(name.as_str());
        let c = key_chars[0];
        let mut input: Vec<char> = Vec::new();
        std::mem::swap(&mut input, &mut self.current_input);
        let ghost old_input = input@;
        input.push(c);
        let ghost pushed = input@;
        let mut first = String::new();
        crate::text::push_char(&mut first, input[0]);
        assert(first@ =~= pushed.take(1));
        let mut group: Option<usize> = None;
        match find_group(&config.groups, name) {
            Some(g) => {
                proof {
                    lemma_groups_map_at(config.groups@, g as int);
                }
                input = Vec::new();
                input.push(c);
                assert(input@ =~= name@);
            },
            None => {
                match find_group(&config.groups, &first) {
                    Some(g) => {
                        proof {
                            lemma_groups_map_at(config.groups@, g as int);
                        }
                        group = Some(g);
                    },
                    None => {},
                }
            },
        }
        if input.len() > config.max_len {
            input.remove(0);
        }
        let ghost trimmed = input@;
        assert(all_ascii(trimmed)) by {
            assert forall|i: int| 0 <= i < trimmed.len() implies (#[trigger] trimmed[i] as u32)
                < 0x80 by {
                if trimmed.len() == pushed.len() && trimmed =~= pushed {
                    if i < old_input.len() {
                        assert(pushed[i] == old_input[i]);
                    }
                } else if trimmed.len() + 1 == pushed.len() && trimmed =~= pushed.drop_first() {
                    if i + 1 < old_input.len() {
                        assert(pushed[i + 1] == old_input[i + 1]);
                    }
                }
            }
        }
        match group {
            Some(g) => {
                match find_short(config, g, &input) {
                    Some(s) => {
                        let backspaces = input.len();
                        self.current_input = Vec::new();
                        KeyAction::Expand { group: g, short: s, backspaces }
                    },
                    None => {
                        self.current_input = input;
                        KeyAction::Nothing
                    },
                }
            },
            None => {
                self.current_input = input;
                KeyAction::Nothing
            },
        }
    }
}

proof fn lemma_match_index(shorts: Seq<ShortSpec>, name: Seq<char>)
    ensures
        match_index(shorts, name) matches Some(i) ==> {
            &&& i < shorts.len()
            &&& shorts[i as int].name == name
            &&& forall|j: int| 0 <= j < i ==> #[trigger] shorts[j].name != name
        },
        match_index(shorts, name) is None ==> forall|j: int|
            0 <= j < shorts.len() ==> #[trigger] shorts[j].name != name,
    decreases shorts.len(),
{
    if shorts.len() > 0 {
        let init = shorts.drop_last();
        lemma_match_index(init, name);
        assert forall|j: int| 0 <= j < init.len() implies #[trigger] shorts[j] == init[j] by {}
    }
}

/// The input never grows past `max_len`: a key press keeps an input of at
/// most `max_len` characters within that bound.
pub proof fn lemma_input_stays_bounded(
    input: Seq<char>,
    groups: Map<Seq<char>, Seq<ShortSpec>>,
    max_len: nat,
    key: KeySpec,
)
    requires
        input.len() <= max_len,
    ensures
        key_step(input, groups, max_len, key).0.len() <= max_len,
{
    if let KeySpec::Other(name) = key {
        if vstd::utf8::encode_utf8(name).len() == 1 {
            crate::text::lemma_single_byte(name);
        }
    }
}

/// A short is expanded only when the input equals its full name, and it is
/// the first short of its group with that name: the action erases exactly
/// the characters of that name and the input is cleared.
pub proof fn lemma_expansion_matches_input(
    input: Seq<char>,
    groups: Map<Seq<char>, Seq<ShortSpec>>,
    max_len: nat,
    key: KeySpec,
)
    ensures
        key_step(input, groups, max_len, key).1 matches ActionSpec::Expand { prefix, short, backspaces }
            ==> {
            &&& groups.contains_key(prefix)
            &&& short < groups[prefix].len()
            &&& backspaces == groups[prefix][short as int].name.len()
            &&& forall|j: int| 0 <= j < short ==> #[trigger] groups[prefix][j].name != groups[prefix][short as int].name
            &&& key_step(input, groups, max_len, key).0.len() == 0
        },
{
    if let KeySpec::Other(name) = key {
        if vstd::utf8::encode_utf8(name).len() == 1 {
            let pushed = input.push(name[0]);
            let first = pushed.take(1);
            if groups.contains_key(first) {
                let reset = groups.contains_key(name);
                let kept = if reset { name } else { pushed };
                let trimmed = if kept.len() > max_len { kept.drop_first() } else { kept };
                lemma_match_index(groups[first], trimmed);
            }
        }
    }
}

/// The input and the actions after typing each character of `text` in turn.
pub open spec fn type_text(
    input: Seq<char>,
    groups: Map<Seq<char>, Seq<ShortSpec>>,
    max_len: nat,
    text: Seq<char>,
) -> (Seq<char>, Seq<ActionSpec>)
    decreases text.len(),
{
    if text.len() == 0 {
        (input, Seq::empty())
    } else {
        let (before, actions) = type_text(input, groups, max_len, text.drop_last());
        let (after, action) = key_step(before, groups, max_len, KeySpec::Other(seq![text.last()]));
        (after, actions.push(action))
    }
}

proof fn lemma_ascii_one_byte(c: char)
    requires
        (c as u32) < 0x80,
    ensures
        vstd::utf8::encode_utf8(seq![c]).len() == 1,
{
    crate::text::lemma_encode_single(c);
}

/// Typing, from an empty input, the full name of a short whose group has a
/// one-character prefix expands that short once its last character is typed,
/// and does nothing before (see [`lemma_typing_a_name_expands_from`]).
pub proof fn lemma_typing_a_name_expands(
    groups: Map<Seq<char>, Seq<ShortSpec>>,
    max_len: nat,
    name: Seq<char>,
)
    requires
        name.len() >= 2,
        all_ascii(name),
        name.len() <= max_len,
        groups.contains_key(name.take(1)),
        forall|i: int| 1 <= i < name.len() ==> !groups.contains_key(#[trigger] seq![name[i]]),
        forall|j: int| 1 <= j < name.len() ==> #[trigger] match_index(groups[name.take(1)], name.take(j)) is None,
        match_index(groups[name.take(1)], name) is Some,
    ensures
        type_text(Seq::empty(), groups, max_len, name) == (
            Seq::<char>::empty(),
            Seq::new((name.len() - 1) as nat, |_i: int| ActionSpec::Nothing).push(
                ActionSpec::Expand {
                    prefix: name.take(1),
                    short: match_index(groups[name.take(1)], name)->0,
                    backspaces: name.len(),
                },
            ),
        ),
{
    lemma_typing_a_name_expands_from(Seq::empty(), groups, max_len, name);
}

/// Typing, whatever was typed before, the full name of a short whose group
/// has a one-character prefix expands that short once its last character is
/// typed, and does nothing before: typing the prefix restarts the input. This
/// needs the name to be ASCII, at least two characters long and at most
/// `max_len` long; none of its later characters may itself be the prefix of
/// a group (typing it would restart the input), and no shorter start of it
/// may be the name of a short of the group (that short would be expanded
/// first).
pub proof fn lemma_typing_a_name_expands_from(
    input: Seq<char>,
    groups: Map<Seq<char>, Seq<ShortSpec>>,
    max_len: nat,
    name: Seq<char>,
)
    requires
        name.len() >= 2,
        all_ascii(name),
        name.len() <= max_len,
        groups.contains_key(name.take(1)),
        forall|i: int| 1 <= i < name.len() ==> !groups.contains_key(#[trigger] seq![name[i]]),
        forall|j: int| 1 <= j < name.len() ==> #[trigger] match_index(groups[name.take(1)], name.take(j)) is None,
        match_index(groups[name.take(1)], name) is Some,
    ensures
        type_text(input, groups, max_len, name) == (
            Seq::<char>::empty(),
            Seq::new((name.len() - 1) as nat, |_i: int| ActionSpec::Nothing).push(
                ActionSpec::Expand {
                    prefix: name.take(1),
                    short: match_index(groups[name.take(1)], name)->0,
                    backspaces: name.len(),
                },
            ),
        ),
{
    lemma_typing_prefix(input, groups, max_len, name, (name.len() - 1) as nat);
    let j = (name.len() - 1) as int;
    let before = name.take(j);
    assert(name.drop_last() =~= before);
    let c = name[j];
    assert((c as u32) < 0x80);
    lemma_ascii_one_byte(c);
    let pushed = before.push(c);
    assert(pushed =~= name);
    assert(pushed.take(1) =~= name.take(1));
    assert(!groups.contains_key(seq![c]));
    assert(seq![name.last()] == seq![c]);
    assert(Seq::new((name.len() - 1) as nat, |_i: int| ActionSpec::Nothing) =~= Seq::new(
        j as nat,
        |_i: int| ActionSpec::Nothing,
    ));
}

/// Typing the first `j` characters of such a name leaves them as the input
/// and does nothing.
proof fn lemma_typing_prefix(
    input: Seq<char>,
    groups: Map<Seq<char>, Seq<ShortSpec>>,
    max_len: nat,
    name: Seq<char>,
    j: nat,
)
    requires
        1 <= j < name.len(),
        all_ascii(name),
        name.len() <= max_len,
        groups.contains_key(name.take(1)),
        forall|i: int| 1 <= i < name.len() ==> !groups.contains_key(#[trigger] seq![name[i]]),
        forall|k: int| 1 <= k < name.len() ==> #[trigger] match_index(groups[name.take(1)], name.take(k)) is None,
    ensures
        type_text(input, groups, max_len, name.take(j as int)) == (
            name.take(j as int),
            Seq::new(j, |_i: int| ActionSpec::Nothing),
        ),
    decreases j,
{
    let c = name[j - 1];
    assert((c as u32) < 0x80);
    lemma_ascii_one_byte(c);
    let text = name.take(j as int);
    assert(text.last() == c);
    assert(seq![text.last()] == seq![c]);
    let key = seq![c];
    assert(key[0] == c);
    if j == 1 {
        assert(text.drop_last() =~= Seq::<char>::empty());
        assert(type_text(input, groups, max_len, text.drop_last()) == (
            input,
            Seq::<ActionSpec>::empty(),
        ));
        assert(key =~= name.take(1));
        assert(typed_step(input, groups, max_len, key) == (key, ActionSpec::Nothing));
        assert(Seq::<ActionSpec>::empty().push(ActionSpec::Nothing) =~= Seq::new(
            1,
            |_i: int| ActionSpec::Nothing,
        ));
    } else {
        lemma_typing_prefix(input, groups, max_len, name, (j - 1) as nat);
        assert(text.drop_last() =~= name.take(j - 1));
        let before = name.take(j - 1);
        let pushed = before.push(c);
        assert(pushed =~= text);
        assert(pushed.take(1) =~= name.take(1));
        assert(!groups.contains_key(seq![name[j - 1]]));
        assert(!groups.contains_key(key));
        assert(match_index(groups[name.take(1)], name.take(j as int)) is None);
        assert(typed_step(before, groups, max_len, key) == (text, ActionSpec::Nothing));
        assert(Seq::new((j - 1) as nat, |_i: int| ActionSpec::Nothing).push(ActionSpec::Nothing)
            =~= Seq::new(j, |_i: int| ActionSpec::Nothing));
    }
}

/// Typing a key that is itself the prefix of a group restarts the input at
/// that key, whatever the input was, and does nothing else (with a
/// `max_len` of zero the input is then empty).
pub proof fn lemma_prefix_key_restarts(
    input: Seq<char>,
    groups: Map<Seq<char>, Seq<ShortSpec>>,
    max_len: nat,
    key: Seq<char>,
)
    requires
        groups.contains_key(key),
        vstd::utf8::encode_utf8(key).len() == 1,
    ensures
        key_step(input, groups, max_len, KeySpec::Other(key)).0 == (if max_len >= 1 {
            key
        } else {
            Seq::<char>::empty()
        }),
        key_step(input, groups, max_len, KeySpec::Other(key)).1 is Nothing,
{
    crate::text::lemma_single_byte(key);
    if max_len == 0 {
        assert(key.drop_first() =~= Seq::<char>::empty());
    }
}

/// A key that does not type exactly one byte changes nothing.
pub proof fn lemma_wide_key_ignored(
    input: Seq<char>,
    groups: Map<Seq<char>, Seq<ShortSpec>>,
    max_len: nat,
    key: Seq<char>,
)
    requires
        vstd::utf8::encode_utf8(key).len() != 1,
    ensures
        key_step(input, groups, max_len, KeySpec::Other(key)).0 == input,
        key_step(input, groups, max_len, KeySpec::Other(key)).1 is Nothing,
{
}

/// Return and Escape empty the input; Backspace removes its last character
/// and keeps the others; none of them expands anything.
pub proof fn lemma_editing_keys(input: Seq<char>, groups: Map<Seq<char>, Seq<ShortSpec>>, max_len: nat)
    ensures
        key_step(input, groups, max_len, KeySpec::Return).0.len() == 0,
        key_step(input, groups, max_len, KeySpec::Return).1 is Nothing,
        key_step(input, groups, max_len, KeySpec::Escape).0.len() == 0,
        key_step(input, groups, max_len, KeySpec::Escape).1 is Nothing,
        key_step(input, groups, max_len, KeySpec::Backspace).1 is Nothing,
        input.len() > 0 ==> key_step(input, groups, max_len, KeySpec::Backspace).0 == input.subrange(
            0,
            input.len() - 1,
        ),
        input.len() == 0 ==> key_step(input, groups, max_len, KeySpec::Backspace).0.len() == 0,
{
    if input.len() > 0 {
        assert(input.drop_last() =~= input.subrange(0, input.len() - 1));
    }
}

} // verus!
