//! Configuration: the shorts of all configuration files, grouped by the
//! prefix that starts them, with the variables they may use.

use vstd::prelude::*;
use vstd::utf8::encode_utf8;

use crate::text::{chars_of, lemma_encode_concat, push_char, strings_view, utf8_len_checked};
use crate::tokenizer::{
    lemma_reported_errors_render, message_spec, render_spec, tokenize_content, tokenize_spec,
    tokens_view, ErrorSpec, Scan, ShortToken, TokenSpec, TokenizerError,
};

verus! {

/// How a short is typed out.
#[derive(Debug, Clone, Copy, PartialEq, Eq, Structural)]
pub enum ShortKind {
    Text,
    File,
}

/// A named value that `{var name}` expands to.
#[derive(Debug)]
pub struct Var {
    pub name: String,
    pub value: String,
}

/// A short as written in a configuration file.
#[derive(Debug)]
pub struct ConfigShort {
    pub name: String,
    pub content: String,
    pub kind: Option<ShortKind>,
    pub vars: Option<Vec<Var>>,
    pub enter: Option<bool>,
}

/// A configuration file: its path and what it holds.
#[derive(Debug)]
pub struct ConfigFile {
    pub path: String,
    pub vars: Option<Vec<Var>>,
    pub prefix: Option<String>,
    pub shorts: Vec<ConfigShort>,
}

/// What a configuration file holds, as read from it.
#[derive(Debug)]
pub struct SerdeConfigFile {
    pub vars: Option<Vec<Var>>,
    pub prefix: Option<String>,
    pub shorts: Vec<ConfigShort>,
}

/// A short ready for expansion: `name` is what the user types, `path_idx`
/// the index of its file in [`Config::conf_paths`].
#[derive(Debug)]
pub struct Short {
    pub path_idx: usize,
    pub name: String,
    pub tokens: Vec<ShortToken>,
    pub kind: ShortKind,
    pub vars: Vec<Var>,
    pub enter: bool,
}

/// The shorts whose names start with `prefix`.
#[derive(Debug)]
pub struct GroupedShorts {
    pub prefix: String,
    pub shorts: Vec<Short>,
}

/// The whole configuration. `groups` holds one group per prefix and `vars`
/// one variable per name; `max_len` is the largest length, in bytes, of a
/// short's name.
#[derive(Debug)]
pub struct Config {
    pub max_len: usize,
    pub groups: Vec<GroupedShorts>,
    pub vars: Vec<Var>,
    pub conf_paths: Vec<String>,
}

// ---------------------------------------------------------------------------
// Model
// ---------------------------------------------------------------------------

/// No two variables share a name.
pub open spec fn names_distinct(vs: Seq<Var>) -> bool {
    forall|i: int, j: int|
        0 <= i < vs.len() && 0 <= j < vs.len() && i != j ==> #[trigger] vs[i].name@ != #[trigger] vs[j].name@
}

pub open spec fn has_var(vs: Seq<Var>, k: Seq<char>) -> bool {
    exists|i: int| 0 <= i < vs.len() && #[trigger] vs[i].name@ == k
}

/// The variables as a map from name to value.
pub open spec fn vars_map(vs: Seq<Var>) -> Map<Seq<char>, Seq<char>> {
    Map::new(
        |k: Seq<char>| has_var(vs, k),
        |k: Seq<char>| vs[choose|i: int| 0 <= i < vs.len() && #[trigger] vs[i].name@ == k].value@,
    )
}

/// Model of [`Short`].
pub struct ShortSpec {
    pub path_idx: nat,
    pub name: Seq<char>,
    pub tokens: Seq<TokenSpec>,
    pub kind: ShortKind,
    pub vars: Map<Seq<char>, Seq<char>>,
    pub enter: bool,
}

impl View for Short {
    type V = ShortSpec;

    open spec fn view(&self) -> ShortSpec {
        ShortSpec {
            path_idx: self.path_idx as nat,
            name: self.name@,
            tokens: tokens_view(self.tokens@),
            kind: self.kind,
            vars: vars_map(self.vars@),
            enter: self.enter,
        }
    }
}

pub open spec fn shorts_view(ss: Seq<Short>) -> Seq<ShortSpec> {
    ss.map_values(|s: Short| s@)
}

/// No two groups share a prefix.
pub open spec fn prefixes_distinct(gs: Seq<GroupedShorts>) -> bool {
    forall|i: int, j: int|
        0 <= i < gs.len() && 0 <= j < gs.len() && i != j ==> #[trigger] gs[i].prefix@
            != #[trigger] gs[j].prefix@
}

pub open spec fn has_group(gs: Seq<GroupedShorts>, k: Seq<char>) -> bool {
    exists|i: int| 0 <= i < gs.len() && #[trigger] gs[i].prefix@ == k
}

/// The groups as a map from prefix to shorts.
pub open spec fn groups_map(gs: Seq<GroupedShorts>) -> Map<Seq<char>, Seq<ShortSpec>> {
    Map::new(
        |k: Seq<char>| has_group(gs, k),
        |k: Seq<char>|
            shorts_view(gs[choose|i: int| 0 <= i < gs.len() && #[trigger] gs[i].prefix@ == k].shorts@),
    )
}

/// Model of [`Config`].
pub struct ConfigSpec {
    pub max_len: nat,
    pub groups: Map<Seq<char>, Seq<ShortSpec>>,
    pub vars: Map<Seq<char>, Seq<char>>,
    pub conf_paths: Seq<Seq<char>>,
}

impl View for Config {
    type V = ConfigSpec;

    open spec fn view(&self) -> ConfigSpec {
        ConfigSpec {
            max_len: self.max_len as nat,
            groups: groups_map(self.groups@),
            vars: vars_map(self.vars@),
            conf_paths: strings_view(self.conf_paths@),
        }
    }
}

impl Config {
    /// One group per prefix and one variable per name, in the configuration
    /// and in each short.
    pub open spec fn wf(&self) -> bool {
        &&& prefixes_distinct(self.groups@)
        &&& names_distinct(self.vars@)
        &&& forall|g: int, s: int|
            0 <= g < self.groups@.len() && 0 <= s < self.groups@[g].shorts@.len() ==> names_distinct(
                #[trigger] self.groups@[g].shorts@[s].vars@,
            )
    }
}

// ---------------------------------------------------------------------------
// Keyed collections
// ---------------------------------------------------------------------------

pub(crate) proof fn lemma_var_value(vs: Seq<Var>, i: int)
    requires
        names_distinct(vs),
        0 <= i < vs.len(),
    ensures
        vars_map(vs).contains_key(vs[i].name@),
        vars_map(vs)[vs[i].name@] == vs[i].value@,
{
    let k = vs[i].name@;
    assert(has_var(vs, k));
    let c = choose|c: int| 0 <= c < vs.len() && #[trigger] vs[c].name@ == k;
    assert(c == i);
}

/// Replacing the variable at `i` by one of the same name.
proof fn lemma_vars_map_update(vs: Seq<Var>, i: int, v: Var)
    requires
        names_distinct(vs),
        0 <= i < vs.len(),
        vs[i].name@ == v.name@,
    ensures
        names_distinct(vs.update(i, v)),
        vars_map(vs.update(i, v)) =~= vars_map(vs).insert(v.name@, v.value@),
{
    let ws = vs.update(i, v);
    assert(names_distinct(ws)) by {
        assert forall|a: int, b: int|
            0 <= a < ws.len() && 0 <= b < ws.len() && a != b implies #[trigger] ws[a].name@
            != #[trigger] ws[b].name@ by {
            assert(vs[a].name@ != vs[b].name@);
        }
    }
    assert forall|k: Seq<char>| has_var(ws, k) == (has_var(vs, k) || k == v.name@) by {
        if has_var(vs, k) {
            let c = choose|c: int| 0 <= c < vs.len() && #[trigger] vs[c].name@ == k;
            assert(ws[c].name@ == k);
        }
        if has_var(ws, k) {
            let c = choose|c: int| 0 <= c < ws.len() && #[trigger] ws[c].name@ == k;
            assert(vs[c].name@ == k);
        }
        if k == v.name@ {
            assert(ws[i].name@ == k);
        }
    }
    assert forall|k: Seq<char>| #[trigger] vars_map(ws).contains_key(k) implies vars_map(ws)[k]
        == vars_map(vs).insert(v.name@, v.value@)[k] by {
        let c = choose|c: int| 0 <= c < ws.len() && #[trigger] ws[c].name@ == k;
        lemma_var_value(ws, c);
        if c != i {
            lemma_var_value(vs, c);
        }
    }
}

/// Adding a variable whose name is new.
proof fn lemma_vars_map_push(vs: Seq<Var>, v: Var)
    requires
        names_distinct(vs),
        !has_var(vs, v.name@),
    ensures
        names_distinct(vs.push(v)),
        vars_map(vs.push(v)) =~= vars_map(vs).insert(v.name@, v.value@),
{
    let ws = vs.push(v);
    assert(names_distinct(ws)) by {
        assert forall|a: int, b: int|
            0 <= a < ws.len() && 0 <= b < ws.len() && a != b implies #[trigger] ws[a].name@
            != #[trigger] ws[b].name@ by {
            if a < vs.len() && b < vs.len() {
                assert(vs[a].name@ != vs[b].name@);
            } else if a < vs.len() {
                assert(vs[a].name@ != v.name@);
            } else if b < vs.len() {
                assert(vs[b].name@ != v.name@);
            }
        }
    }
    assert forall|k: Seq<char>| has_var(ws, k) == (has_var(vs, k) || k == v.name@) by {
        if has_var(vs, k) {
            let c = choose|c: int| 0 <= c < vs.len() && #[trigger] vs[c].name@ == k;
            assert(ws[c].name@ == k);
        }
        if has_var(ws, k) {
            let c = choose|c: int| 0 <= c < ws.len() && #[trigger] ws[c].name@ == k;
            if c < vs.len() {
                assert(vs[c].name@ == k);
            }
        }
        if k == v.name@ {
            assert(ws[vs.len() as int].name@ == k);
        }
    }
    assert forall|k: Seq<char>| #[trigger] vars_map(ws).contains_key(k) implies vars_map(ws)[k]
        == vars_map(vs).insert(v.name@, v.value@)[k] by {
        let c = choose|c: int| 0 <= c < ws.len() && #[trigger] ws[c].name@ == k;
        lemma_var_value(ws, c);
        if c < vs.len() {
            lemma_var_value(vs, c);
        }
    }
}

/// The index of the variable named `name`, if there is one.
pub(crate) fn find_var_index(vs: &Vec<Var>, name: &String) -> (res: Option<usize>)
    ensures
        match res {
            Some(i) => i < vs@.len() && vs@[i as int].name@ == name@,
            None => !has_var(vs@, name@),
        },
{
    let n = vs.len();
    let mut i: usize = 0;
    while i < n
        invariant
            n == vs@.len(),
            i <= n,
            forall|j: int| 0 <= j < i ==> #[trigger] vs@[j].name@ != name@,
        decreases n - i,
    {
        if vs[i].name == *name {
            return Some(i);
        }
        i += 1;
    }
    None
}

/// Sets the variable `v.name` to `v.value`, replacing a variable of that name.
fn insert_var(vars: &mut Vec<Var>, v: Var)
    requires
        names_distinct(old(vars)@),
    ensures
        names_distinct(final(vars)@),
        vars_map(final(vars)@) == vars_map(old(vars)@).insert(v.name@, v.value@),
{
    match find_var_index(vars, &v.name) {
        Some(i) => {
            proof {
                lemma_vars_map_update(vars@, i as int, v);
            }
            vars.set(i, v);
        },
        None => {
            proof {
                lemma_vars_map_push(vars@, v);
            }
            vars.push(v);
        },
    }
}

/// The map after setting each variable of `vs` in turn.
pub open spec fn insert_vars(m: Map<Seq<char>, Seq<char>>, vs: Seq<Var>) -> Map<Seq<char>, Seq<char>>
    decreases vs.len(),
{
    if vs.len() == 0 {
        m
    } else {
        insert_vars(m, vs.drop_last()).insert(vs.last().name@, vs.last().value@)
    }
}

pub open spec fn opt_vars(vs: Option<Vec<Var>>) -> Seq<Var> {
    match vs {
        Some(v) => v@,
        None => Seq::empty(),
    }
}

/// Sets each variable of `vs` in turn: a later one wins over an earlier one
/// of the same name.
fn insert_all_vars(vars: &mut Vec<Var>, vs: &Option<Vec<Var>>)
    requires
        names_distinct(old(vars)@),
    ensures
        names_distinct(final(vars)@),
        vars_map(final(vars)@) == insert_vars(vars_map(old(vars)@), opt_vars(*vs)),
{
    match vs {
        None => {},
        Some(list) => {
            let ghost m0 = vars_map(vars@);
            let n = list.len();
            let mut i: usize = 0;
            assert(list@.take(0) =~= Seq::<Var>::empty());
            while i < n
                invariant
                    n == list@.len(),
                    i <= n,
                    names_distinct(vars@),
                    vars_map(vars@) == insert_vars(m0, list@.take(i as int)),
                decreases n - i,
            {
                let v = Var { name: list[i].name.clone(), value: list[i].value.clone() };
                insert_var(vars, v);
                assert(list@.take(i + 1).drop_last() =~= list@.take(i as int));
                i += 1;
            }
            assert(list@.take(n as int) =~= list@);
        },
    }
}

pub(crate) proof fn lemma_groups_map_at(gs: Seq<GroupedShorts>, i: int)
    requires
        prefixes_distinct(gs),
        0 <= i < gs.len(),
    ensures
        groups_map(gs).contains_key(gs[i].prefix@),
        groups_map(gs)[gs[i].prefix@] == shorts_view(gs[i].shorts@),
{
    let k = gs[i].prefix@;
    assert(has_group(gs, k));
    let c = choose|c: int| 0 <= c < gs.len() && #[trigger] gs[c].prefix@ == k;
    assert(c == i);
}

/// Replacing the group at `i` by one with the same prefix.
proof fn lemma_groups_map_update(gs: Seq<GroupedShorts>, i: int, g: GroupedShorts)
    requires
        prefixes_distinct(gs),
        0 <= i < gs.len(),
        gs[i].prefix@ == g.prefix@,
    ensures
        prefixes_distinct(gs.update(i, g)),
        groups_map(gs.update(i, g)) =~= groups_map(gs).insert(g.prefix@, shorts_view(g.shorts@)),
{
    let ws = gs.update(i, g);
    assert(prefixes_distinct(ws)) by {
        assert forall|a: int, b: int|
            0 <= a < ws.len() && 0 <= b < ws.len() && a != b implies #[trigger] ws[a].prefix@
            != #[trigger] ws[b].prefix@ by {
            assert(gs[a].prefix@ != gs[b].prefix@);
        }
    }
    assert forall|k: Seq<char>| has_group(ws, k) == (has_group(gs, k) || k == g.prefix@) by {
        if has_group(gs, k) {
            let c = choose|c: int| 0 <= c < gs.len() && #[trigger] gs[c].prefix@ == k;
            assert(ws[c].prefix@ == k);
        }
        if has_group(ws, k) {
            let c = choose|c: int| 0 <= c < ws.len() && #[trigger] ws[c].prefix@ == k;
            assert(gs[c].prefix@ == k);
        }
        if k == g.prefix@ {
            assert(ws[i].prefix@ == k);
        }
    }
    assert forall|k: Seq<char>| #[trigger] groups_map(ws).contains_key(k) implies groups_map(ws)[k]
        == groups_map(gs).insert(g.prefix@, shorts_view(g.shorts@))[k] by {
        let c = choose|c: int| 0 <= c < ws.len() && #[trigger] ws[c].prefix@ == k;
        lemma_groups_map_at(ws, c);
        if c != i {
            lemma_groups_map_at(gs, c);
        }
    }
}

/// Adding a group whose prefix is new.
proof fn lemma_groups_map_push(gs: Seq<GroupedShorts>, g: GroupedShorts)
    requires
        prefixes_distinct(gs),
        !has_group(gs, g.prefix@),
    ensures
        prefixes_distinct(gs.push(g)),
        groups_map(gs.push(g)) =~= groups_map(gs).insert(g.prefix@, shorts_view(g.shorts@)),
{
    let ws = gs.push(g);
    assert(prefixes_distinct(ws)) by {
        assert forall|a: int, b: int|
            0 <= a < ws.len() && 0 <= b < ws.len() && a != b implies #[trigger] ws[a].prefix@
            != #[trigger] ws[b].prefix@ by {
            if a < gs.len() && b < gs.len() {
                assert(gs[a].prefix@ != gs[b].prefix@);
            } else if a < gs.len() {
                assert(gs[a].prefix@ != g.prefix@);
            } else if b < gs.len() {
                assert(gs[b].prefix@ != g.prefix@);
            }
        }
    }
    assert forall|k: Seq<char>| has_group(ws, k) == (has_group(gs, k) || k == g.prefix@) by {
        if has_group(gs, k) {
            let c = choose|c: int| 0 <= c < gs.len() && #[trigger] gs[c].prefix@ == k;
            assert(ws[c].prefix@ == k);
        }
        if has_group(ws, k) {
            let c = choose|c: int| 0 <= c < ws.len() && #[trigger] ws[c].prefix@ == k;
            if c < gs.len() {
                assert(gs[c].prefix@ == k);
            }
        }
        if k == g.prefix@ {
            assert(ws[gs.len() as int].prefix@ == k);
        }
    }
    assert forall|k: Seq<char>| #[trigger] groups_map(ws).contains_key(k) implies groups_map(ws)[k]
        == groups_map(gs).insert(g.prefix@, shorts_view(g.shorts@))[k] by {
        let c = choose|c: int| 0 <= c < ws.len() && #[trigger] ws[c].prefix@ == k;
        lemma_groups_map_at(ws, c);
        if c < gs.len() {
            lemma_groups_map_at(gs, c);
        }
    }
}

/// The index of the group with the given prefix, if there is one.
pub(crate) fn find_group(gs: &Vec<GroupedShorts>, prefix: &String) -> (res: Option<usize>)
    ensures
        match res {
            Some(i) => i < gs@.len() && gs@[i as int].prefix@ == prefix@,
            None => !has_group(gs@, prefix@),
        },
{
    let n = gs.len();
    let mut i: usize = 0;
    while i < n
        invariant
            n == gs@.len(),
            i <= n,
            forall|j: int| 0 <= j < i ==> #[trigger] gs@[j].prefix@ != prefix@,
        decreases n - i,
    {
        if gs[i].prefix == *prefix {
            return Some(i);
        }
        i += 1;
    }
    None
}

/// Every short of every group has one variable per name.
pub open spec fn short_vars_distinct(gs: Seq<GroupedShorts>) -> bool {
    forall|g: int, s: int|
        0 <= g < gs.len() && 0 <= s < gs[g].shorts@.len() ==> names_distinct(
            #[trigger] gs[g].shorts@[s].vars@,
        )
}

/// The shorts of a group after `short` joins the group of `key`.
pub open spec fn joined(groups: Map<Seq<char>, Seq<ShortSpec>>, key: Seq<char>, short: ShortSpec) -> Seq<
    ShortSpec,
> {
    if groups.contains_key(key) {
        groups[key].push(short)
    } else {
        seq![short]
    }
}

/// Appends `short` to the group of `key`, opening that group if needed.
fn add_to_group(groups: &mut Vec<GroupedShorts>, key: String, short: Short)
    requires
        prefixes_distinct(old(groups)@),
        short_vars_distinct(old(groups)@),
        names_distinct(short.vars@),
    ensures
        prefixes_distinct(final(groups)@),
        short_vars_distinct(final(groups)@),
        groups_map(final(groups)@) == groups_map(old(groups)@).insert(
            key@,
            joined(groups_map(old(groups)@), key@, short@),
        ),
{
    let ghost sv = short@;
    let ghost old_gs = groups@;
    match find_group(groups, &key) {
        Some(i) => {
            let mut g = groups.remove(i);
            let ghost old_shorts = g.shorts@;
            g.shorts.push(short);
            proof {
                lemma_groups_map_at(old_gs, i as int);
                assert(shorts_view(g.shorts@) =~= shorts_view(old_shorts).push(sv));
                lemma_groups_map_update(old_gs, i as int, g);
            }
            groups.insert(i, g);
            assert(groups@ =~= old_gs.update(i as int, g));
            assert forall|a: int, b: int|
                0 <= a < groups@.len() && 0 <= b < groups@[a].shorts@.len() implies names_distinct(
                #[trigger] groups@[a].shorts@[b].vars@,
            ) by {
                if a != i {
                    assert(groups@[a] == old_gs[a]);
                } else if b < old_shorts.len() {
                    assert(groups@[a].shorts@[b] == old_shorts[b]);
                }
            }
        },
        None => {
            let g = GroupedShorts { prefix: key, shorts: vec![short] };
            proof {
                assert(shorts_view(g.shorts@) =~= seq![sv]);
                lemma_groups_map_push(old_gs, g);
            }
            groups.push(g);
            assert forall|a: int, b: int|
                0 <= a < groups@.len() && 0 <= b < groups@[a].shorts@.len() implies names_distinct(
                #[trigger] groups@[a].shorts@[b].vars@,
            ) by {
                if a < old_gs.len() {
                    assert(groups@[a] == old_gs[a]);
                }
            }
        },
    }
}

// ---------------------------------------------------------------------------
// Assembling the configuration
// ---------------------------------------------------------------------------

/// The configuration being assembled, and the reports of the shorts whose
/// content could not be tokenized.
pub struct BuildSpec {
    pub max_len: nat,
    pub groups: Map<Seq<char>, Seq<ShortSpec>>,
    pub vars: Map<Seq<char>, Seq<char>>,
    pub conf_paths: Seq<Seq<char>>,
    pub reports: Seq<Seq<char>>,
}

/// The length of a text in UTF-8 bytes.
pub open spec fn byte_len(s: Seq<char>) -> nat {
    encode_utf8(s).len()
}

/// The group a short joins: the file's prefix, or else the first character
/// of the short's name.
pub open spec fn group_key(prefix: Option<String>, name: Seq<char>) -> Seq<char> {
    match prefix {
        Some(p) => p@,
        None => name.take(1),
    }
}

/// What the user types for a short: the file's prefix, if it has one,
/// followed by the short's name.
pub open spec fn full_name(prefix: Option<String>, name: Seq<char>) -> Seq<char> {
    match prefix {
        Some(p) => p@ + name,
        None => name,
    }
}

/// The report for a short whose content could not be tokenized.
pub open spec fn report_spec(e: ErrorSpec, path: Seq<char>, name: Seq<char>) -> Seq<char> {
    if e.kind is MissingArgs {
        render_spec(e, path, name)
    } else {
        message_spec(e)
    }
}

/// The state after the short `cs` of a file with prefix `prefix`.
pub open spec fn add_short(st: BuildSpec, prefix: Option<String>, cs: ConfigShort) -> BuildSpec {
    let name = full_name(prefix, cs.name@);
    let key = group_key(prefix, cs.name@);
    let max_len = if byte_len(name) > st.max_len {
        byte_len(name)
    } else {
        st.max_len
    };
    match tokenize_spec(cs.content@) {
        Scan::Done(ts, _f) => {
            let short = ShortSpec {
                path_idx: (st.conf_paths.len() - 1) as nat,
                name: name,
                tokens: ts,
                kind: match cs.kind {
                    Some(k) => k,
                    None => ShortKind::Text,
                },
                vars: insert_vars(Map::empty(), opt_vars(cs.vars)),
                enter: match cs.enter {
                    Some(b) => b,
                    None => false,
                },
            };
            BuildSpec {
                max_len: max_len,
                groups: st.groups.insert(key, joined(st.groups, key, short)),
                vars: st.vars,
                conf_paths: st.conf_paths,
                reports: st.reports,
            }
        },
        Scan::Failed(e, _f) => BuildSpec {
            max_len: max_len,
            groups: st.groups,
            vars: st.vars,
            conf_paths: st.conf_paths,
            reports: st.reports.push(report_spec(e, st.conf_paths.last(), cs.name@)),
        },
        Scan::Fault => BuildSpec {
            max_len: max_len,
            groups: st.groups,
            vars: st.vars,
            conf_paths: st.conf_paths,
            reports: st.reports,
        },
    }
}

/// The state after each short of `shorts` in turn.
pub open spec fn add_shorts(st: BuildSpec, prefix: Option<String>, shorts: Seq<ConfigShort>) -> BuildSpec
    decreases shorts.len(),
{
    if shorts.len() == 0 {
        st
    } else {
        add_short(add_shorts(st, prefix, shorts.drop_last()), prefix, shorts.last())
    }
}

/// The state once the file `f` is opened: its path recorded and its
/// variables set.
pub open spec fn open_file(st: BuildSpec, f: ConfigFile) -> BuildSpec {
    BuildSpec {
        max_len: st.max_len,
        groups: st.groups,
        vars: insert_vars(st.vars, opt_vars(f.vars)),
        conf_paths: st.conf_paths.push(f.path@),
        reports: st.reports,
    }
}

pub open spec fn add_file(st: BuildSpec, f: ConfigFile) -> BuildSpec {
    add_shorts(open_file(st, f), f.prefix, f.shorts@)
}

pub open spec fn empty_build() -> BuildSpec {
    BuildSpec {
        max_len: 0,
        groups: Map::empty(),
        vars: Map::empty(),
        conf_paths: Seq::empty(),
        reports: Seq::empty(),
    }
}

/// The configuration assembled from the files in order.
pub open spec fn build_spec(files: Seq<ConfigFile>) -> BuildSpec
    decreases files.len(),
{
    if files.len() == 0 {
        empty_build()
    } else {
        add_file(build_spec(files.drop_last()), files.last())
    }
}

/// The short `cs` of a file with prefix `prefix` can be taken in: without a
/// prefix its name starts with a one-byte character; its content tokenizes
/// to an end; its full name's length in bytes fits in a `usize`.
pub open spec fn short_ready(prefix: Option<String>, cs: ConfigShort) -> bool {
    &&& (prefix is None ==> cs.name@.len() > 0 && (cs.name@[0] as u32) < 0x80)
    &&& !(tokenize_spec(cs.content@) is Fault)
    &&& byte_len(full_name(prefix, cs.name@)) <= usize::MAX
}

/// Every short of every file can be taken in.
pub open spec fn build_ready(files: Seq<ConfigFile>) -> bool {
    forall|i: int, j: int|
        0 <= i < files.len() && 0 <= j < files[i].shorts@.len() ==> short_ready(
            files[i].prefix,
            #[trigger] files[i].shorts@[j],
        )
}

/// The exec state seen as a [`BuildSpec`].
spec fn state_view(
    max_len: usize,
    groups: Seq<GroupedShorts>,
    vars: Seq<Var>,
    paths: Seq<String>,
    reports: Seq<String>,
) -> BuildSpec {
    BuildSpec {
        max_len: max_len as nat,
        groups: groups_map(groups),
        vars: vars_map(vars),
        conf_paths: strings_view(paths),
        reports: strings_view(reports),
    }
}

fn copy_string(s: &String) -> (res: String)
    ensures
        res@ == s@,
{
    s.clone()
}

/// Assembles the configuration from the files, in order: each file's path
/// is recorded and its variables set (a later variable of a name replaces
/// an earlier one); each short joins the group of its prefix under its full
/// name, with its content tokenized. A short whose content does not tokenize
/// is left out and reported instead, in order.
pub fn build_config(configs: &Vec<ConfigFile>) -> (res: (Config, Vec<String>))
    requires
        build_ready(configs@),
    ensures
        res.0.wf(),
        res.0@ == (ConfigSpec {
            max_len: build_spec(configs@).max_len,
            groups: build_spec(configs@).groups,
            vars: build_spec(configs@).vars,
            conf_paths: build_spec(configs@).conf_paths,
        }),
        strings_view(res.1@) == build_spec(configs@).reports,
{
    let mut max_len: usize = 0;
    let mut groups: Vec<GroupedShorts> = Vec::new();
    let mut vars: Vec<Var> = Vec::new();
    let mut conf_paths: Vec<String> = Vec::new();
    let mut reports: Vec<String> = Vec::new();
    let n = configs.len();
    let mut i: usize = 0;
    proof {
        assert(configs@.take(0) =~= Seq::<ConfigFile>::empty());
        assert(groups_map(groups@) =~= Map::empty());
        assert(vars_map(vars@) =~= Map::empty());
        assert(strings_view(conf_paths@) =~= Seq::empty());
        assert(strings_view(reports@) =~= Seq::empty());
    }
    while i < n
        invariant
            n == configs@.len(),
            i <= n,
            build_ready(configs@),
            prefixes_distinct(groups@),
            short_vars_distinct(groups@),
            names_distinct(vars@),
            state_view(max_len, groups@, vars@, conf_paths@, reports@) == build_spec(
                configs@.take(i as int),
            ),
        decreases n - i,
    {
        let file = &configs[i];
        let ghost before = build_spec(configs@.take(i as int));
        insert_all_vars(&mut vars, &file.vars);
        conf_paths.push(copy_string(&file.path));
        assert(strings_view(conf_paths@) =~= before.conf_paths.push(file.path@));
        let ghost opened = open_file(before, *file);
        let m = file.shorts.len();
        let mut j: usize = 0;
        assert(file.shorts@.take(0) =~= Seq::<ConfigShort>::empty());
        while j < m
            invariant
                n == configs@.len(),
                i < n,
                file == &configs@[i as int],
                m == file.shorts@.len(),
                j <= m,
                build_ready(configs@),
                prefixes_distinct(groups@),
                short_vars_distinct(groups@),
                names_distinct(vars@),
                conf_paths@.len() > 0,
                strings_view(conf_paths@).last() == file.path@,
                state_view(max_len, groups@, vars@, conf_paths@, reports@) == add_shorts(
                    opened,
                    file.prefix,
                    file.shorts@.take(j as int),
                ),
            decreases m - j,
        {
            let cs = &file.shorts[j];
            let ghost st = state_view(max_len, groups@, vars@, conf_paths@, reports@);
            assert(short_ready(file.prefix, *cs));
            let (key, name) = match &file.prefix {
                Some(p) => {
                    let mut full = copy_string(p);
                    full.append(cs.name.as_str());
                    (copy_string(p), full)
                },
                None => {
                    let cs_chars = chars_of(cs.name.as_str());
                    let mut key = String::new();
                    push_char(&mut key, cs_chars[0]);
                    assert(key@ =~= cs.name@.take(1));
                    (key, copy_string(&cs.name))
                },
            };
            let width = name.as_str().len();
            if width > max_len {
                max_len = width;
            }
            match tokenize_content(cs.content.as_str()) {
                Some(Ok(tokens)) => {
                    let mut short_vars: Vec<Var> = Vec::new();
                    proof {
                        assert(vars_map(short_vars@) =~= Map::empty());
                    }
                    insert_all_vars(&mut short_vars, &cs.vars);
                    let kind = match cs.kind {
                        Some(k) => k,
                        None => ShortKind::Text,
                    };
                    let enter = match cs.enter {
                        Some(b) => b,
                        None => false,
                    };
                    let short = Short {
                        path_idx: conf_paths.len() - 1,
                        name,
                        tokens,
                        kind,
                        vars: short_vars,
                        enter,
                    };
                    add_to_group(&mut groups, key, short);
                },
                Some(Err(e)) => {
                    proof {
                        lemma_reported_errors_render(cs.content@);
                    }
                    let report = match &e {
                        TokenizerError::MissingArgs { .. } => e.render_missing_args(
                            file.path.as_str(),
                            cs.name.as_str(),
                        ),
                        TokenizerError::UnknownFunc { .. } => e.message(),
                    };
                    reports.push(report);
                    assert(strings_view(reports@) =~= st.reports.push(report@));
                },
                None => {
                    assert(false);
                },
            }
            assert(file.shorts@.take(j + 1).drop_last() =~= file.shorts@.take(j as int));
            j += 1;
        }
        assert(file.shorts@.take(m as int) =~= file.shorts@);
        assert(configs@.take(i + 1).drop_last() =~= configs@.take(i as int));
        i += 1;
    }
    assert(configs@.take(n as int) =~= configs@);
    let config = Config { max_len, groups, vars, conf_paths };
    (config, reports)
}

/// Whether the short `cs` of a file with prefix `prefix` can be taken in.
fn short_is_ready(prefix: &Option<String>, cs: &ConfigShort) -> (res: bool)
    ensures
        res == short_ready(*prefix, *cs),
{
    let name_ok = match prefix {
        Some(_) => true,
        None => {
            let cs_chars = chars_of(cs.name.as_str());
            cs_chars.len() > 0 && (cs_chars[0] as u32) < 0x80
        },
    };
    let tokenizes = tokenize_content(cs.content.as_str()).is_some();
    let name_bytes = utf8_len_checked(cs.name.as_str());
    let fits = match prefix {
        Some(p) => {
            let prefix_bytes = utf8_len_checked(p.as_str());
            proof {
                lemma_encode_concat(p@, cs.name@);
            }
            match (prefix_bytes, name_bytes) {
                (Some(a), Some(b)) => a.checked_add(b).is_some(),
                _ => false,
            }
        },
        None => name_bytes.is_some(),
    };
    name_ok && tokenizes && fits
}

/// Whether [`build_config`] can take in all of the files: see
/// [`build_ready`].
pub fn config_ready(configs: &Vec<ConfigFile>) -> (res: bool)
    ensures
        res == build_ready(configs@),
{
    let n = configs.len();
    let mut i: usize = 0;
    while i < n
        invariant
            n == configs@.len(),
            i <= n,
            forall|a: int, b: int|
                0 <= a < i && 0 <= b < configs@[a].shorts@.len() ==> short_ready(
                    configs@[a].prefix,
                    #[trigger] configs@[a].shorts@[b],
                ),
        decreases n - i,
    {
        let file = &configs[i];
        let m = file.shorts.len();
        let mut j: usize = 0;
        while j < m
            invariant
                n == configs@.len(),
                i < n,
                file == &configs@[i as int],
                m == file.shorts@.len(),
                j <= m,
                forall|a: int, b: int|
                    0 <= a < i && 0 <= b < configs@[a].shorts@.len() ==> short_ready(
                        configs@[a].prefix,
                        #[trigger] configs@[a].shorts@[b],
                    ),
                forall|b: int| 0 <= b < j ==> short_ready(file.prefix, #[trigger] file.shorts@[b]),
            decreases m - j,
        {
            if !short_is_ready(&file.prefix, &file.shorts[j]) {
                return false;
            }
            j += 1;
        }
        i += 1;
    }
    true
}

// ---------------------------------------------------------------------------
// Laws
// ---------------------------------------------------------------------------

/// `p` starts `s`.
pub open spec fn starts_with(s: Seq<char>, p: Seq<char>) -> bool {
    p.len() <= s.len() && s.subrange(0, p.len() as int) == p
}

/// What holds of every short in an assembled configuration: its name starts
/// with the prefix of its group, its length in bytes is at most `max_len`,
/// and it refers to a recorded file.
pub open spec fn shorts_consistent(st: BuildSpec) -> bool {
    forall|k: Seq<char>, s: int|
        #![trigger st.groups[k][s]]
        st.groups.contains_key(k) && 0 <= s < st.groups[k].len() ==> {
            &&& starts_with(st.groups[k][s].name, k)
            &&& byte_len(st.groups[k][s].name) <= st.max_len
            &&& st.groups[k][s].path_idx < st.conf_paths.len()
        }
}

proof fn lemma_add_short_consistent(st: BuildSpec, prefix: Option<String>, cs: ConfigShort)
    requires
        shorts_consistent(st),
        st.conf_paths.len() > 0,
        short_ready(prefix, cs),
    ensures
        shorts_consistent(add_short(st, prefix, cs)),
        add_short(st, prefix, cs).conf_paths == st.conf_paths,
        add_short(st, prefix, cs).max_len >= st.max_len,
{
    let post = add_short(st, prefix, cs);
    let name = full_name(prefix, cs.name@);
    let key = group_key(prefix, cs.name@);
    assert(starts_with(name, key)) by {
        match prefix {
            Some(p) => {
                assert((p@ + cs.name@).subrange(0, p@.len() as int) =~= p@);
            },
            None => {
                assert(cs.name@.subrange(0, 1) =~= cs.name@.take(1));
            },
        }
    }
    assert forall|k: Seq<char>, s: int|
        #![trigger post.groups[k][s]]
        post.groups.contains_key(k) && 0 <= s < post.groups[k].len() implies {
        &&& starts_with(post.groups[k][s].name, k)
        &&& byte_len(post.groups[k][s].name) <= post.max_len
        &&& post.groups[k][s].path_idx < post.conf_paths.len()
    } by {
        if k != key || !(tokenize_spec(cs.content@) is Done) {
            assert(post.groups[k] == st.groups[k]);
            assert(st.groups[k][s] == post.groups[k][s]);
        } else if st.groups.contains_key(key) && s < st.groups[key].len() {
            assert(post.groups[k][s] == st.groups[k][s]);
        }
    }
}

proof fn lemma_add_shorts_consistent(st: BuildSpec, prefix: Option<String>, shorts: Seq<ConfigShort>)
    requires
        shorts_consistent(st),
        st.conf_paths.len() > 0,
        forall|j: int| 0 <= j < shorts.len() ==> short_ready(prefix, #[trigger] shorts[j]),
    ensures
        shorts_consistent(add_shorts(st, prefix, shorts)),
        add_shorts(st, prefix, shorts).conf_paths == st.conf_paths,
    decreases shorts.len(),
{
    if shorts.len() > 0 {
        let init = shorts.drop_last();
        assert forall|j: int| 0 <= j < init.len() implies short_ready(prefix, #[trigger] init[j]) by {
            assert(init[j] == shorts[j]);
        }
        lemma_add_shorts_consistent(st, prefix, init);
        assert(short_ready(prefix, shorts[shorts.len() - 1]));
        lemma_add_short_consistent(add_shorts(st, prefix, init), prefix, shorts.last());
    }
}

/// The paths of the files in order.
pub open spec fn file_paths(files: Seq<ConfigFile>) -> Seq<Seq<char>> {
    files.map_values(|f: ConfigFile| f.path@)
}

/// An assembled configuration records the files' paths in order, and each
/// of its shorts has a name that starts with the prefix of its group, is at
/// most `max_len` bytes long, and refers to a recorded file.
pub proof fn lemma_config_consistent(files: Seq<ConfigFile>)
    requires
        build_ready(files),
    ensures
        shorts_consistent(build_spec(files)),
        build_spec(files).conf_paths == file_paths(files),
    decreases files.len(),
{
    if files.len() == 0 {
        assert(file_paths(files) =~= Seq::<Seq<char>>::empty());
    } else {
        let init = files.drop_last();
        assert(build_ready(init)) by {
            assert forall|i: int, j: int|
                0 <= i < init.len() && 0 <= j < init[i].shorts@.len() implies short_ready(
                init[i].prefix,
                #[trigger] init[i].shorts@[j],
            ) by {
                assert(init[i] == files[i]);
            }
        }
        lemma_config_consistent(init);
        let f = files.last();
        let opened = open_file(build_spec(init), f);
        assert forall|j: int| 0 <= j < f.shorts@.len() implies short_ready(
            f.prefix,
            #[trigger] f.shorts@[j],
        ) by {
            assert(files[files.len() - 1] == f);
        }
        lemma_add_shorts_consistent(opened, f.prefix, f.shorts@);
        assert(file_paths(files) =~= file_paths(init).push(f.path@));
    }
}

/// The short that a configuration entry whose content tokenizes adds: it
/// joins the end of the group of its key under its full name, with the
/// tokens of its content, its kind (text where none is given), the file
/// opened last, and the enter flag it gives (false where none is given).
/// No other group, variable, path or report changes.
pub proof fn lemma_added_short(
    st: BuildSpec,
    prefix: Option<String>,
    cs: ConfigShort,
    ts: Seq<TokenSpec>,
    f: nat,
)
    requires
        st.conf_paths.len() > 0,
        tokenize_spec(cs.content@) == Scan::Done(ts, f),
    ensures
        ({
            let after = add_short(st, prefix, cs);
            let key = group_key(prefix, cs.name@);
            let group = after.groups[key];
            let added = group.last();
            &&& after.groups.contains_key(key)
            &&& group.len() > 0
            &&& group.drop_last() == (if st.groups.contains_key(key) {
                st.groups[key]
            } else {
                Seq::empty()
            })
            &&& added.name == full_name(prefix, cs.name@)
            &&& added.tokens == ts
            &&& added.kind == (if cs.kind == Some(ShortKind::File) {
                ShortKind::File
            } else {
                ShortKind::Text
            })
            &&& added.enter == (cs.enter == Some(true))
            &&& added.path_idx == st.conf_paths.len() - 1
            &&& forall|k: Seq<char>|
                k != key ==> (#[trigger] after.groups.contains_key(k) == st.groups.contains_key(k)
                    && after.groups[k] == st.groups[k])
            &&& after.vars == st.vars
            &&& after.conf_paths == st.conf_paths
            &&& after.reports == st.reports
        }),
{
    let key = group_key(prefix, cs.name@);
    let after = add_short(st, prefix, cs);
    if st.groups.contains_key(key) {
        assert(after.groups[key].drop_last() =~= st.groups[key]);
    } else {
        assert(after.groups[key].drop_last() =~= Seq::<ShortSpec>::empty());
    }
}

proof fn lemma_add_shorts_keeps_paths(st: BuildSpec, prefix: Option<String>, shorts: Seq<ConfigShort>)
    ensures
        add_shorts(st, prefix, shorts).conf_paths == st.conf_paths,
    decreases shorts.len(),
{
    if shorts.len() > 0 {
        lemma_add_shorts_keeps_paths(st, prefix, shorts.drop_last());
    }
}

proof fn lemma_build_paths_len(files: Seq<ConfigFile>)
    ensures
        build_spec(files).conf_paths.len() == files.len(),
    decreases files.len(),
{
    if files.len() > 0 {
        let init = files.drop_last();
        lemma_build_paths_len(init);
        lemma_add_shorts_keeps_paths(open_file(build_spec(init), files.last()), files.last().prefix, files.last().shorts@);
    }
}

/// In the configuration assembled from `files`, the last short of the last
/// file, where its content tokenizes, is the last of its group, with the
/// tokens of its content, the kind and the enter flag it gives (text and
/// false where none is given), and the index of the last file.
pub proof fn lemma_last_short_built(files: Seq<ConfigFile>, ts: Seq<TokenSpec>, f: nat)
    requires
        files.len() > 0,
        files.last().shorts@.len() > 0,
        tokenize_spec(files.last().shorts@.last().content@) == Scan::Done(ts, f),
    ensures
        ({
            let file = files.last();
            let cs = file.shorts@.last();
            let groups = build_spec(files).groups;
            let key = group_key(file.prefix, cs.name@);
            let added = groups[key].last();
            &&& groups.contains_key(key)
            &&& groups[key].len() > 0
            &&& added.name == full_name(file.prefix, cs.name@)
            &&& added.tokens == ts
            &&& added.kind == (if cs.kind == Some(ShortKind::File) {
                ShortKind::File
            } else {
                ShortKind::Text
            })
            &&& added.enter == (cs.enter == Some(true))
            &&& added.path_idx == files.len() - 1
        }),
{
    let init = files.drop_last();
    let file = files.last();
    let opened = open_file(build_spec(init), file);
    let before = add_shorts(opened, file.prefix, file.shorts@.drop_last());
    lemma_build_paths_len(init);
    lemma_add_shorts_keeps_paths(opened, file.prefix, file.shorts@.drop_last());
    lemma_added_short(before, file.prefix, file.shorts@.last(), ts, f);
}

/// Which shorts can be taken in. A short of a file without a prefix is, where
/// its name is not empty and starts with a one-byte character; a short of a
/// file with a prefix is, whatever its name; in both cases where its content
/// scans without fault and its full name's length in bytes fits in a
/// `usize`. A short without a prefix whose name is empty or starts with a
/// wider character is not; neither is a short whose content faults.
pub proof fn lemma_when_short_ready(prefix: Option<String>, cs: ConfigShort)
    ensures
        prefix is None && cs.name@.len() > 0 && (cs.name@[0] as u32) < 0x80 && !(tokenize_spec(
            cs.content@,
        ) is Fault) && byte_len(cs.name@) <= usize::MAX ==> short_ready(prefix, cs),
        prefix matches Some(p) && !(tokenize_spec(cs.content@) is Fault) && byte_len(p@ + cs.name@)
            <= usize::MAX ==> short_ready(prefix, cs),
        prefix is None && (cs.name@.len() == 0 || (cs.name@[0] as u32) >= 0x80) ==> !short_ready(
            prefix,
            cs,
        ),
        tokenize_spec(cs.content@) is Fault ==> !short_ready(prefix, cs),
{
}

} // verus!
