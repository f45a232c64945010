//! Resolution of a short's tokens into the text it expands to.
//!
//! Variables are resolved here, recursively; the current time is formatted
//! here. Embedded files are not read here: their places are marked with
//! [`Piece::Embed`], and the caller reads each file and resolves its content
//! with [`resolve_content`] at the depth the piece gives.

use std::fmt::Write;
use vstd::prelude::*;

use crate::config::{find_var_index, lemma_var_value, names_distinct, vars_map, Config, Short};
use crate::text::push_char;
use crate::tokenizer::{
    tokenize_content, tokenize_spec, tokens_view, ErrorSpec, FuncKind, FuncSpec, Scan, ShortToken,
    TokenSpec, TokenizerError,
};

verus! {

/// An instant read from the local clock: seconds and nanoseconds since the
/// Unix epoch, and the offset of local time from UTC in seconds.
#[derive(Debug, Clone, Copy)]
pub struct LocalTime {
    pub secs: i64,
    pub nanos: u32,
    pub offset_secs: i32,
}

/// What chrono writes for the instant `secs`/`nanos` seen at UTC offset
/// `offset`, formatted with the strftime-like format `fmt`; `None` where the
/// instant or the offset is out of chrono's range or the format is invalid.
pub uninterp spec fn chrono_format(secs: i64, nanos: u32, offset: i32, fmt: Seq<char>) -> Option<
    Seq<char>,
>;

/// Formats an instant with chrono (`DateTime::format`, written out through
/// `Display`).
///
/// Trusted: the result is what chrono writes for these arguments, or `None`
/// where chrono refuses the offset (`FixedOffset::east_opt` accepts only
/// offsets strictly between -86400 and 86400 seconds, as stated), the
/// instant (`DateTime::from_timestamp`, outside chrono's date range) or the
/// format (its `Display` returns an error). What chrono writes, and the exact
/// date range, are not stated; the result is named by [`chrono_format`].
#[verifier::external_body]
fn format_time(secs: i64, nanos: u32, offset: i32, fmt: &str) -> (res: Option<String>)
    ensures
        !(-86400 < offset < 86400) ==> res is None,
        match res {
            Some(s) => chrono_format(secs, nanos, offset, fmt@) == Some(s@),
            None => chrono_format(secs, nanos, offset, fmt@) is None,
        },
{
    let zone = chrono::FixedOffset::east_opt(offset)?;
    let instant = chrono::DateTime::from_timestamp(secs, nanos)?;
    let mut out = String::new();
    match write!(out, "{}", instant.with_timezone(&zone).format(fmt)) {
        Ok(()) => Some(out),
        Err(_) => None,
    }
}

/// A part of an expansion.
#[derive(Debug)]
pub enum Piece {
    /// Text to type.
    Text(String),
    /// The file at `path`, relative to the directory of the short's
    /// configuration file, whose content is to be resolved at `depth`.
    Embed { path: String, depth: usize },
    /// A variable that neither the short nor the configuration defines.
    MissingVar(String),
    /// Resolution stopped at this depth.
    DepthLimit(usize),
}

/// Why a resolution could not go on.
#[derive(Debug)]
pub enum ResolveError {
    /// The content of a variable cannot be tokenized to an end.
    Unreadable,
    /// The content of a variable holds a call that cannot be read.
    Tokenizer(TokenizerError),
    /// chrono cannot format the current time with this format.
    TimeFormat(String),
}

/// Model of [`Piece`].
pub enum PieceSpec {
    Text(Seq<char>),
    Embed(Seq<char>, nat),
    MissingVar(Seq<char>),
    DepthLimit(nat),
}

/// Model of [`ResolveError`].
pub enum FailureSpec {
    Unreadable,
    Tokenizer(ErrorSpec),
    TimeFormat(Seq<char>),
}

/// A resolution: the pieces produced, in order, and the failure that stopped
/// it, if one did.
pub struct ResolvedSpec {
    pub pieces: Seq<PieceSpec>,
    pub failure: Option<FailureSpec>,
}

impl View for Piece {
    type V = PieceSpec;

    open spec fn view(&self) -> PieceSpec {
        match self {
            Piece::Text(s) => PieceSpec::Text(s@),
            Piece::Embed { path, depth } => PieceSpec::Embed(path@, *depth as nat),
            Piece::MissingVar(s) => PieceSpec::MissingVar(s@),
            Piece::DepthLimit(d) => PieceSpec::DepthLimit(*d as nat),
        }
    }
}

impl View for ResolveError {
    type V = FailureSpec;

    open spec fn view(&self) -> FailureSpec {
        match self {
            ResolveError::Unreadable => FailureSpec::Unreadable,
            ResolveError::Tokenizer(e) => FailureSpec::Tokenizer(e@),
            ResolveError::TimeFormat(f) => FailureSpec::TimeFormat(f@),
        }
    }
}

pub open spec fn pieces_view(ps: Seq<Piece>) -> Seq<PieceSpec> {
    ps.map_values(|p: Piece| p@)
}

pub open spec fn resolved_view(res: (Vec<Piece>, Option<ResolveError>)) -> ResolvedSpec {
    ResolvedSpec {
        pieces: pieces_view(res.0@),
        failure: match res.1 {
            Some(e) => Some(e@),
            None => None,
        },
    }
}

/// The deepest nesting of variables and embedded files that is resolved.
pub open spec fn depth_limit() -> nat {
    10
}

/// The value of the variable `name`: the short's own variable of that name
/// if it has one, else the configuration's.
pub open spec fn lookup_var(
    short_vars: Map<Seq<char>, Seq<char>>,
    vars: Map<Seq<char>, Seq<char>>,
    name: Seq<char>,
) -> Option<Seq<char>> {
    if short_vars.contains_key(name) {
        Some(short_vars[name])
    } else if vars.contains_key(name) {
        Some(vars[name])
    } else {
        None
    }
}

/// `first` followed by `second`, unless `first` already failed.
pub open spec fn then_resolve(first: ResolvedSpec, second: ResolvedSpec) -> ResolvedSpec {
    if first.failure is Some {
        first
    } else {
        ResolvedSpec { pieces: first.pieces + second.pieces, failure: second.failure }
    }
}

pub open spec fn done(pieces: Seq<PieceSpec>) -> ResolvedSpec {
    ResolvedSpec { pieces, failure: None }
}

pub open spec fn failed(f: FailureSpec) -> ResolvedSpec {
    ResolvedSpec { pieces: Seq::empty(), failure: Some(f) }
}

/// The resolution of `tokens` at nesting depth `depth`: text and newlines
/// give their text; `{embed}` marks its file; `{now}` gives the formatted
/// time; `{var}` gives the resolution of its value's tokens one level
/// deeper, or marks the variable as missing. At the depth limit nothing is
/// resolved and the limit is marked.
pub open spec fn resolve_spec(
    vars: Map<Seq<char>, Seq<char>>,
    short_vars: Map<Seq<char>, Seq<char>>,
    tokens: Seq<TokenSpec>,
    now: LocalTime,
    depth: nat,
) -> ResolvedSpec
    decreases depth_limit() - depth, tokens.len(),
{
    if depth >= depth_limit() {
        done(seq![PieceSpec::DepthLimit(depth)])
    } else if tokens.len() == 0 {
        done(Seq::empty())
    } else {
        let head = resolve_spec(vars, short_vars, tokens.drop_last(), now, depth);
        let last = match tokens.last() {
            TokenSpec::Text { value, .. } => done(seq![PieceSpec::Text(value)]),
            TokenSpec::NewLine { .. } => done(seq![PieceSpec::Text(seq!['\n'])]),
            TokenSpec::Func { func, .. } => match func {
                FuncSpec::Embed(path) => done(seq![PieceSpec::Embed(path, depth + 1)]),
                FuncSpec::Now(format) => match chrono_format(
                    now.secs,
                    now.nanos,
                    now.offset_secs,
                    format,
                ) {
                    Some(t) => done(seq![PieceSpec::Text(t)]),
                    None => failed(FailureSpec::TimeFormat(format)),
                },
                FuncSpec::Var(name) => match lookup_var(short_vars, vars, name) {
                    Some(value) => match tokenize_spec(value) {
                        Scan::Done(ts, _f) => resolve_spec(vars, short_vars, ts, now, depth + 1),
                        Scan::Failed(e, _f) => failed(FailureSpec::Tokenizer(e)),
                        Scan::Fault => failed(FailureSpec::Unreadable),
                    },
                    None => done(seq![PieceSpec::MissingVar(name)]),
                },
            },
        };
        then_resolve(head, last)
    }
}

/// The resolution of a content at nesting depth `depth`: its tokens
/// resolved, or the failure to tokenize it.
pub open spec fn resolve_content_spec(
    vars: Map<Seq<char>, Seq<char>>,
    short_vars: Map<Seq<char>, Seq<char>>,
    content: Seq<char>,
    now: LocalTime,
    depth: nat,
) -> ResolvedSpec {
    match tokenize_spec(content) {
        Scan::Done(ts, _f) => resolve_spec(vars, short_vars, ts, now, depth),
        Scan::Failed(e, _f) => failed(FailureSpec::Tokenizer(e)),
        Scan::Fault => failed(FailureSpec::Unreadable),
    }
}

/// Once a prefix of the tokens has failed, resolving more tokens changes
/// nothing.
proof fn lemma_failure_sticks(
    vars: Map<Seq<char>, Seq<char>>,
    short_vars: Map<Seq<char>, Seq<char>>,
    tokens: Seq<TokenSpec>,
    now: LocalTime,
    depth: nat,
    m: int,
)
    requires
        depth < depth_limit(),
        0 <= m <= tokens.len(),
        resolve_spec(vars, short_vars, tokens.take(m), now, depth).failure is Some,
    ensures
        resolve_spec(vars, short_vars, tokens, now, depth) == resolve_spec(
            vars,
            short_vars,
            tokens.take(m),
            now,
            depth,
        ),
    decreases tokens.len() - m,
{
    if m < tokens.len() {
        let next = tokens.take(m + 1);
        assert(next.drop_last() =~= tokens.take(m));
        lemma_failure_sticks(vars, short_vars, tokens, now, depth, m + 1);
    } else {
        assert(tokens.take(m) =~= tokens);
    }
}

fn newline() -> (res: String)
    ensures
        res@ == seq!['\n'],
{
    let mut s = String::new();
    push_char(&mut s, '\n');
    s
}

/// Resolves `tokens` of `short` at nesting depth `depth` (see
/// [`resolve_spec`]).
pub fn resolve_tokens(
    config: &Config,
    short: &Short,
    tokens: &Vec<ShortToken>,
    now: &LocalTime,
    depth: usize,
) -> (res: (Vec<Piece>, Option<ResolveError>))
    requires
        names_distinct(config.vars@),
        names_distinct(short.vars@),
    ensures
        resolved_view(res) == resolve_spec(
            vars_map(config.vars@),
            vars_map(short.vars@),
            tokens_view(tokens@),
            *now,
            depth as nat,
        ),
    decreases depth_limit() - depth, 1nat,
{
    let ghost vars = vars_map(config.vars@);
    let ghost svars = vars_map(short.vars@);
    let ghost tv = tokens_view(tokens@);
    if depth >= 10 {
        let res = vec![Piece::DepthLimit(depth)];
        assert(pieces_view(res@) =~= seq![PieceSpec::DepthLimit(depth as nat)]);
        return (res, None);
    }
    let mut pieces: Vec<Piece> = Vec::new();
    let n = tokens.len();
    let mut i: usize = 0;
    assert(tv.take(0) =~= Seq::<TokenSpec>::empty());
    assert(pieces_view(pieces@) =~= Seq::<PieceSpec>::empty());
    while i < n
        invariant
            n == tokens@.len(),
            tv == tokens_view(tokens@),
            vars == vars_map(config.vars@),
            svars == vars_map(short.vars@),
            names_distinct(config.vars@),
            names_distinct(short.vars@),
            depth < 10,
            i <= n,
            resolve_spec(vars, svars, tv.take(i as int), *now, depth as nat) == done(
                pieces_view(pieces@),
            ),
        decreases n - i,
    {
        let ghost before = pieces_view(pieces@);
        let ghost prefix = tv.take(i + 1);
        assert(prefix.drop_last() =~= tv.take(i as int));
        assert(prefix.last() == tokens@[i as int]@);
        let piece = match &tokens[i] {
            ShortToken::Text { value, .. } => Piece::Text(value.clone()),
            ShortToken::NewLine { .. } => Piece::Text(newline()),
            ShortToken::Func { func, .. } => match func {
                FuncKind::Embed { path } => Piece::Embed { path: path.clone(), depth: depth + 1 },
                FuncKind::Now { format } => {
                    match format_time(now.secs, now.nanos, now.offset_secs, format.as_str()) {
                        Some(t) => Piece::Text(t),
                        None => {
                            assert(before + Seq::<PieceSpec>::empty() =~= before);
                            let res = (pieces, Some(ResolveError::TimeFormat(format.clone())));
                            proof {
                                lemma_failure_sticks(vars, svars, tv, *now, depth as nat, i + 1);
                            }
                            return res;
                        },
                    }
                },
                FuncKind::Var { name } => {
                    let value = match find_var_index(&short.vars, name) {
                        Some(k) => {
                            proof {
                                lemma_var_value(short.vars@, k as int);
                            }
                            Some(&short.vars[k].value)
                        },
                        None => match find_var_index(&config.vars, name) {
                            Some(k) => {
                                proof {
                                    lemma_var_value(config.vars@, k as int);
                                }
                                Some(&config.vars[k].value)
                            },
                            None => None,
                        },
                    };
                    match value {
                        None => Piece::MissingVar(name.clone()),
                        Some(v) => {
                            let (mut more, failure) = resolve_content(
                                config,
                                short,
                                v.as_str(),
                                now,
                                depth + 1,
                            );
                            let ghost more_view = pieces_view(more@);
                            pieces.append(&mut more);
                            assert(pieces_view(pieces@) =~= before + more_view);
                            if failure.is_some() {
                                proof {
                                    lemma_failure_sticks(vars, svars, tv, *now, depth as nat, i + 1);
                                }
                                return (pieces, failure);
                            }
                            i += 1;
                            continue;
                        },
                    }
                },
            },
        };
        let ghost pv = piece@;
        pieces.push(piece);
        assert(pieces_view(pieces@) =~= before + seq![pv]);
        i += 1;
    }
    assert(tv.take(n as int) =~= tv);
    (pieces, None)
}

/// Tokenizes `content` and resolves its tokens for `short` at nesting depth
/// `depth` (see [`resolve_content_spec`]).
pub fn resolve_content(
    config: &Config,
    short: &Short,
    content: &str,
    now: &LocalTime,
    depth: usize,
) -> (res: (Vec<Piece>, Option<ResolveError>))
    requires
        names_distinct(config.vars@),
        names_distinct(short.vars@),
    ensures
        resolved_view(res) == resolve_content_spec(
            vars_map(config.vars@),
            vars_map(short.vars@),
            content@,
            *now,
            depth as nat,
        ),
    decreases depth_limit() - depth, 2nat,
{
    match tokenize_content(content) {
        Some(Ok(tokens)) => resolve_tokens(config, short, &tokens, now, depth),
        Some(Err(e)) => {
            let res: (Vec<Piece>, Option<ResolveError>) = (Vec::new(), Some(ResolveError::Tokenizer(e)));
            assert(pieces_view(res.0@) =~= Seq::<PieceSpec>::empty());
            res
        },
        None => {
            let res: (Vec<Piece>, Option<ResolveError>) = (Vec::new(), Some(ResolveError::Unreadable));
            assert(pieces_view(res.0@) =~= Seq::<PieceSpec>::empty());
            res
        },
    }
}

/// A content of plain text (see [`crate::tokenizer::lemma_plain_text`])
/// expands to itself.
pub proof fn lemma_plain_text_expands_to_itself(
    vars: Map<Seq<char>, Seq<char>>,
    short_vars: Map<Seq<char>, Seq<char>>,
    content: Seq<char>,
    now: LocalTime,
    depth: nat,
)
    requires
        depth < depth_limit(),
        content.len() >= 2,
        forall|k: int|
            0 <= k < content.len() ==> #[trigger] content[k] != '{' && content[k] != '\n' && content[k]
                != '\r' && content[k] != '\0',
    ensures
        resolve_content_spec(vars, short_vars, content, now, depth) == done(seq![PieceSpec::Text(content)]),
{
    crate::tokenizer::lemma_plain_text(content);
    let ts = seq![TokenSpec::Text { start: 0, end: content.len(), value: content }];
    assert(ts.drop_last() =~= Seq::<TokenSpec>::empty());
    assert(resolve_spec(vars, short_vars, ts.drop_last(), now, depth) == done(Seq::empty()));
    assert(Seq::<PieceSpec>::empty() + seq![PieceSpec::Text(content)] =~= seq![PieceSpec::Text(content)]);
}

/// Sequencing resolutions is associative.
proof fn lemma_then_assoc(a: ResolvedSpec, b: ResolvedSpec, c: ResolvedSpec)
    ensures
        then_resolve(then_resolve(a, b), c) == then_resolve(a, then_resolve(b, c)),
{
    if a.failure is None && b.failure is None {
        assert(a.pieces + b.pieces + c.pieces =~= a.pieces + (b.pieces + c.pieces));
    }
}

/// Resolving two token lists one after the other is resolving each and
/// joining the results, the first failure stopping the whole.
pub proof fn lemma_resolve_concat(
    vars: Map<Seq<char>, Seq<char>>,
    short_vars: Map<Seq<char>, Seq<char>>,
    a: Seq<TokenSpec>,
    b: Seq<TokenSpec>,
    now: LocalTime,
    depth: nat,
)
    requires
        depth < depth_limit(),
    ensures
        resolve_spec(vars, short_vars, a + b, now, depth) == then_resolve(
            resolve_spec(vars, short_vars, a, now, depth),
            resolve_spec(vars, short_vars, b, now, depth),
        ),
    decreases b.len(),
{
    let ra = resolve_spec(vars, short_vars, a, now, depth);
    if b.len() == 0 {
        assert(a + b =~= a);
        assert(ra.pieces + Seq::<PieceSpec>::empty() =~= ra.pieces);
    } else {
        let b0 = b.drop_last();
        lemma_resolve_concat(vars, short_vars, a, b0, now, depth);
        assert((a + b).drop_last() =~= a + b0);
        assert((a + b).last() == b.last());
        let rb0 = resolve_spec(vars, short_vars, b0, now, depth);
        let whole = resolve_spec(vars, short_vars, a + b, now, depth);
        let rb = resolve_spec(vars, short_vars, b, now, depth);
        let single = resolve_spec(vars, short_vars, seq![b.last()], now, depth);
        assert(seq![b.last()].drop_last() =~= Seq::<TokenSpec>::empty());
        assert(seq![b.last()].last() == b.last());
        assert(resolve_spec(vars, short_vars, seq![b.last()].drop_last(), now, depth) == done(
            Seq::<PieceSpec>::empty(),
        ));
        assert(resolve_spec(vars, short_vars, (a + b).drop_last(), now, depth) == then_resolve(ra, rb0));
        assert forall|x: ResolvedSpec| #[trigger] then_resolve(done(Seq::empty()), x) == x by {
            assert(Seq::<PieceSpec>::empty() + x.pieces =~= x.pieces);
        }
        lemma_then_assoc(ra, rb0, single);
        assert(whole == then_resolve(then_resolve(ra, rb0), single));
        assert(rb == then_resolve(rb0, single));
    }
}

/// What one token resolves to, at every depth below the limit: plain text
/// gives its text, a newline gives `"\n"`, `{embed PATH}` marks `PATH` one
/// level deeper, `{now FORMAT}` gives what chrono writes (or fails where
/// chrono cannot format), and `{var NAME}` for a name that neither the short
/// nor the configuration defines is marked as missing.
pub proof fn lemma_single_token(
    vars: Map<Seq<char>, Seq<char>>,
    short_vars: Map<Seq<char>, Seq<char>>,
    t: TokenSpec,
    now: LocalTime,
    depth: nat,
)
    requires
        depth < depth_limit(),
    ensures
        ({
            let r = resolve_spec(vars, short_vars, seq![t], now, depth);
            match t {
                TokenSpec::Text { value, .. } => r == done(seq![PieceSpec::Text(value)]),
                TokenSpec::NewLine { .. } => r == done(seq![PieceSpec::Text(seq!['\n'])]),
                TokenSpec::Func { func, .. } => match func {
                    FuncSpec::Embed(path) => r == done(seq![PieceSpec::Embed(path, depth + 1)]),
                    FuncSpec::Now(format) => match chrono_format(now.secs, now.nanos, now.offset_secs, format) {
                        Some(text) => r == done(seq![PieceSpec::Text(text)]),
                        None => r == failed(FailureSpec::TimeFormat(format)),
                    },
                    FuncSpec::Var(name) => (!short_vars.contains_key(name) && !vars.contains_key(name))
                        ==> r == done(seq![PieceSpec::MissingVar(name)]),
                },
            }
        }),
{
    let ts = seq![t];
    assert(ts.drop_last() =~= Seq::<TokenSpec>::empty());
    assert(ts.last() == t);
    assert(resolve_spec(vars, short_vars, ts.drop_last(), now, depth) == done(Seq::<PieceSpec>::empty()));
    assert forall|x: ResolvedSpec| #[trigger] then_resolve(done(Seq::empty()), x) == x by {
        assert(Seq::<PieceSpec>::empty() + x.pieces =~= x.pieces);
    }
}

/// A variable of the short hides a configuration variable of the same name:
/// `{var NAME}` resolves the short's own value one level deeper, whether or
/// not the configuration defines `NAME` too.
pub proof fn lemma_short_var_shadows(
    vars: Map<Seq<char>, Seq<char>>,
    short_vars: Map<Seq<char>, Seq<char>>,
    name: Seq<char>,
    start: nat,
    end: nat,
    now: LocalTime,
    depth: nat,
)
    requires
        depth < depth_limit(),
        short_vars.contains_key(name),
    ensures
        resolve_spec(vars, short_vars, seq![TokenSpec::Func { start, end, func: FuncSpec::Var(name) }], now, depth)
            == resolve_content_spec(vars, short_vars, short_vars[name], now, depth + 1),
{
    let t = TokenSpec::Func { start, end, func: FuncSpec::Var(name) };
    let ts = seq![t];
    assert(ts.drop_last() =~= Seq::<TokenSpec>::empty());
    assert(ts.last() == t);
    assert(resolve_spec(vars, short_vars, ts.drop_last(), now, depth) == done(Seq::<PieceSpec>::empty()));
    assert forall|x: ResolvedSpec| #[trigger] then_resolve(done(Seq::empty()), x) == x by {
        assert(Seq::<PieceSpec>::empty() + x.pieces =~= x.pieces);
    }
}

} // verus!
