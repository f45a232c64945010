//! Tokenizer for the content of a short.
//!
//! A content is plain text interleaved with newlines and function calls in
//! braces: `{var name}`, `{embed path}` and `{now format}`.

use vstd::prelude::*;

use crate::text::{
    chars_of, copy_chars, join_with, join_words, join_words_from, push_char, spaces_under,
    string_from_chars, strings_view, words_view,
};

verus! {

/// Character span of a token: `start` is the index of its first character,
/// `end` the index just past it.
#[derive(Debug)]
pub struct ShortTokenDebug {
    pub start: usize,
    pub end: usize,
}

/// A function call found in braces.
#[derive(Debug)]
pub enum FuncKind {
    Embed { path: String },
    Now { format: String },
    Var { name: String },
}

/// One token of a short's content.
#[derive(Debug)]
pub enum ShortToken {
    Text { debug: ShortTokenDebug, value: String },
    Func { debug: ShortTokenDebug, func: FuncKind },
    NewLine { debug: ShortTokenDebug },
}

/// Scans a content left to right, one token at a time.
pub struct ShortTokenizer {
    caret: usize,
    chars: Vec<char>,
}

/// Why a content could not be tokenized.
#[derive(Debug)]
pub enum TokenizerError {
    MissingArgs { func_name: String, chars: Vec<char>, debug: ShortTokenDebug, msg: Vec<String> },
    UnknownFunc { func_name: String, chars: Vec<char>, debug: ShortTokenDebug, msg: Vec<String> },
}

// ---------------------------------------------------------------------------
// Mathematical model
// ---------------------------------------------------------------------------

/// Model of [`FuncKind`].
pub enum FuncSpec {
    Embed(Seq<char>),
    Now(Seq<char>),
    Var(Seq<char>),
}

/// Model of [`ShortToken`].
pub enum TokenSpec {
    Text { start: nat, end: nat, value: Seq<char> },
    Func { start: nat, end: nat, func: FuncSpec },
    NewLine { start: nat, end: nat },
}

/// Which kind of [`TokenizerError`].
pub enum ErrorKind {
    MissingArgs,
    UnknownFunc,
}

/// Model of [`TokenizerError`].
pub struct ErrorSpec {
    pub kind: ErrorKind,
    pub func_name: Seq<char>,
    pub chars: Seq<char>,
    pub start: nat,
    pub end: nat,
    pub msg: Seq<Seq<char>>,
}

/// What scanning one token from a position gives: the end of the input, a
/// token, an error, each with the position scanning stops at, or `Fault` where
/// the scan cannot go on (it would panic or never finish).
pub enum Step {
    End(nat),
    Token(TokenSpec, nat),
    Failed(ErrorSpec, nat),
    Fault,
}

/// What scanning all tokens from a position gives.
pub enum Scan {
    Done(Seq<TokenSpec>, nat),
    Failed(ErrorSpec, nat),
    Fault,
}

impl View for FuncKind {
    type V = FuncSpec;

    open spec fn view(&self) -> FuncSpec {
        match self {
            FuncKind::Embed { path } => FuncSpec::Embed(path@),
            FuncKind::Now { format } => FuncSpec::Now(format@),
            FuncKind::Var { name } => FuncSpec::Var(name@),
        }
    }
}

impl View for ShortToken {
    type V = TokenSpec;

    open spec fn view(&self) -> TokenSpec {
        match self {
            ShortToken::Text { debug, value } => TokenSpec::Text {
                start: debug.start as nat,
                end: debug.end as nat,
                value: value@,
            },
            ShortToken::Func { debug, func } => TokenSpec::Func {
                start: debug.start as nat,
                end: debug.end as nat,
                func: func@,
            },
            ShortToken::NewLine { debug } => TokenSpec::NewLine {
                start: debug.start as nat,
                end: debug.end as nat,
            },
        }
    }
}

impl View for TokenizerError {
    type V = ErrorSpec;

    open spec fn view(&self) -> ErrorSpec {
        match self {
            TokenizerError::MissingArgs { func_name, chars, debug, msg } => ErrorSpec {
                kind: ErrorKind::MissingArgs,
                func_name: func_name@,
                chars: chars@,
                start: debug.start as nat,
                end: debug.end as nat,
                msg: strings_view(msg@),
            },
            TokenizerError::UnknownFunc { func_name, chars, debug, msg } => ErrorSpec {
                kind: ErrorKind::UnknownFunc,
                func_name: func_name@,
                chars: chars@,
                start: debug.start as nat,
                end: debug.end as nat,
                msg: strings_view(msg@),
            },
        }
    }
}

/// The models of a sequence of tokens.
pub open spec fn tokens_view(ts: Seq<ShortToken>) -> Seq<TokenSpec> {
    ts.map_values(|t: ShortToken| t@)
}

/// Characters that end a run of plain text.
pub open spec fn is_text_stop(c: char) -> bool {
    c == '{' || c == '\0' || c == '\n'
}

/// The first index from `i` on that holds a text stop, or the length.
pub open spec fn text_end(chars: Seq<char>, i: nat) -> nat
    decreases chars.len() - i,
{
    if i >= chars.len() {
        chars.len()
    } else if is_text_stop(chars[i as int]) {
        i
    } else {
        text_end(chars, i + 1)
    }
}

/// The first index from `i` on that holds a brace, or the length.
pub open spec fn brace_stop(chars: Seq<char>, i: nat) -> nat
    decreases chars.len() - i,
{
    if i >= chars.len() {
        chars.len()
    } else if chars[i as int] == '{' || chars[i as int] == '}' {
        i
    } else {
        brace_stop(chars, i + 1)
    }
}

/// The first index from `i` on that does not hold `{`, or the length.
pub open spec fn open_run_end(chars: Seq<char>, i: nat) -> nat
    decreases chars.len() - i,
{
    if i >= chars.len() {
        chars.len()
    } else if chars[i as int] != '{' {
        i
    } else {
        open_run_end(chars, i + 1)
    }
}

/// The pieces of `s` between single spaces, empty pieces included:
/// `"a  b"` gives `["a", "", "b"]`; there is always at least one piece.
pub open spec fn split_spaces(s: Seq<char>) -> Seq<Seq<char>>
    decreases s.len(),
{
    if s.len() == 0 {
        seq![Seq::empty()]
    } else {
        let p = split_spaces(s.drop_last());
        if s.last() == ' ' {
            p.push(Seq::empty())
        } else {
            p.update(p.len() - 1, p.last().push(s.last()))
        }
    }
}

/// The arguments of a call: the pieces between spaces, with the last one
/// dropped where it is empty.
pub open spec fn brace_args(inner: Seq<char>) -> Seq<Seq<char>> {
    let p = split_spaces(inner);
    if p.last().len() == 0 {
        p.drop_last()
    } else {
        p
    }
}

pub open spec fn var_word() -> Seq<char> {
    seq!['v', 'a', 'r']
}

pub open spec fn embed_word() -> Seq<char> {
    seq!['e', 'm', 'b', 'e', 'd']
}

pub open spec fn now_word() -> Seq<char> {
    seq!['n', 'o', 'w']
}

/// The format `{now}` uses when it is given none.
pub open spec fn default_now_format() -> Seq<char> {
    "%H:%M:%S %d-%m-%Y"@
}

pub open spec fn missing_var_msg() -> Seq<Seq<char>> {
    seq!["Missing variable name!"@, "(example: {var first_name})"@]
}

pub open spec fn missing_path_msg() -> Seq<Seq<char>> {
    seq!["Missing file path!"@, "(example: {embed ./templates/email_1.txt})"@]
}

pub open spec fn unknown_func_msg() -> Seq<Seq<char>> {
    seq!["Unknown function!"@, "(function: now; embed; var)"@]
}

/// The step for a call that starts with `{` at index `c`.
pub open spec fn brace_step(chars: Seq<char>, c: nat) -> Step {
    let j = brace_stop(chars, c + 1);
    if j < chars.len() && chars[j as int] == '{' {
        let k = open_run_end(chars, j);
        Step::Token(
            TokenSpec::Text { start: c, end: k, value: Seq::new((k - j + 1) as nat, |_i: int| '{') },
            k,
        )
    } else {
        let close: nat = if j < chars.len() { j + 1 } else { j };
        let args = brace_args(chars.subrange(c + 1 as int, j as int));
        if args.len() == 0 {
            Step::Fault
        } else {
            let name = args[0];
            let rest = join_words(args.subrange(1, args.len() as int));
            let missing = ErrorSpec {
                kind: ErrorKind::MissingArgs,
                func_name: name,
                chars: chars,
                start: c,
                end: close,
                msg: if name == var_word() { missing_var_msg() } else { missing_path_msg() },
            };
            if name == var_word() || name == embed_word() {
                if args.len() < 2 {
                    Step::Failed(missing, close)
                } else {
                    let func = if name == var_word() { FuncSpec::Var(rest) } else { FuncSpec::Embed(rest) };
                    Step::Token(TokenSpec::Func { start: c, end: close, func }, close)
                }
            } else if name == now_word() {
                let format = if args.len() >= 2 { rest } else { default_now_format() };
                Step::Token(TokenSpec::Func { start: c, end: close, func: FuncSpec::Now(format) }, close)
            } else {
                Step::Failed(
                    ErrorSpec {
                        kind: ErrorKind::UnknownFunc,
                        func_name: name,
                        chars: chars,
                        start: c,
                        end: close,
                        msg: unknown_func_msg(),
                    },
                    close,
                )
            }
        }
    }
}

/// One token scanned from index `c`. A token starts only at an index that is
/// not the last one; a run of plain text, once started, may reach the end.
pub open spec fn next_step(chars: Seq<char>, c: nat) -> Step
    decreases chars.len() - c,
{
    if chars.len() == 0 {
        Step::Fault
    } else if c + 1 >= chars.len() {
        Step::End(c)
    } else if chars[c as int] == '{' {
        brace_step(chars, c)
    } else if chars[c as int] == '\n' {
        Step::Token(TokenSpec::NewLine { start: c, end: c + 1 }, c + 1)
    } else if chars[c as int] == '\r' {
        if c + 2 < chars.len() && chars[c + 1 as int] == '\n' {
            Step::Token(TokenSpec::NewLine { start: c, end: c + 2 }, c + 2)
        } else {
            next_step(chars, c + 1)
        }
    } else if chars[c as int] == '\0' {
        Step::Fault
    } else {
        let e = text_end(chars, c);
        Step::Token(TokenSpec::Text { start: c, end: e, value: chars.subrange(c as int, e as int) }, e)
    }
}

/// All tokens scanned from index `c` on.
pub open spec fn scan(chars: Seq<char>, c: nat) -> Scan
    decreases chars.len() - c,
{
    match next_step(chars, c) {
        Step::End(f) => Scan::Done(Seq::empty(), f),
        Step::Token(t, n) => if c < n <= chars.len() {
            match scan(chars, n) {
                Scan::Done(ts, f) => Scan::Done(seq![t] + ts, f),
                other => other,
            }
        } else {
            Scan::Fault
        },
        Step::Failed(e, n) => Scan::Failed(e, n),
        Step::Fault => Scan::Fault,
    }
}

/// The tokens of a whole content, scanned from its start.
pub open spec fn tokenize_spec(chars: Seq<char>) -> Scan {
    scan(chars, 0)
}


// ---------------------------------------------------------------------------
// Scanning
// ---------------------------------------------------------------------------

/// What one call of `next_token` produced.
enum Next {
    End,
    Token(ShortToken),
    Failed(TokenizerError),
    Fault,
}

/// `res`, with the scanner left at `caret`, is what the model step `s` says.
spec fn agrees(res: Next, s: Step, caret: nat) -> bool {
    match s {
        Step::End(n) => res is End && caret == n,
        Step::Token(t, n) => res matches Next::Token(tok) && tok@ == t && caret == n,
        Step::Failed(e, n) => res matches Next::Failed(err) && err@ == e && caret == n,
        Step::Fault => res is Fault,
    }
}

/// The tokens `ts` followed by what scanning `rest` gives.
pub open spec fn prepend(ts: Seq<TokenSpec>, rest: Scan) -> Scan {
    match rest {
        Scan::Done(more, f) => Scan::Done(ts + more, f),
        other => other,
    }
}

proof fn lemma_split_nonempty(s: Seq<char>)
    ensures
        split_spaces(s).len() >= 1,
    decreases s.len(),
{
    if s.len() > 0 {
        lemma_split_nonempty(s.drop_last());
    }
}

fn word_is(w: &Vec<char>, a: char, b: char, c: char) -> (res: bool)
    ensures
        res == (w@ == seq![a, b, c]),
{
    if w.len() == 3 && w[0] == a && w[1] == b && w[2] == c {
        assert(w@ =~= seq![a, b, c]);
        true
    } else {
        false
    }
}

fn is_embed(w: &Vec<char>) -> (res: bool)
    ensures
        res == (w@ == embed_word()),
{
    if w.len() == 5 && w[0] == 'e' && w[1] == 'm' && w[2] == 'b' && w[3] == 'e' && w[4] == 'd' {
        assert(w@ =~= embed_word());
        true
    } else {
        false
    }
}

/// A run of plain text starting at `c`.
fn text_token(chars: &Vec<char>, c: usize) -> (res: (ShortToken, usize))
    requires
        c < chars.len(),
        !is_text_stop(chars@[c as int]),
    ensures
        res.1 == text_end(chars@, c as nat),
        c < res.1 <= chars.len(),
        res.0@ == (TokenSpec::Text {
            start: c as nat,
            end: res.1 as nat,
            value: chars@.subrange(c as int, res.1 as int),
        }),
{
    let len = chars.len();
    let mut value = String::new();
    let mut i = c;
    while i < len && chars[i] != '{' && chars[i] != '\0' && chars[i] != '\n'
        invariant
            len == chars@.len(),
            c <= i <= len,
            text_end(chars@, c as nat) == text_end(chars@, i as nat),
            value@ == chars@.subrange(c as int, i as int),
        decreases len - i,
    {
        push_char(&mut value, chars[i]);
        assert(chars@.subrange(c as int, i as int).push(chars@[i as int]) =~= chars@.subrange(
            c as int,
            i + 1,
        ));
        i += 1;
    }
    (ShortToken::Text { debug: ShortTokenDebug { start: c, end: i }, value }, i)
}

/// A string of `n` opening braces.
fn open_braces(n: usize) -> (res: String)
    ensures
        res@ == Seq::new(n as nat, |_i: int| '{'),
{
    let mut res = String::new();
    let mut i: usize = 0;
    while i < n
        invariant
            i <= n,
            res@ == Seq::new(i as nat, |_i: int| '{'),
        decreases n - i,
    {
        push_char(&mut res, '{');
        assert(Seq::new(i as nat, |_i: int| '{').push('{') =~= Seq::new((i + 1) as nat, |_i: int| '{'));
        i += 1;
    }
    res
}

/// The messages of a [`TokenizerError`] as strings.
fn messages(first: &str, second: &str) -> (res: Vec<String>)
    ensures
        strings_view(res@) == seq![first@, second@],
{
    let res = vec![first.to_owned(), second.to_owned()];
    assert(strings_view(res@) =~= seq![first@, second@]);
    res
}

/// A call starting with `{` at index `c`.
fn brace_token(chars: &Vec<char>, c: usize) -> (res: (Next, usize))
    requires
        c + 1 < chars.len(),
        chars@[c as int] == '{',
    ensures
        agrees(res.0, brace_step(chars@, c as nat), res.1 as nat),
        res.1 <= chars.len(),
        res.0 is Token ==> c < res.1,
{
    let len = chars.len();
    let mut i = c + 1;
    let mut args: Vec<Vec<char>> = Vec::new();
    let mut arg: Vec<char> = Vec::new();
    assert(chars@.subrange(c + 1, c + 1) =~= Seq::<char>::empty());
    assert(words_view(args@).push(arg@) =~= seq![Seq::<char>::empty()]);
    while i < len && chars[i] != '{' && chars[i] != '}'
        invariant
            len == chars@.len(),
            c + 1 <= i <= len,
            brace_stop(chars@, (c + 1) as nat) == brace_stop(chars@, i as nat),
            words_view(args@).push(arg@) == split_spaces(chars@.subrange(c + 1, i as int)),
        decreases len - i,
    {
        let ghost prev = chars@.subrange(c + 1, i as int);
        let ghost old_words = words_view(args@);
        let ghost old_arg = arg@;
        let ch = chars[i];
        assert(chars@.subrange(c + 1, i + 1).drop_last() =~= prev);
        assert(chars@.subrange(c + 1, i + 1).last() == ch);
        if ch == ' ' {
            args.push(arg);
            arg = Vec::new();
            assert(words_view(args@) =~= old_words.push(old_arg));
            assert(words_view(args@).push(arg@) =~= old_words.push(old_arg).push(Seq::empty()));
        } else {
            arg.push(ch);
            assert(words_view(args@).push(arg@) =~= old_words.push(old_arg).update(
                old_words.len() as int,
                old_arg.push(ch),
            ));
        }
        i += 1;
    }
    let j = i;
    if j < len && chars[j] == '{' {
        let mut k = j;
        while k < len && chars[k] == '{'
            invariant
                len == chars@.len(),
                j <= k <= len,
                open_run_end(chars@, j as nat) == open_run_end(chars@, k as nat),
            decreases len - k,
        {
            k += 1;
        }
        let value = open_braces(k - j + 1);
        let tok = ShortToken::Text { debug: ShortTokenDebug { start: c, end: k }, value };
        return (Next::Token(tok), k);
    }
    let close = if j < len {
        j + 1
    } else {
        j
    };
    let ghost inner = chars@.subrange(c + 1, j as int);
    proof {
        lemma_split_nonempty(inner);
    }
    let ghost parts = words_view(args@).push(arg@);
    if arg.len() > 0 {
        args.push(arg);
        assert(words_view(args@) =~= parts);
    } else {
        assert(words_view(args@) =~= parts.drop_last());
    }
    assert(words_view(args@) == brace_args(inner));
    if args.len() == 0 {
        return (Next::Fault, close);
    }
    let debug = ShortTokenDebug { start: c, end: close };
    let is_var = word_is(&args[0], 'v', 'a', 'r');
    let is_now = word_is(&args[0], 'n', 'o', 'w');
    let embed = is_embed(&args[0]);
    proof {
        assert(var_word() =~= seq!['v', 'a', 'r']);
        assert(now_word() =~= seq!['n', 'o', 'w']);
    }
    let rest = join_words_from(&args, 1);
    if is_var || embed {
        if args.len() < 2 {
            let msg = if is_var {
                messages("Missing variable name!", "(example: {var first_name})")
            } else {
                messages("Missing file path!", "(example: {embed ./templates/email_1.txt})")
            };
            let err = TokenizerError::MissingArgs {
                func_name: string_from_chars(&args[0]),
                chars: copy_chars(chars),
                debug,
                msg,
            };
            return (Next::Failed(err), close);
        }
        let text = string_from_chars(&rest);
        let func = if is_var {
            FuncKind::Var { name: text }
        } else {
            FuncKind::Embed { path: text }
        };
        (Next::Token(ShortToken::Func { debug, func }), close)
    } else if is_now {
        let format = if args.len() >= 2 {
            string_from_chars(&rest)
        } else {
            "%H:%M:%S %d-%m-%Y".to_owned()
        };
        (Next::Token(ShortToken::Func { debug, func: FuncKind::Now { format } }), close)
    } else {
        let err = TokenizerError::UnknownFunc {
            func_name: string_from_chars(&args[0]),
            chars: copy_chars(chars),
            debug,
            msg: messages("Unknown function!", "(function: now; embed; var)"),
        };
        (Next::Failed(err), close)
    }
}

impl ShortTokenizer {
    /// The characters being tokenized.
    pub closed spec fn content(&self) -> Seq<char> {
        self.chars@
    }

    /// The index scanning resumes from.
    pub closed spec fn position(&self) -> nat {
        self.caret as nat
    }

    /// A tokenizer positioned at the start of `content`.
    pub fn new(content: &str) -> (res: Self)
        ensures
            res.content() == content@,
            res.position() == 0,
    {
        ShortTokenizer { caret: 0, chars: chars_of(content) }
    }

    /// The character a token would start with, if a token may start here:
    /// none at the last index or past it.
    fn get_char(&self) -> (res: Option<char>)
        requires
            self.chars.len() > 0,
        ensures
            res == (if self.caret + 1 < self.chars.len() {
                Some(self.chars@[self.caret as int])
            } else {
                None::<char>
            }),
    {
        if self.caret < self.chars.len() - 1 {
            return Some(self.chars[self.caret]);
        }
        None
    }

    fn next_char(&mut self)
        requires
            old(self).caret < usize::MAX,
        ensures
            final(self).chars == old(self).chars,
            final(self).caret == old(self).caret + 1,
    {
        self.caret += 1;
    }

    fn next_token(&mut self) -> (res: Next)
        ensures
            final(self).chars == old(self).chars,
            agrees(res, next_step(old(self).chars@, old(self).caret as nat), final(self).caret as nat),
            res is Token ==> old(self).caret < final(self).caret <= final(self).chars.len(),
        decreases old(self).chars.len() - old(self).caret,
    {
        if self.chars.len() == 0 {
            return Next::Fault;
        }
        let c = match self.get_char() {
            Some(c) => c,
            None => return Next::End,
        };
        if c == '{' {
            let (step, next) = brace_token(&self.chars, self.caret);
            self.caret = next;
            step
        } else if c == '\n' {
            self.next_char();
            Next::Token(
                ShortToken::NewLine { debug: ShortTokenDebug { start: self.caret - 1, end: self.caret } },
            )
        } else if c == '\r' {
            self.next_char();
            if let Some(d) = self.get_char() {
                if d == '\n' {
                    self.next_char();
                    return Next::Token(
                        ShortToken::NewLine {
                            debug: ShortTokenDebug { start: self.caret - 2, end: self.caret },
                        },
                    );
                }
            }
            self.next_token()
        } else if c == '\0' {
            Next::Fault
        } else {
            let (tok, next) = text_token(&self.chars, self.caret);
            self.caret = next;
            Next::Token(tok)
        }
    }

    /// All tokens from the current position to the end of the content, or the
    /// error of the first call that cannot be read; `None` where reading
    /// cannot go on: an empty content, a call with nothing in its braces
    /// (`{}`), or a token that would start with a NUL character.
    pub fn tokenize_checked(&mut self) -> (res: Option<Result<Vec<ShortToken>, TokenizerError>>)
        ensures
            final(self).content() == old(self).content(),
            match scan(old(self).content(), old(self).position()) {
                Scan::Done(ts, f) => res matches Some(Ok(v)) && tokens_view(v@) == ts
                    && final(self).position() == f,
                Scan::Failed(e, f) => res matches Some(Err(err)) && err@ == e
                    && final(self).position() == f,
                Scan::Fault => res is None,
            },
    {
        let ghost c0 = self.chars@;
        let ghost start = self.caret as nat;
        let mut tokens: Vec<ShortToken> = Vec::new();
        assert(tokens_view(tokens@) =~= Seq::<TokenSpec>::empty());
        assert(prepend(Seq::empty(), scan(c0, start)) == scan(c0, start)) by {
            match scan(c0, start) {
                Scan::Done(ts, f) => {
                    assert(Seq::<TokenSpec>::empty() + ts =~= ts);
                },
                _ => {},
            }
        }
        loop
            invariant
                self.chars@ == c0,
                c0 == old(self).chars@,
                start == old(self).caret as nat,
                scan(c0, start) == prepend(tokens_view(tokens@), scan(c0, self.caret as nat)),
            decreases c0.len() - self.caret,
        {
            let ghost before = self.caret as nat;
            let ghost old_tokens = tokens_view(tokens@);
            match self.next_token() {
                Next::End => {
                    assert(old_tokens + Seq::<TokenSpec>::empty() =~= old_tokens);
                    return Some(Ok(tokens));
                },
                Next::Token(t) => {
                    let ghost tv = t@;
                    tokens.push(t);
                    assert(tokens_view(tokens@) =~= old_tokens.push(tv));
                    proof {
                        match scan(c0, self.caret as nat) {
                            Scan::Done(ts, f) => {
                                assert(old_tokens + (seq![tv] + ts) =~= old_tokens.push(tv) + ts);
                            },
                            _ => {},
                        }
                    }
                },
                Next::Failed(e) => {
                    return Some(Err(e));
                },
                Next::Fault => {
                    return None;
                },
            }
        }
    }

    /// All tokens from the current position to the end of the content, or the
    /// error of the first call that cannot be read.
    ///
    /// A token starts only at an index before the last one, so a newline or
    /// a call placed as the very last character is not read, while a run of
    /// plain text that has started runs on to the end.
    pub fn tokenize(&mut self) -> (res: Result<Vec<ShortToken>, TokenizerError>)
        requires
            !(scan(old(self).content(), old(self).position()) is Fault),
        ensures
            final(self).content() == old(self).content(),
            match scan(old(self).content(), old(self).position()) {
                Scan::Done(ts, f) => res matches Ok(v) && tokens_view(v@) == ts
                    && final(self).position() == f,
                Scan::Failed(e, f) => res matches Err(err) && err@ == e && final(self).position()
                    == f,
                Scan::Fault => false,
            },
    {
        match self.tokenize_checked() {
            Some(r) => r,
            None => {
                assert(false);
                Ok(Vec::new())
            },
        }
    }
}

/// Tokenizes a whole content; `None` where tokenizing it cannot finish (see
/// [`ShortTokenizer::tokenize_checked`]).
pub fn tokenize_content(content: &str) -> (res: Option<Result<Vec<ShortToken>, TokenizerError>>)
    ensures
        match tokenize_spec(content@) {
            Scan::Done(ts, _f) => res matches Some(Ok(v)) && tokens_view(v@) == ts,
            Scan::Failed(e, _f) => res matches Some(Err(err)) && err@ == e,
            Scan::Fault => res is None,
        },
{
    let mut tokenizer = ShortTokenizer::new(content);
    tokenizer.tokenize_checked()
}

// ---------------------------------------------------------------------------
// Error reports
// ---------------------------------------------------------------------------

/// Where the excerpt shown by a missing-argument report starts: five
/// characters before the call, but not before index 2.
pub open spec fn snippet_start(start: nat) -> nat {
    let back: nat = if start >= 5 { (start - 5) as nat } else { 0 };
    if back >= 2 { back } else { 2 }
}

/// The excerpt of the content shown by a missing-argument report.
pub open spec fn snippet_spec(e: ErrorSpec) -> Seq<char> {
    e.chars.subrange(snippet_start(e.start) as int, e.end as int)
}

/// The spaces that put the caret of a report under the end of the excerpt:
/// as many as the excerpt has UTF-8 bytes, plus 14 (the width of the
/// `    content: "..` prefix minus two).
pub open spec fn pointer_spec(e: ErrorSpec) -> Seq<char> {
    Seq::new((14 + vstd::utf8::encode_utf8(snippet_spec(e)).len()) as nat, |_i: int| ' ')
}

/// The report of a missing-argument error, shown as an excerpt of the
/// configuration file.
pub open spec fn render_spec(e: ErrorSpec, conf_path: Seq<char>, short_name: Seq<char>) -> Seq<char> {
    "Error in file: \""@ + conf_path + "\"\n"@ + "shorts:\n"@ + "  - name: \""@ + short_name
        + "\"\n"@ + "    content: \".."@ + snippet_spec(e) + "..\"\n"@ + pointer_spec(e) + "^ "@
        + join_with(e.msg, "\n  "@ + pointer_spec(e))
}

/// The one-line description of an error.
pub open spec fn message_spec(e: ErrorSpec) -> Seq<char> {
    match e.kind {
        ErrorKind::MissingArgs => "Tokenizer Error: Missing arguments in function: \""@ + e.func_name
            + "\""@,
        ErrorKind::UnknownFunc => "Tokenizer Error: Unknown function: \""@ + e.func_name + "\""@,
    }
}

/// `ws` joined with `sep`, appended to `out`.
fn append_joined(out: &mut String, ws: &Vec<String>, sep: &str)
    ensures
        final(out)@ == old(out)@ + join_with(strings_view(ws@), sep@),
{
    let ghost base = out@;
    let ghost wv = strings_view(ws@);
    let n = ws.len();
    let mut i: usize = 0;
    assert(wv.take(0) =~= Seq::<Seq<char>>::empty());
    assert(base + Seq::<char>::empty() =~= base);
    while i < n
        invariant
            n == ws@.len(),
            wv == strings_view(ws@),
            i <= n,
            out@ == base + join_with(wv.take(i as int), sep@),
        decreases n - i,
    {
        let ghost before = out@;
        if i > 0 {
            out.append(sep);
        }
        out.append(ws[i].as_str());
        let ghost next = wv.take(i + 1);
        assert(next.drop_last() =~= wv.take(i as int));
        assert(next.last() == ws@[i as int]@);
        if i == 0 {
            assert(join_with(wv.take(0), sep@) =~= Seq::<char>::empty());
            assert(out@ =~= base + ws@[0]@);
        } else {
            assert(out@ =~= base + (join_with(wv.take(i as int), sep@) + sep@ + ws@[i as int]@));
        }
        i += 1;
    }
    assert(wv.take(n as int) =~= wv);
}

impl TokenizerError {
    /// Renders a missing-argument error as an excerpt of the configuration
    /// file `conf_path`, under the short `short_name`, with a caret under the
    /// end of the call and the error's messages.
    pub fn render_missing_args(&self, conf_path: &str, short_name: &str) -> (res: String)
        requires
            self@.kind is MissingArgs,
            snippet_start(self@.start) <= self@.end <= self@.chars.len(),
        ensures
            res@ == render_spec(self@, conf_path@, short_name@),
    {
        match self {
            TokenizerError::MissingArgs { msg, chars, debug, .. } => {
                let back = debug.start.saturating_sub(5);
                let lo = if back >= 2 {
                    back
                } else {
                    2
                };
                let mut excerpt: Vec<char> = Vec::new();
                let mut i = lo;
                while i < debug.end
                    invariant
                        lo <= i <= debug.end <= chars@.len(),
                        excerpt@ == chars@.subrange(lo as int, i as int),
                    decreases debug.end - i,
                {
                    excerpt.push(chars[i]);
                    assert(chars@.subrange(lo as int, i as int).push(chars@[i as int])
                        =~= chars@.subrange(lo as int, i + 1));
                    i += 1;
                }
                let snippet = string_from_chars(&excerpt);
                let pointer = spaces_under(14, &excerpt);
                let mut output = String::new();
                output.append("Error in file: \"");
                output.append(conf_path);
                output.append("\"\n");
                output.append("shorts:\n");
                output.append("  - name: \"");
                output.append(short_name);
                output.append("\"\n");
                output.append("    content: \"..");
                output.append(snippet.as_str());
                output.append("..\"\n");
                output.append(pointer.as_str());
                output.append("^ ");
                let mut sep = String::new();
                sep.append("\n  ");
                sep.append(pointer.as_str());
                append_joined(&mut output, msg, sep.as_str());
                output
            },
            TokenizerError::UnknownFunc { .. } => {
                assert(false);
                String::new()
            },
        }
    }

    /// The one-line description of the error.
    pub fn message(&self) -> (res: String)
        ensures
            res@ == message_spec(self@),
    {
        let mut out = String::new();
        match self {
            TokenizerError::MissingArgs { func_name, .. } => {
                out.append("Tokenizer Error: Missing arguments in function: \"");
                out.append(func_name.as_str());
                out.append("\"");
            },
            TokenizerError::UnknownFunc { func_name, .. } => {
                out.append("Tokenizer Error: Unknown function: \"");
                out.append(func_name.as_str());
                out.append("\"");
            },
        }
        out
    }
}

// ---------------------------------------------------------------------------
// Laws
// ---------------------------------------------------------------------------

proof fn lemma_split_part_len(s: Seq<char>)
    ensures
        forall|k: int| 0 <= k < split_spaces(s).len() ==> #[trigger] split_spaces(s)[k].len() <= s.len(),
    decreases s.len(),
{
    if s.len() > 0 {
        lemma_split_part_len(s.drop_last());
        lemma_split_nonempty(s.drop_last());
    }
}

proof fn lemma_brace_stop_bounds(chars: Seq<char>, i: nat)
    requires
        i <= chars.len(),
    ensures
        i <= brace_stop(chars, i) <= chars.len(),
    decreases chars.len() - i,
{
    if i < chars.len() {
        lemma_brace_stop_bounds(chars, i + 1);
    }
}

/// What an error of one step records.
proof fn lemma_step_error(chars: Seq<char>, c: nat)
    ensures
        next_step(chars, c) matches Step::Failed(e, n) ==> {
            &&& e.chars == chars
            &&& e.end == n
            &&& n <= chars.len()
            &&& (e.kind is MissingArgs ==> e.start + 4 <= e.end)
        },
    decreases chars.len() - c,
{
    if chars.len() > 0 && c + 1 < chars.len() {
        if chars[c as int] == '{' {
            lemma_brace_stop_bounds(chars, c + 1);
            let j = brace_stop(chars, c + 1);
            let inner = chars.subrange(c + 1 as int, j as int);
            lemma_split_part_len(inner);
            lemma_split_nonempty(inner);
            let p = split_spaces(inner);
            let args = brace_args(inner);
            if args.len() > 0 {
                assert(args[0] == p[0]);
                if args[0] == var_word() || args[0] == embed_word() {
                    assert(var_word().len() == 3);
                    assert(embed_word().len() == 5);
                    assert(p[0].len() <= inner.len());
                }
            }
        } else if chars[c as int] == '\r' {
            if !(c + 2 < chars.len() && chars[c + 1 as int] == '\n') {
                lemma_step_error(chars, c + 1);
            }
        }
    }
}

proof fn lemma_scan_error(chars: Seq<char>, c: nat)
    ensures
        scan(chars, c) matches Scan::Failed(e, n) ==> {
            &&& e.chars == chars
            &&& e.end <= chars.len()
            &&& (e.kind is MissingArgs ==> e.start + 4 <= e.end)
        },
    decreases chars.len() - c,
{
    lemma_step_error(chars, c);
    match next_step(chars, c) {
        Step::Token(t, n) => {
            if c < n <= chars.len() {
                lemma_scan_error(chars, n);
            }
        },
        _ => {},
    }
}

/// Every missing-argument error that tokenizing a content reports can be
/// rendered: its excerpt lies within the content it carries.
pub proof fn lemma_reported_errors_render(chars: Seq<char>)
    ensures
        tokenize_spec(chars) matches Scan::Failed(e, _n) ==> e.chars == chars && (e.kind is MissingArgs
            ==> snippet_start(e.start) <= e.end <= e.chars.len()),
{
    lemma_scan_error(chars, 0);
}

pub open spec fn tok_start(t: TokenSpec) -> nat {
    match t {
        TokenSpec::Text { start, .. } => start,
        TokenSpec::Func { start, .. } => start,
        TokenSpec::NewLine { start, .. } => start,
    }
}

pub open spec fn tok_end(t: TokenSpec) -> nat {
    match t {
        TokenSpec::Text { end, .. } => end,
        TokenSpec::Func { end, .. } => end,
        TokenSpec::NewLine { end, .. } => end,
    }
}

/// Every token's span is non-empty and lies within `from..to`, and each
/// token ends before the next one starts.
pub open spec fn spans_ordered(ts: Seq<TokenSpec>, from: nat, to: nat) -> bool {
    &&& forall|i: int| 0 <= i < ts.len() ==> from <= tok_start(#[trigger] ts[i]) < tok_end(ts[i]) <= to
    &&& forall|i: int, j: int|
        0 <= i < j < ts.len() ==> tok_end(#[trigger] ts[i]) <= tok_start(#[trigger] ts[j])
}

proof fn lemma_text_end_bounds(chars: Seq<char>, i: nat)
    requires
        i <= chars.len(),
    ensures
        i <= text_end(chars, i) <= chars.len(),
    decreases chars.len() - i,
{
    if i < chars.len() {
        lemma_text_end_bounds(chars, i + 1);
    }
}

proof fn lemma_open_run_end_bounds(chars: Seq<char>, i: nat)
    requires
        i <= chars.len(),
    ensures
        i <= open_run_end(chars, i) <= chars.len(),
    decreases chars.len() - i,
{
    if i < chars.len() {
        lemma_open_run_end_bounds(chars, i + 1);
    }
}

proof fn lemma_step_span(chars: Seq<char>, c: nat)
    requires
        c <= chars.len(),
    ensures
        next_step(chars, c) matches Step::Token(t, n) ==> c <= tok_start(t) < tok_end(t) && tok_end(t)
            == n && n <= chars.len(),
        next_step(chars, c) matches Step::End(f) ==> c <= f <= chars.len(),
    decreases chars.len() - c,
{
    if chars.len() > 0 && c + 1 < chars.len() {
        if chars[c as int] == '{' {
            lemma_brace_stop_bounds(chars, c + 1);
            let j = brace_stop(chars, c + 1);
            if j < chars.len() {
                lemma_open_run_end_bounds(chars, j);
            }
        } else if chars[c as int] == '\r' {
            if !(c + 2 < chars.len() && chars[c + 1 as int] == '\n') {
                lemma_step_span(chars, c + 1);
            }
        } else if chars[c as int] != '\n' && chars[c as int] != '\0' {
            lemma_text_end_bounds(chars, c + 1);
        }
    }
}

/// The tokens of a content come in order: each spans at least one
/// character, within the part of the content that was scanned, and ends
/// before the next one starts.
pub proof fn lemma_token_spans_ordered(chars: Seq<char>, c: nat)
    requires
        c <= chars.len(),
    ensures
        scan(chars, c) matches Scan::Done(ts, f) ==> c <= f <= chars.len() && spans_ordered(ts, c, f),
    decreases chars.len() - c,
{
    lemma_step_span(chars, c);
    match next_step(chars, c) {
        Step::Token(t, n) => {
            if c < n <= chars.len() {
                lemma_token_spans_ordered(chars, n);
                match scan(chars, n) {
                    Scan::Done(rest, f) => {
                        let ts = seq![t] + rest;
                        assert forall|i: int| 0 <= i < ts.len() implies c <= tok_start(#[trigger] ts[i])
                            < tok_end(ts[i]) <= f by {
                            if i > 0 {
                                assert(ts[i] == rest[i - 1]);
                            }
                        }
                        assert forall|i: int, j: int| 0 <= i < j < ts.len() implies tok_end(
                            #[trigger] ts[i],
                        ) <= tok_start(#[trigger] ts[j]) by {
                            assert(ts[j] == rest[j - 1]);
                            if i > 0 {
                                assert(ts[i] == rest[i - 1]);
                            }
                        }
                    },
                    _ => {},
                }
            }
        },
        _ => {},
    }
}

/// Splitting at a space splits each side.
proof fn lemma_split_concat(a: Seq<char>, b: Seq<char>)
    ensures
        split_spaces(a + seq![' '] + b) == split_spaces(a) + split_spaces(b),
    decreases b.len(),
{
    let s = a + seq![' '] + b;
    lemma_split_nonempty(a);
    if b.len() == 0 {
        assert(s.drop_last() =~= a);
        assert(split_spaces(b) =~= seq![Seq::<char>::empty()]);
        assert(split_spaces(a).push(Seq::empty()) =~= split_spaces(a) + seq![Seq::<char>::empty()]);
    } else {
        let b0 = b.drop_last();
        lemma_split_concat(a, b0);
        lemma_split_nonempty(b0);
        assert(s.drop_last() =~= a + seq![' '] + b0);
        assert(s.last() == b.last());
        let pa = split_spaces(a);
        let pb = split_spaces(b0);
        let x = b.last();
        if x == ' ' {
            assert((pa + pb).push(Seq::empty()) =~= pa + pb.push(Seq::empty()));
        } else {
            let whole = pa + pb;
            assert(whole.last() == pb.last());
            assert(whole.update(whole.len() - 1, whole.last().push(x)) =~= pa + pb.update(
                pb.len() - 1,
                pb.last().push(x),
            ));
        }
    }
}

/// A word without spaces is a single piece.
proof fn lemma_split_word(w: Seq<char>)
    requires
        forall|i: int| 0 <= i < w.len() ==> w[i] != ' ',
    ensures
        split_spaces(w) == seq![w],
    decreases w.len(),
{
    if w.len() == 0 {
        assert(w =~= Seq::<char>::empty());
    } else {
        let w0 = w.drop_last();
        assert forall|i: int| 0 <= i < w0.len() implies w0[i] != ' ' by {
            assert(w0[i] == w[i]);
        }
        lemma_split_word(w0);
        assert(w.last() != ' ');
        assert(w0.push(w.last()) =~= w);
        assert(seq![w0].update(0, w0.push(w.last())) =~= seq![w]);
    }
}

/// Joining the pieces between spaces with spaces gives the text back.
pub proof fn lemma_join_split(s: Seq<char>)
    ensures
        join_words(split_spaces(s)) == s,
    decreases s.len(),
{
    if s.len() > 0 {
        let s0 = s.drop_last();
        lemma_join_split(s0);
        lemma_split_nonempty(s0);
        let p = split_spaces(s0);
        let x = s.last();
        if x == ' ' {
            let q = p.push(Seq::empty());
            assert(q.drop_last() =~= p);
            assert(join_words(q) =~= s0 + seq![' '] + Seq::<char>::empty());
            assert(s0 + seq![' '] + Seq::<char>::empty() =~= s);
        } else {
            let q = p.update(p.len() - 1, p.last().push(x));
            if p.len() == 1 {
                assert(join_words(p) == p[0]);
                assert(join_words(q) == q[0]);
                assert(q[0] =~= s);
            } else {
                assert(q.drop_last() =~= p.drop_last());
                assert(join_words(q) == join_words(p.drop_last()) + seq![' '] + p.last().push(x));
                assert(join_words(p) == join_words(p.drop_last()) + seq![' '] + p.last());
                assert(join_words(q) =~= s0.push(x));
                assert(s0.push(x) =~= s);
            }
        }
    }
}

proof fn lemma_brace_stop_skip(chars: Seq<char>, i: nat, j: nat)
    requires
        i <= j <= chars.len(),
        forall|k: int| i <= k < j ==> chars[k] != '{' && chars[k] != '}',
    ensures
        brace_stop(chars, i) == brace_stop(chars, j),
    decreases j - i,
{
    if i < j {
        lemma_brace_stop_skip(chars, i + 1, j);
    }
}

/// What `{var NAME}`, `{embed PATH}` and `{now FORMAT}` mean: where a call
/// holds its function's name, one space and an argument without braces that
/// does not end with a space, followed by `}` or by the end of the content,
/// it is read as that function with exactly that argument.
pub proof fn lemma_call_argument(chars: Seq<char>, c: nat, word: Seq<char>, arg: Seq<char>)
    requires
        c + 1 < chars.len(),
        chars[c as int] == '{',
        word == var_word() || word == embed_word() || word == now_word(),
        arg.len() > 0,
        arg.last() != ' ',
        forall|k: int| 0 <= k < arg.len() ==> arg[k] != '{' && arg[k] != '}',
        c + 2 + word.len() + arg.len() <= chars.len(),
        chars.subrange(c + 1 as int, (c + 2 + word.len() + arg.len()) as int) == word + seq![' '] + arg,
        c + 2 + word.len() + arg.len() < chars.len() ==> chars[(c + 2 + word.len() + arg.len()) as int] == '}',
    ensures
        ({
            let j = c + 2 + word.len() + arg.len();
            let close: nat = if j < chars.len() { (j + 1) as nat } else { j as nat };
            let func = if word == var_word() {
                FuncSpec::Var(arg)
            } else if word == embed_word() {
                FuncSpec::Embed(arg)
            } else {
                FuncSpec::Now(arg)
            };
            next_step(chars, c) == Step::Token(TokenSpec::Func { start: c, end: close, func }, close)
        }),
{
    let j = (c + 2 + word.len() + arg.len()) as nat;
    let inner = word + seq![' '] + arg;
    assert(var_word().len() == 3 && embed_word().len() == 5 && now_word().len() == 3);
    assert forall|i: int| 0 <= i < word.len() implies word[i] != ' ' && word[i] != '{' && word[i]
        != '}' by {
        if word == var_word() {
            assert(word =~= seq!['v', 'a', 'r']);
        } else if word == embed_word() {
            assert(word =~= seq!['e', 'm', 'b', 'e', 'd']);
        } else {
            assert(word =~= seq!['n', 'o', 'w']);
        }
    }
    assert forall|k: int| c + 1 <= k < j implies chars[k] != '{' && chars[k] != '}' by {
        assert(chars[k] == inner[k - c - 1]);
        if k - c - 1 < word.len() {
            assert(inner[k - c - 1] == word[k - c - 1]);
        } else if k - c - 1 > word.len() {
            assert(inner[k - c - 1] == arg[k - c - 2 - word.len()]);
        }
    }
    lemma_brace_stop_skip(chars, c + 1, j);
    assert(brace_stop(chars, j) == j);
    assert(chars.subrange(c + 1 as int, j as int) == inner);
    lemma_split_concat(word, arg);
    lemma_split_word(word);
    lemma_split_nonempty(arg);
    let pa = split_spaces(arg);
    assert(pa.last().len() > 0) by {
        let p0 = split_spaces(arg.drop_last());
        lemma_split_nonempty(arg.drop_last());
        assert(pa == p0.update(p0.len() - 1, p0.last().push(arg.last())));
        assert(pa.last() == p0.last().push(arg.last()));
    }
    let args = seq![word] + pa;
    assert(brace_args(inner) == args);
    assert(args[0] == word);
    assert(args.subrange(1, args.len() as int) =~= pa);
    lemma_join_split(arg);
}

proof fn lemma_text_end_skip(chars: Seq<char>, i: nat)
    requires
        i <= chars.len(),
        forall|k: int| i <= k < chars.len() ==> !is_text_stop(#[trigger] chars[k]),
    ensures
        text_end(chars, i) == chars.len(),
    decreases chars.len() - i,
{
    if i < chars.len() {
        lemma_text_end_skip(chars, i + 1);
    }
}

/// A content of at least two characters with no braces, newlines, carriage
/// returns or NUL characters is one token of plain text: the whole content.
pub proof fn lemma_plain_text(chars: Seq<char>)
    requires
        chars.len() >= 2,
        forall|k: int|
            0 <= k < chars.len() ==> #[trigger] chars[k] != '{' && chars[k] != '\n' && chars[k]
                != '\r' && chars[k] != '\0',
    ensures
        tokenize_spec(chars) == Scan::Done(
            seq![TokenSpec::Text { start: 0, end: chars.len(), value: chars }],
            chars.len(),
        ),
{
    lemma_text_end_skip(chars, 0);
    assert(chars.subrange(0, chars.len() as int) =~= chars);
    assert(next_step(chars, chars.len()) == Step::End(chars.len()));
    assert(scan(chars, chars.len()) == Scan::Done(Seq::<TokenSpec>::empty(), chars.len()));
    assert(seq![TokenSpec::Text { start: 0, end: chars.len(), value: chars }] + Seq::<TokenSpec>::empty()
        =~= seq![TokenSpec::Text { start: 0, end: chars.len(), value: chars }]);
}

/// Once a step reports the end of the input, a step from where it stopped
/// reports the end again, at the same place.
pub proof fn lemma_end_is_absorbing(chars: Seq<char>, c: nat)
    ensures
        next_step(chars, c) matches Step::End(f) ==> next_step(chars, f) == Step::End(f),
    decreases chars.len() - c,
{
    if chars.len() > 0 && c + 1 < chars.len() && chars[c as int] == '\r' {
        if !(c + 2 < chars.len() && chars[c + 1 as int] == '\n') {
            lemma_end_is_absorbing(chars, c + 1);
        }
    }
}

/// Once the tokens of a content have all been read, reading again from where
/// reading stopped gives no more tokens and stops at the same place.
pub proof fn lemma_scan_end_is_absorbing(chars: Seq<char>, c: nat)
    ensures
        scan(chars, c) matches Scan::Done(_ts, f) ==> scan(chars, f) == Scan::Done(Seq::<TokenSpec>::empty(), f),
    decreases chars.len() - c,
{
    lemma_end_is_absorbing(chars, c);
    match next_step(chars, c) {
        Step::Token(t, n) => {
            if c < n <= chars.len() {
                lemma_scan_end_is_absorbing(chars, n);
            }
        },
        _ => {},
    }
}

/// Each newline at which a token may start is a token of its own, spanning
/// exactly that one character: a blank line gives two newline tokens.
pub proof fn lemma_newline_token(chars: Seq<char>, c: nat)
    requires
        c + 1 < chars.len(),
        chars[c as int] == '\n',
    ensures
        next_step(chars, c) == Step::Token(TokenSpec::NewLine { start: c, end: c + 1 }, c + 1),
{
}

/// A carriage return followed by a newline, where a token may start and the
/// newline is not the last character, is one newline token spanning both.
pub proof fn lemma_crlf_token(chars: Seq<char>, c: nat)
    requires
        c + 2 < chars.len(),
        chars[c as int] == '\r',
        chars[c + 1 as int] == '\n',
    ensures
        next_step(chars, c) == Step::Token(TokenSpec::NewLine { start: c, end: c + 2 }, c + 2),
{
}

/// A run of plain text: starting at a character other than a brace, a
/// newline, a carriage return or NUL, the token is the text up to the next
/// brace `{`, NUL or newline (or to the end), and nothing in it is one of
/// those.
pub proof fn lemma_text_run(chars: Seq<char>, c: nat)
    requires
        c + 1 < chars.len(),
        chars[c as int] != '{',
        chars[c as int] != '\n',
        chars[c as int] != '\r',
        chars[c as int] != '\0',
    ensures
        next_step(chars, c) matches Step::Token(TokenSpec::Text { start, end, value }, n) && {
            &&& start == c
            &&& end == n
            &&& c < n <= chars.len()
            &&& value == chars.subrange(c as int, n as int)
            &&& forall|k: int|
                c <= k < n ==> #[trigger] chars[k] != '{' && chars[k] != '\0' && chars[k] != '\n'
            &&& (n == chars.len() || chars[n as int] == '{' || chars[n as int] == '\0' || chars[n as int]
                == '\n')
        },
{
    lemma_text_run_end(chars, c);
}

proof fn lemma_text_run_end(chars: Seq<char>, i: nat)
    requires
        i <= chars.len(),
    ensures
        i <= text_end(chars, i) <= chars.len(),
        forall|k: int|
            i <= k < text_end(chars, i) ==> #[trigger] chars[k] != '{' && chars[k] != '\0' && chars[k]
                != '\n',
        text_end(chars, i) == chars.len() || chars[text_end(chars, i) as int] == '{' || chars[text_end(
            chars,
            i,
        ) as int] == '\0' || chars[text_end(chars, i) as int] == '\n',
    decreases chars.len() - i,
{
    if i < chars.len() && !is_text_stop(chars[i as int]) {
        lemma_text_run_end(chars, i + 1);
    }
}

} // verus!
