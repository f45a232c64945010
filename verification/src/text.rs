//! Small verified helpers for moving between `String`s and character vectors.

use vstd::prelude::*;
use vstd::utf8::{encode_scalar, encode_utf8};

verus! {

/// Appends one character to a `String` (`String::push`).
///
/// Trusted: std documents `push` as appending the given `char` to the end
/// of the string; the contract states exactly that over the `char` view.
#[verifier::external_body]
pub(crate) fn push_char(s: &mut String, c: char)
    ensures
        final(s)@ == old(s)@.push(c),
{
    s.push(c);
}

/// The characters of a string slice, in order.
pub fn chars_of(s: &str) -> (res: Vec<char>)
    ensures
        res@ == s@,
{
    let mut res: Vec<char> = Vec::new();
    for c in it: s.chars()
        invariant
            res@ == it.seq().take(it.index()),
    {
        res.push(c);
    }
    res
}

/// A `String` holding exactly the given characters.
pub fn string_from_chars(cs: &Vec<char>) -> (res: String)
    ensures
        res@ == cs@,
{
    let mut res = String::new();
    let n = cs.len();
    let mut i: usize = 0;
    while i < n
        invariant
            n == cs@.len(),
            i <= n,
            res@ == cs@.take(i as int),
        decreases n - i,
    {
        push_char(&mut res, cs[i]);
        assert(cs@.take(i as int).push(cs@[i as int]) =~= cs@.take(i + 1));
        i += 1;
    }
    assert(cs@.take(n as int) =~= cs@);
    res
}

/// A fresh vector holding the same characters.
pub fn copy_chars(v: &Vec<char>) -> (res: Vec<char>)
    ensures
        res@ == v@,
{
    let mut res: Vec<char> = Vec::new();
    let n = v.len();
    let mut i: usize = 0;
    while i < n
        invariant
            n == v@.len(),
            i <= n,
            res@ == v@.take(i as int),
        decreases n - i,
    {
        res.push(v[i]);
        assert(v@.take(i as int).push(v@[i as int]) =~= v@.take(i + 1));
        i += 1;
    }
    assert(v@.take(n as int) =~= v@);
    res
}

/// Words joined by single spaces: `["a", "b"]` gives `"a b"`.
pub open spec fn join_words(ws: Seq<Seq<char>>) -> Seq<char>
    decreases ws.len(),
{
    if ws.len() == 0 {
        Seq::empty()
    } else if ws.len() == 1 {
        ws[0]
    } else {
        join_words(ws.drop_last()) + seq![' '] + ws.last()
    }
}

/// Strings joined with a separator: `join_with(["a", "b"], ", ")` gives `"a, b"`.
pub open spec fn join_with(ws: Seq<Seq<char>>, sep: Seq<char>) -> Seq<char>
    decreases ws.len(),
{
    if ws.len() == 0 {
        Seq::empty()
    } else if ws.len() == 1 {
        ws[0]
    } else {
        join_with(ws.drop_last(), sep) + sep + ws.last()
    }
}

/// The character views of a vector of character vectors.
pub open spec fn words_view(ws: Seq<Vec<char>>) -> Seq<Seq<char>> {
    ws.map_values(|w: Vec<char>| w@)
}

/// The character views of a vector of strings.
pub open spec fn strings_view(ws: Seq<String>) -> Seq<Seq<char>> {
    ws.map_values(|w: String| w@)
}

/// Joins the words `ws[from..]` with single spaces.
pub fn join_words_from(ws: &Vec<Vec<char>>, from: usize) -> (res: Vec<char>)
    requires
        from <= ws.len(),
    ensures
        res@ == join_words(words_view(ws@).subrange(from as int, ws@.len() as int)),
{
    let ghost wv = words_view(ws@);
    let n = ws.len();
    let mut res: Vec<char> = Vec::new();
    let mut i: usize = from;
    assert(wv.subrange(from as int, from as int) =~= Seq::<Seq<char>>::empty());
    while i < n
        invariant
            n == ws@.len(),
            wv == words_view(ws@),
            from <= i <= n,
            res@ == join_words(wv.subrange(from as int, i as int)),
        decreases n - i,
    {
        let ghost before = res@;
        if i > from {
            res.push(' ');
        }
        let w = &ws[i];
        let m = w.len();
        let mut k: usize = 0;
        let ghost base = res@;
        while k < m
            invariant
                m == w@.len(),
                k <= m,
                res@ == base + w@.take(k as int),
            decreases m - k,
        {
            res.push(w[k]);
            assert((base + w@.take(k as int)).push(w@[k as int]) =~= base + w@.take(k + 1));
            k += 1;
        }
        assert(w@.take(m as int) =~= w@);
        let ghost next = wv.subrange(from as int, i + 1);
        assert(next.drop_last() =~= wv.subrange(from as int, i as int));
        assert(next.last() == w@);
        if i == from {
            assert(before =~= Seq::<char>::empty());
            assert(res@ =~= w@);
        } else {
            assert(res@ =~= before + seq![' '] + w@);
        }
        i += 1;
    }
    res
}

/// Encoding a concatenation is concatenating the encodings.
pub proof fn lemma_encode_concat(a: Seq<char>, b: Seq<char>)
    ensures
        encode_utf8(a + b) == encode_utf8(a) + encode_utf8(b),
    decreases a.len(),
{
    if a.len() == 0 {
        assert(a + b =~= b);
        assert(Seq::<u8>::empty() + encode_utf8(b) =~= encode_utf8(b));
    } else {
        lemma_encode_concat(a.drop_first(), b);
        assert((a + b).drop_first() =~= a.drop_first() + b);
        assert((a + b)[0] == a[0]);
        assert(encode_scalar(a[0] as u32) + (encode_utf8(a.drop_first()) + encode_utf8(b))
            =~= (encode_scalar(a[0] as u32) + encode_utf8(a.drop_first())) + encode_utf8(b));
    }
}

/// The encoding of one character is its scalar encoding.
pub proof fn lemma_encode_single(c: char)
    ensures
        encode_utf8(seq![c]) == encode_scalar(c as u32),
{
    let s = seq![c];
    assert(s.drop_first() =~= Seq::<char>::empty());
    assert(encode_utf8(s.drop_first()) =~= Seq::<u8>::empty());
    assert(s[0] == c);
    assert(encode_utf8(s) =~= encode_scalar(c as u32) + Seq::<u8>::empty());
    assert(encode_scalar(c as u32) + Seq::<u8>::empty() =~= encode_scalar(c as u32));
}

/// The number of bytes `c` takes in UTF-8.
pub fn utf8_width(c: char) -> (res: usize)
    ensures
        res == encode_scalar(c as u32).len(),
        1 <= res <= 4,
{
    proof {
        vstd::utf8::char_is_scalar(c);
    }
    let u = c as u32;
    if u < 0x80 {
        1
    } else if u < 0x800 {
        2
    } else if u < 0x10000 {
        3
    } else {
        4
    }
}

/// `n` spaces followed by one space for each UTF-8 byte of `cs`.
pub fn spaces_under(n: usize, cs: &Vec<char>) -> (res: String)
    ensures
        res@ == Seq::new((n + encode_utf8(cs@).len()) as nat, |_i: int| ' '),
{
    let mut res = String::new();
    let mut k: usize = 0;
    while k < n
        invariant
            k <= n,
            res@ == Seq::new(k as nat, |_i: int| ' '),
        decreases n - k,
    {
        push_char(&mut res, ' ');
        assert(Seq::new(k as nat, |_i: int| ' ').push(' ') =~= Seq::new((k + 1) as nat, |_i: int| ' '));
        k += 1;
    }
    let m = cs.len();
    let mut i: usize = 0;
    assert(cs@.take(0) =~= Seq::<char>::empty());
    while i < m
        invariant
            m == cs@.len(),
            i <= m,
            res@ == Seq::new((n + encode_utf8(cs@.take(i as int)).len()) as nat, |_i: int| ' '),
        decreases m - i,
    {
        let w = utf8_width(cs[i]);
        let ghost before = res@.len();
        let mut j: usize = 0;
        while j < w
            invariant
                j <= w,
                res@ == Seq::new((before + j) as nat, |_i: int| ' '),
            decreases w - j,
        {
            push_char(&mut res, ' ');
            assert(Seq::new((before + j) as nat, |_i: int| ' ').push(' ') =~= Seq::new(
                (before + j + 1) as nat,
                |_i: int| ' ',
            ));
            j += 1;
        }
        proof {
            assert(cs@.take(i + 1) =~= cs@.take(i as int) + seq![cs@[i as int]]);
            lemma_encode_concat(cs@.take(i as int), seq![cs@[i as int]]);
            lemma_encode_single(cs@[i as int]);
        }
        i += 1;
    }
    assert(cs@.take(m as int) =~= cs@);
    res
}

/// The length of `s` in UTF-8 bytes, or `None` where it exceeds `usize::MAX`.
pub fn utf8_len_checked(s: &str) -> (res: Option<usize>)
    ensures
        match res {
            Some(n) => n == encode_utf8(s@).len(),
            None => encode_utf8(s@).len() > usize::MAX,
        },
{
    let cs = chars_of(s);
    let m = cs.len();
    let mut total: usize = 0;
    let mut i: usize = 0;
    assert(cs@.take(0) =~= Seq::<char>::empty());
    while i < m
        invariant
            m == cs@.len(),
            cs@ == s@,
            i <= m,
            total == encode_utf8(cs@.take(i as int)).len(),
        decreases m - i,
    {
        let w = utf8_width(cs[i]);
        proof {
            assert(cs@.take(i + 1) =~= cs@.take(i as int) + seq![cs@[i as int]]);
            lemma_encode_concat(cs@.take(i as int), seq![cs@[i as int]]);
            lemma_encode_single(cs@[i as int]);
        }
        match total.checked_add(w) {
            Some(t) => {
                total = t;
            },
            None => {
                proof {
                    assert(cs@ =~= cs@.take(i + 1) + cs@.skip(i + 1));
                    lemma_encode_concat(cs@.take(i + 1), cs@.skip(i + 1));
                }
                return None;
            },
        }
        i += 1;
    }
    assert(cs@.take(m as int) =~= cs@);
    Some(total)
}

/// A text takes at least one byte per character.
pub proof fn lemma_encode_len_ge(s: Seq<char>)
    ensures
        encode_utf8(s).len() >= s.len(),
    decreases s.len(),
{
    if s.len() > 0 {
        lemma_encode_len_ge(s.drop_first());
    }
}

/// A text of exactly one byte is one ASCII character.
pub proof fn lemma_single_byte(s: Seq<char>)
    requires
        encode_utf8(s).len() == 1,
    ensures
        s.len() == 1,
        (s[0] as u32) < 0x80,
{
    if s.len() == 0 {
        assert(encode_utf8(s).len() == 0);
    }
    lemma_encode_len_ge(s.drop_first());
}

/// Whether two character vectors hold the same characters.
pub fn chars_eq(a: &Vec<char>, b: &Vec<char>) -> (res: bool)
    ensures
        res == (a@ == b@),
{
    if a.len() != b.len() {
        return false;
    }
    let n = a.len();
    let mut i: usize = 0;
    while i < n
        invariant
            n == a@.len(),
            n == b@.len(),
            i <= n,
            forall|j: int| 0 <= j < i ==> a@[j] == b@[j],
        decreases n - i,
    {
        if a[i] != b[i] {
            return false;
        }
        i += 1;
    }
    assert(a@ =~= b@);
    true
}

} // verus!
