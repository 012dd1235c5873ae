//! Writing a format back as source text and reading it again.
//!
//! [`LocaleFmt::to_source`](crate::locale::fmt::LocaleFmt) writes characters
//! as they are, so a format whose text holds no `{`, `}` or `\` reads back as
//! itself.

use vstd::prelude::*;
use vstd::utf8::{decode_utf8, encode_utf8, encode_utf8_decode_utf8};

use crate::chars::{lemma_encode_concat, lemma_encode_push, lemma_encode_single, lemma_scalar_len, lemma_utf8_len_ge, utf8_len};
use crate::decimal::{decimal_digits, decimal_value, is_digit, lemma_decimal_digits};
use crate::locale::def::{fill_args, marker, slice_text, source_spec};
use crate::locale::fmt::{
    escape_char, fold_tokens, leading_digits, next_arg_start, parse_spec, step, tokenize, tokens_fmt, FmtToken,
    FmtView,
};

verus! {

broadcast use vstd::seq::group_seq_axioms;

/// A character that is written and read as itself.
pub open spec fn plain_char(c: char) -> bool {
    c != '{' && c != '}' && c != '\\'
}

/// A text of plain characters.
pub open spec fn plain_text(s: Seq<char>) -> bool {
    forall|i: int| 0 <= i < s.len() ==> plain_char(#[trigger] s[i])
}

/// Tokens whose characters are all plain.
pub open spec fn plain_tokens(toks: Seq<FmtToken>) -> bool {
    forall|i: int| 0 <= i < toks.len() ==> (#[trigger] toks[i] matches FmtToken::Char(c) ==> plain_char(c))
}

/// The source text of one token: the character itself, or the marker.
pub open spec fn token_text(t: FmtToken) -> Seq<char> {
    match t {
        FmtToken::Char(c) => seq![c],
        FmtToken::Index(i) => marker(i),
    }
}

/// The source text of a token sequence.
pub open spec fn render_tokens(toks: Seq<FmtToken>) -> Seq<char>
    decreases toks.len(),
{
    if toks.len() == 0 {
        Seq::empty()
    } else {
        token_text(toks[0]) + render_tokens(toks.drop_first())
    }
}

/// Rendering a sequence extended by one token appends the token's text.
proof fn lemma_render_push(toks: Seq<FmtToken>, t: FmtToken)
    ensures
        render_tokens(toks.push(t)) == render_tokens(toks) + token_text(t),
    decreases toks.len(),
{
    if toks.len() == 0 {
        let one = toks.push(t);
        assert(one.drop_first() =~= Seq::<FmtToken>::empty());
        assert(one[0] == t);
        assert(render_tokens(one.drop_first()) == Seq::<char>::empty());
        assert(render_tokens(toks) == Seq::<char>::empty());
        assert(render_tokens(one) =~= token_text(t));
        assert(render_tokens(toks) + token_text(t) =~= token_text(t));
    } else {
        lemma_render_push(toks.drop_first(), t);
        assert(toks.push(t).drop_first() =~= toks.drop_first().push(t));
        assert(render_tokens(toks.push(t)) =~= render_tokens(toks) + token_text(t));
    }
}

/// The digits of a number followed by a non-digit: as many leading digits as
/// the number has.
proof fn lemma_leading_digits(digits: Seq<char>, rest: Seq<char>)
    requires
        forall|i: int| 0 <= i < digits.len() ==> is_digit(#[trigger] digits[i]),
        rest.len() > 0,
        !is_digit(rest[0]),
    ensures
        leading_digits(digits + rest) == digits.len(),
    decreases digits.len(),
{
    if digits.len() == 0 {
        assert(digits + rest =~= rest);
    } else {
        assert((digits + rest).drop_first() =~= digits.drop_first() + rest);
        assert((digits + rest)[0] == digits[0]);
        lemma_leading_digits(digits.drop_first(), rest);
    }
}

/// Plain tokens are read back from their rendering.
pub proof fn lemma_tokenize_render(toks: Seq<FmtToken>)
    requires
        plain_tokens(toks),
    ensures
        tokenize(render_tokens(toks)) == Some(toks),
    decreases toks.len(),
{
    if toks.len() == 0 {
        assert(render_tokens(toks) =~= Seq::<char>::empty());
        assert(toks =~= Seq::<FmtToken>::empty());
    } else {
        let t = toks[0];
        let rest = toks.drop_first();
        assert forall|i: int| 0 <= i < rest.len() implies (#[trigger] rest[i] matches FmtToken::Char(
            c,
        ) ==> plain_char(c)) by {
            assert(rest[i] == toks[i + 1]);
        }
        lemma_tokenize_render(rest);
        let s = render_tokens(toks);
        let n = token_text(t).len();
        assert(s == token_text(t) + render_tokens(rest));
        match t {
            FmtToken::Char(c) => {
                assert(toks[0] matches FmtToken::Char(c) ==> plain_char(c));
                assert(s[0] == c);
                assert(step(s) == Some((t, 1nat)));
            },
            FmtToken::Index(i) => {
                let digits = decimal_digits(i as nat);
                lemma_decimal_digits(i as nat);
                let tail = seq!['}'] + render_tokens(rest);
                assert(s =~= seq!['{'] + (digits + tail));
                assert(s.skip(1) =~= digits + tail);
                lemma_leading_digits(digits, tail);
                let d = digits.len();
                assert(s[1] == digits[0]);
                assert(s.subrange(1, (d + 1) as int) =~= digits);
                assert(s[(d + 1) as int] == '}');
                assert(n == d + 2);
                assert(step(s) == Some((t, n)));
            },
        }
        assert(s.skip(n as int) =~= render_tokens(rest));
        assert(seq![t] + rest =~= toks);
    }
}

/// The text between two character positions, as bytes and back.
proof fn lemma_slice_positions(f: Seq<char>, i: int, j: int)
    requires
        0 <= i <= j <= f.len(),
    ensures
        slice_text(f, utf8_len(f.take(i)), utf8_len(f.take(j))) == f.subrange(i, j),
{
    let a = f.take(i);
    let b = f.subrange(i, j);
    let c = f.skip(j);
    assert(f =~= a + b + c);
    lemma_encode_concat(a + b, c);
    lemma_encode_concat(a, b);
    assert(f.take(j) =~= a + b);
    assert(encode_utf8(f).subrange(utf8_len(a) as int, utf8_len(a + b) as int) =~= encode_utf8(b));
    encode_utf8_decode_utf8(b);
}

/// A slice that ends within a text is the same once the text is extended.
proof fn lemma_slice_extend(f: Seq<char>, c: char, x: nat, y: nat)
    requires
        x <= y <= utf8_len(f),
    ensures
        slice_text(f.push(c), x, y) == slice_text(f, x, y),
{
    lemma_encode_push(f, c);
    assert(encode_utf8(f.push(c)).subrange(x as int, y as int) =~= encode_utf8(f).subrange(
        x as int,
        y as int,
    ));
}

/// Arguments that end within a text fill the same once the text is extended.
proof fn lemma_fill_extend(f: Seq<char>, c: char, a: Seq<(usize, usize, usize)>)
    requires
        forall|k: int| 0 <= k < a.len() ==> (#[trigger] a[k]).0 <= a[k].1 <= utf8_len(f),
    ensures
        fill_args(f.push(c), a, |i: usize| marker(i)) == fill_args(f, a, |i: usize| marker(i)),
    decreases a.len(),
{
    if a.len() > 0 {
        assert forall|k: int| 0 <= k < a.drop_last().len() implies (#[trigger] a.drop_last()[k]).0
            <= a.drop_last()[k].1 <= utf8_len(f) by {
            assert(a.drop_last()[k] == a[k]);
        }
        lemma_fill_extend(f, c, a.drop_last());
        let x = a.last();
        assert(x == a[a.len() - 1]);
        lemma_encode_push(f, c);
        lemma_slice_extend(f, c, x.0 as nat, x.1 as nat);
    }
}

/// What folding tokens gives: arguments that start where the previous one
/// ended and end within the text, the last end at character position `p`,
/// and the source text of the tokens.
pub open spec fn fold_facts(toks: Seq<FmtToken>, p: int) -> bool {
    let (f, a) = fold_tokens(toks);
    &&& 0 <= p <= f.len()
    &&& next_arg_start(a) == utf8_len(f.take(p))
    &&& forall|k: int| 0 <= k < a.len() ==> (#[trigger] a[k]).0 <= a[k].1 <= utf8_len(f)
    &&& fill_args(f, a, |i: usize| marker(i)).1 == next_arg_start(a)
    &&& render_tokens(toks) == fill_args(f, a, |i: usize| marker(i)).0 + slice_text(
        f,
        next_arg_start(a) as nat,
        utf8_len(f),
    )
}

/// Folding one more character keeps the facts.
proof fn lemma_fold_char(prev: Seq<FmtToken>, c: char, q: int)
    requires
        fold_facts(prev, q),
    ensures
        fold_facts(prev.push(FmtToken::Char(c)), q),
{
    let toks = prev.push(FmtToken::Char(c));
    let (f, a) = fold_tokens(prev);
    assert(toks.drop_last() =~= prev);
    assert(fold_tokens(toks) == (f.push(c), a));
    lemma_render_push(prev, FmtToken::Char(c));
    let f2 = f.push(c);
    lemma_fill_extend(f, c, a);
    lemma_encode_push(f, c);
    assert(f2.take(q) =~= f.take(q));
    lemma_slice_positions(f, q, f.len() as int);
    lemma_slice_positions(f2, q, f2.len() as int);
    assert(f.take(f.len() as int) =~= f);
    assert(f2.take(f2.len() as int) =~= f2);
    assert(f2.subrange(q, f2.len() as int) =~= f.subrange(q, f.len() as int).push(c));
    assert forall|k: int| 0 <= k < a.len() implies (#[trigger] a[k]).0 <= a[k].1 <= utf8_len(f2) by {}
    assert(render_tokens(toks) =~= fill_args(f2, a, |i: usize| marker(i)).0 + slice_text(
        f2,
        next_arg_start(a) as nat,
        utf8_len(f2),
    ));
}

/// Folding one more marker keeps the facts, the last end now at the text's end.
proof fn lemma_fold_index(prev: Seq<FmtToken>, i: usize, q: int)
    requires
        fold_facts(prev, q),
        utf8_len(fold_tokens(prev).0) <= usize::MAX,
    ensures
        fold_facts(prev.push(FmtToken::Index(i)), fold_tokens(prev).0.len() as int),
{
    let toks = prev.push(FmtToken::Index(i));
    let (f, a) = fold_tokens(prev);
    let e = utf8_len(f);
    let a2 = a.push((next_arg_start(a), e as usize, i));
    assert(toks.drop_last() =~= prev);
    assert(fold_tokens(toks) == (f, a2));
    lemma_render_push(prev, FmtToken::Index(i));
    assert(f.take(f.len() as int) =~= f);
    crate::chars::lemma_utf8_len_split(f, q, f.len() as int);
    assert(next_arg_start(a) <= e);
    assert(a2.drop_last() =~= a);
    assert(a2.last() == (next_arg_start(a), e as usize, i));
    assert forall|k: int| 0 <= k < a2.len() implies (#[trigger] a2[k]).0 <= a2[k].1 <= utf8_len(f) by {
        if k < a.len() {
            assert(a2[k] == a[k]);
        }
    }
    lemma_slice_positions(f, f.len() as int, f.len() as int);
    assert(f.subrange(f.len() as int, f.len() as int) =~= Seq::<char>::empty());
    let fill = |j: usize| marker(j);
    let (out, last) = fill_args(f, a, fill);
    assert(fill_args(f, a2, fill).0 == out + slice_text(f, next_arg_start(a) as nat, e) + marker(i));
    assert(fill_args(f, a2, fill).1 == e);
    assert(render_tokens(toks) =~= fill_args(f, a2, fill).0 + slice_text(f, e, e));
}

/// Folding tokens gives a format whose source text is the tokens' rendering.
proof fn lemma_fold_source(toks: Seq<FmtToken>) -> (p: int)
    requires
        utf8_len(fold_tokens(toks).0) <= usize::MAX,
    ensures
        fold_facts(toks, p),
    decreases toks.len(),
{
    if toks.len() == 0 {
        let f = Seq::<char>::empty();
        assert(f.take(0) =~= f);
        assert(render_tokens(toks) =~= Seq::<char>::empty());
        lemma_slice_positions(f, 0, 0);
        assert(f.subrange(0, 0) =~= Seq::<char>::empty());
        0
    } else {
        let prev = toks.drop_last();
        assert(toks =~= prev.push(toks.last()));
        let (f, a) = fold_tokens(prev);
        match toks.last() {
            FmtToken::Char(c) => {
                lemma_encode_push(f, c);
                let q = lemma_fold_source(prev);
                lemma_fold_char(prev, c, q);
                q
            },
            FmtToken::Index(i) => {
                let q = lemma_fold_source(prev);
                lemma_fold_index(prev, i, q);
                f.len() as int
            },
        }
    }
}

/// Text of the format folded from tokens is plain where the tokens' characters
/// are.
proof fn lemma_fold_plain(toks: Seq<FmtToken>)
    requires
        plain_text(fold_tokens(toks).0),
    ensures
        plain_tokens(toks),
    decreases toks.len(),
{
    if toks.len() > 0 {
        let prev = toks.drop_last();
        let (f, a) = fold_tokens(prev);
        match toks.last() {
            FmtToken::Char(c) => {
                assert(fold_tokens(toks).0 == f.push(c));
                assert forall|i: int| 0 <= i < f.len() implies plain_char(#[trigger] f[i]) by {
                    assert(f.push(c)[i] == f[i]);
                }
                assert(f.push(c)[f.len() as int] == c);
            },
            FmtToken::Index(_) => {},
        }
        lemma_fold_plain(prev);
        assert forall|i: int| 0 <= i < toks.len() implies (#[trigger] toks[i] matches FmtToken::Char(
            c,
        ) ==> plain_char(c)) by {
            if i < prev.len() {
                assert(toks[i] == prev[i]);
            } else {
                assert(toks[i] == toks.last());
                if let FmtToken::Char(c) = toks.last() {
                    assert(fold_tokens(toks).0 == f.push(c));
                    assert(f.push(c)[f.len() as int] == c);
                }
            }
        }
    }
}

/// The characters a token puts into a format's text.
pub open spec fn token_chars(t: FmtToken) -> Seq<char> {
    match t {
        FmtToken::Char(c) => seq![c],
        FmtToken::Index(_) => Seq::empty(),
    }
}

/// The text of tokens after a first one: that token's characters, then the
/// rest's text.
proof fn lemma_text_prepend(t: FmtToken, rest: Seq<FmtToken>)
    ensures
        fold_tokens(seq![t] + rest).0 == token_chars(t) + fold_tokens(rest).0,
    decreases rest.len(),
{
    let all = seq![t] + rest;
    if rest.len() == 0 {
        assert(all =~= seq![t]);
        assert(all.drop_last() =~= Seq::<FmtToken>::empty());
        assert(fold_tokens(all.drop_last()).0 =~= Seq::<char>::empty());
        assert(all.last() == t);
        assert(fold_tokens(rest).0 =~= Seq::<char>::empty());
        assert(token_chars(t) + Seq::<char>::empty() =~= token_chars(t));
        match t {
            FmtToken::Char(c) => {
                assert(Seq::<char>::empty().push(c) =~= seq![c]);
            },
            FmtToken::Index(_) => {},
        }
    } else {
        let r = rest.drop_last();
        lemma_text_prepend(t, r);
        assert(all.drop_last() =~= seq![t] + r);
        assert(all.last() == rest.last());
        assert(rest.drop_last() == r);
        match rest.last() {
            FmtToken::Char(c) => {
                assert((token_chars(t) + fold_tokens(r).0).push(c) =~= token_chars(t) + fold_tokens(r).0.push(c));
            },
            FmtToken::Index(_) => {},
        }
    }
}

/// A token's characters take no more bytes than the source text it is read
/// from.
proof fn lemma_token_bytes(s: Seq<char>)
    requires
        s.len() > 0,
        step(s) is Some,
        0 < (step(s)->0).1 <= s.len(),
    ensures
        utf8_len(token_chars((step(s)->0).0)) <= utf8_len(s.take((step(s)->0).1 as int)),
{
    let (t, n) = step(s)->0;
    lemma_utf8_len_ge(s.take(n as int));
    match t {
        FmtToken::Char(c) => {
            lemma_encode_single(c);
            lemma_scalar_len(c);
            if n == 1 {
                assert(s.take(1) =~= seq![c]);
            } else if s[0] == '\\' && s[1] != 'u' {
                let e = escape_char(s[1])->0;
                assert(e == c);
                assert((e as u32) < 0x80);
            }
        },
        FmtToken::Index(_) => {},
    }
}

/// The text of a format read from a source text takes no more bytes than the
/// source text.
proof fn lemma_text_within_source(s: Seq<char>)
    requires
        tokenize(s) is Some,
    ensures
        utf8_len(fold_tokens(tokenize(s)->0).0) <= utf8_len(s),
    decreases s.len(),
{
    if s.len() == 0 {
        assert(fold_tokens(tokenize(s)->0).0 =~= Seq::<char>::empty());
    } else {
        let (t, n) = step(s)->0;
        let tail = s.skip(n as int);
        lemma_text_within_source(tail);
        lemma_text_prepend(t, tokenize(tail)->0);
        lemma_token_bytes(s);
        lemma_encode_concat(token_chars(t), fold_tokens(tokenize(tail)->0).0);
        assert(s =~= s.take(n as int) + tail);
        lemma_encode_concat(s.take(n as int), tail);
    }
}

/// A format read from source text, whose text holds no `{`, `}` or `\`,
/// reads back as itself from the source text it is written as. The source
/// text's length in bytes is that of a string, which fits the address space.
pub proof fn law_source_round_trip(s: Seq<char>)
    requires
        parse_spec(s) is Some,
        plain_text(parse_spec(s)->0.text()),
        utf8_len(s) <= usize::MAX,
    ensures
        parse_spec(source_spec(parse_spec(s)->0)) == parse_spec(s),
{
    lemma_text_within_source(s);
    let toks = tokenize(s)->0;
    let (f, a) = fold_tokens(toks);
    let p = lemma_fold_source(toks);
    lemma_fold_plain(toks);
    lemma_tokenize_render(toks);
    let v = tokens_fmt(toks);
    if a.len() == 0 {
        assert(f.take(0) =~= Seq::<char>::empty());
        lemma_slice_positions(f, 0, f.len() as int);
        assert(f.take(f.len() as int) =~= f);
        assert(f.subrange(0, f.len() as int) =~= f);
        assert(fill_args(f, a, |i: usize| marker(i)).0 =~= Seq::<char>::empty());
        assert(render_tokens(toks) =~= f);
        assert(source_spec(v) == f);
    } else {
        assert(source_spec(v) == render_tokens(toks));
    }
}

/// A source text in which every token is written as its own text: plain
/// characters as themselves and each argument marker as `{n}` with `n` in
/// decimal without leading zeros; so it has no `\` escape and no `{{` or
/// `}}`.
pub open spec fn written_as_read(s: Seq<char>) -> bool
    decreases s.len(),
{
    if s.len() == 0 {
        true
    } else {
        match step(s) {
            Some((t, n)) => 0 < n <= s.len() && s.take(n as int) == token_text(t) && written_as_read(
                s.skip(n as int),
            ),
            None => false,
        }
    }
}

/// Such a text reads as tokens that render back to it.
proof fn lemma_written_tokens(s: Seq<char>)
    requires
        written_as_read(s),
    ensures
        tokenize(s) is Some,
        render_tokens(tokenize(s)->0) == s,
    decreases s.len(),
{
    if s.len() > 0 {
        let (t, n) = step(s)->0;
        lemma_written_tokens(s.skip(n as int));
        let rest = tokenize(s.skip(n as int))->0;
        let toks = seq![t] + rest;
        assert(toks[0] == t);
        assert(toks.drop_first() =~= rest);
        assert(s =~= s.take(n as int) + s.skip(n as int));
    } else {
        assert(render_tokens(Seq::<FmtToken>::empty()) =~= Seq::<char>::empty());
    }
}

/// The source text of the format of a token sequence is their rendering.
proof fn lemma_source_render(toks: Seq<FmtToken>)
    requires
        utf8_len(fold_tokens(toks).0) <= usize::MAX,
    ensures
        source_spec(tokens_fmt(toks)) == render_tokens(toks),
{
    let (f, a) = fold_tokens(toks);
    let p = lemma_fold_source(toks);
    if a.len() == 0 {
        assert(f.take(0) =~= Seq::<char>::empty());
        lemma_slice_positions(f, 0, f.len() as int);
        assert(f.take(f.len() as int) =~= f);
        assert(f.subrange(0, f.len() as int) =~= f);
        assert(fill_args(f, a, |i: usize| marker(i)).0 =~= Seq::<char>::empty());
        assert(render_tokens(toks) =~= f);
    }
}

/// The text of a token sequence's format takes no more bytes than the
/// tokens' rendering: it drops the markers and keeps every character.
proof fn lemma_text_within_render(toks: Seq<FmtToken>)
    ensures
        utf8_len(fold_tokens(toks).0) <= utf8_len(render_tokens(toks)),
    decreases toks.len(),
{
    if toks.len() > 0 {
        let d = toks.drop_last();
        let t = toks.last();
        lemma_text_within_render(d);
        lemma_render_push(d, t);
        assert(d.push(t) =~= toks);
        lemma_encode_concat(render_tokens(d), token_text(t));
        match t {
            FmtToken::Char(c) => {
                lemma_encode_push(fold_tokens(d).0, c);
                lemma_encode_single(c);
            },
            FmtToken::Index(_) => {},
        }
    }
}

/// A format read from a source text in which every token is written as its
/// own text is written back as exactly that text, which reads again as the
/// same format: printing then parsing gives the format back. The text's
/// length in bytes is that of a string, which fits the address space.
pub proof fn law_source_written_back(s: Seq<char>)
    requires
        written_as_read(s),
        utf8_len(s) <= usize::MAX,
    ensures
        parse_spec(s) is Some,
        source_spec(parse_spec(s)->0) == s,
        parse_spec(source_spec(parse_spec(s)->0)) == parse_spec(s),
{
    lemma_written_tokens(s);
    let toks = tokenize(s)->0;
    lemma_text_within_render(toks);
    lemma_source_render(toks);
}

} // verus!
