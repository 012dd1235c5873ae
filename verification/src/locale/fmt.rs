//! Locale format strings: their grammar, their parsed form [`LocaleFmt`], and
//! the parser.
//!
//! A format string is a sequence of fragments:
//! - any character other than `\`, `{` and `}` stands for itself;
//! - `{{` and `}}` stand for `{` and `}`;
//! - `{n}`, with `n` one or more decimal digits whose value fits a `usize`,
//!   marks the position where positional argument `n` is inserted;
//! - `\n`, `\r`, `\t`, `\b`, `\f`, `\\`, `\/` and `\"` are the usual escapes,
//!   and `\u{h}` with one to six hex digits `h` names a Unicode scalar.
//!
//! Any other input is rejected.

use std::ops::Range;

use vstd::prelude::*;

use vstd::utf8::encode_utf8;

use crate::chars::utf8_len;
use crate::decimal::{decimal_value, digit_value, is_digit};

verus! {

broadcast use vstd::seq::group_seq_axioms;

/// A locale string, either unformatted or formatted.
///
/// Argument ranges are byte offsets into `format`: the text `format[start..end]`
/// is written before argument `index`, and the text after the last range is
/// written at the end.
#[derive(Clone, Debug)]
pub enum LocaleFmt {
    /// Locale string with no arguments.
    Unformatted(String),
    /// Locale string with arguments.
    Formatted {
        /// The locale string format, without the positional argument markers.
        format: String,
        /// The pairs of format span and index of the argument to be appended.
        args: Vec<(Range<usize>, usize)>,
    },
}

/// Mathematical form of a [`LocaleFmt`]: the format text as characters and each
/// argument as `(start, end, index)`.
pub enum FmtView {
    Unformatted(Seq<char>),
    Formatted(Seq<char>, Seq<(usize, usize, usize)>),
}

/// View of one argument entry.
pub open spec fn arg_view(a: (Range<usize>, usize)) -> (usize, usize, usize) {
    (a.0.start, a.0.end, a.1)
}

/// View of an argument list.
pub open spec fn args_view(a: Seq<(Range<usize>, usize)>) -> Seq<(usize, usize, usize)> {
    a.map_values(|x: (Range<usize>, usize)| arg_view(x))
}

impl View for LocaleFmt {
    type V = FmtView;

    open spec fn view(&self) -> FmtView {
        match self {
            LocaleFmt::Unformatted(s) => FmtView::Unformatted(s@),
            LocaleFmt::Formatted { format, args } => FmtView::Formatted(format@, args_view(args@)),
        }
    }
}

/// One token of a format string: a character of the format text, or an
/// argument marker.
pub enum FmtToken {
    Char(char),
    Index(usize),
}

/// `c` is an ASCII hexadecimal digit.
pub open spec fn is_hex(c: char) -> bool {
    is_digit(c) || ('a' <= c && c <= 'f') || ('A' <= c && c <= 'F')
}

/// Value of a hexadecimal digit character.
pub open spec fn hex_digit_value(c: char) -> nat {
    if is_digit(c) {
        digit_value(c)
    } else if 'a' <= c && c <= 'f' {
        (c as int - 'a' as int + 10) as nat
    } else {
        (c as int - 'A' as int + 10) as nat
    }
}

/// Value of a sequence of hexadecimal digits, most significant first.
pub open spec fn hex_value(s: Seq<char>) -> nat
    decreases s.len(),
{
    if s.len() == 0 {
        0
    } else {
        hex_value(s.drop_last()) * 16 + hex_digit_value(s.last())
    }
}

/// Number of leading decimal digits of `s`.
pub open spec fn leading_digits(s: Seq<char>) -> nat
    decreases s.len(),
{
    if s.len() == 0 || !is_digit(s[0]) {
        0
    } else {
        1 + leading_digits(s.drop_first())
    }
}

/// Number of leading hexadecimal digits of `s`.
pub open spec fn leading_hex(s: Seq<char>) -> nat
    decreases s.len(),
{
    if s.len() == 0 || !is_hex(s[0]) {
        0
    } else {
        1 + leading_hex(s.drop_first())
    }
}

/// `v` is a Unicode scalar value.
pub open spec fn valid_scalar(v: nat) -> bool {
    v <= 0x10FFFF && !(0xD800 <= v && v <= 0xDFFF)
}

/// The character a one-letter escape `\c` stands for.
pub open spec fn escape_char(c: char) -> Option<char> {
    if c == 'n' {
        Some('\n')
    } else if c == 'r' {
        Some('\r')
    } else if c == 't' {
        Some('\t')
    } else if c == 'b' {
        Some('\u{08}')
    } else if c == 'f' {
        Some('\u{0C}')
    } else if c == '\\' {
        Some('\\')
    } else if c == '/' {
        Some('/')
    } else if c == '"' {
        Some('"')
    } else {
        None
    }
}

/// The token at the start of a non-empty `s` and how many characters it
/// takes, or `None` where no fragment starts there.
pub open spec fn step(s: Seq<char>) -> Option<(FmtToken, nat)> {
    let c = s[0];
    if c == '{' {
        if s.len() >= 2 && s[1] == '{' {
            Some((FmtToken::Char('{'), 2))
        } else {
            let d = leading_digits(s.skip(1));
            let v = decimal_value(s.subrange(1, (d + 1) as int));
            if d >= 1 && s.len() > d + 1 && s[(d + 1) as int] == '}' && v <= usize::MAX {
                Some((FmtToken::Index(v as usize), d + 2))
            } else {
                None
            }
        }
    } else if c == '}' {
        if s.len() >= 2 && s[1] == '}' {
            Some((FmtToken::Char('}'), 2))
        } else {
            None
        }
    } else if c == '\\' {
        if s.len() < 2 {
            None
        } else if s[1] == 'u' {
            let h = leading_hex(s.skip(3));
            let v = hex_value(s.subrange(3, (h + 3) as int));
            if s.len() >= 3 && s[2] == '{' && 1 <= h <= 6 && s.len() > h + 3 && s[(h + 3) as int] == '}'
                && valid_scalar(v) {
                Some((FmtToken::Char(v as char), h + 4))
            } else {
                None
            }
        } else {
            match escape_char(s[1]) {
                Some(e) => Some((FmtToken::Char(e), 2)),
                None => None,
            }
        }
    } else {
        Some((FmtToken::Char(c), 1))
    }
}

/// The tokens of a whole format string, or `None` where it is rejected.
pub open spec fn tokenize(s: Seq<char>) -> Option<Seq<FmtToken>>
    decreases s.len(),
{
    if s.len() == 0 {
        Some(Seq::empty())
    } else {
        match step(s) {
            Some((t, n)) => if 0 < n && n <= s.len() {
                match tokenize(s.skip(n as int)) {
                    Some(rest) => Some(seq![t] + rest),
                    None => None,
                }
            } else {
                None
            },
            None => None,
        }
    }
}

/// Start offset of the next argument: the end of the previous one, or zero.
pub open spec fn next_arg_start(a: Seq<(usize, usize, usize)>) -> usize {
    if a.len() == 0 {
        0
    } else {
        a.last().1
    }
}

/// Format text and arguments accumulated from a token sequence.
pub open spec fn fold_tokens(toks: Seq<FmtToken>) -> (Seq<char>, Seq<(usize, usize, usize)>)
    decreases toks.len(),
{
    if toks.len() == 0 {
        (Seq::empty(), Seq::empty())
    } else {
        let (f, a) = fold_tokens(toks.drop_last());
        match toks.last() {
            FmtToken::Char(c) => (f.push(c), a),
            FmtToken::Index(i) => (f, a.push((next_arg_start(a), utf8_len(f) as usize, i))),
        }
    }
}

/// The format a token sequence denotes: unformatted when it has no marker.
pub open spec fn tokens_fmt(toks: Seq<FmtToken>) -> FmtView {
    let (f, a) = fold_tokens(toks);
    if a.len() == 0 {
        FmtView::Unformatted(f)
    } else {
        FmtView::Formatted(f, a)
    }
}

/// The format a string denotes, or `None` where it is rejected.
pub open spec fn parse_spec(s: Seq<char>) -> Option<FmtView> {
    match tokenize(s) {
        Some(t) => Some(tokens_fmt(t)),
        None => None,
    }
}

/// Clamps a byte offset to a length.
pub open spec fn clamp(x: usize, len: nat) -> nat {
    if x <= len {
        x as nat
    } else {
        len
    }
}

/// Argument ranges that can be sliced out of the format text: each range is
/// ordered and both its ends, clamped to the text, fall on character
/// boundaries.
pub open spec fn args_wf(f: Seq<char>, a: Seq<(usize, usize, usize)>) -> bool {
    forall|k: int|
        0 <= k < a.len() ==> {
            &&& (#[trigger] a[k]).0 <= a[k].1
            &&& vstd::utf8::is_char_boundary(encode_utf8(f), clamp(a[k].0, utf8_len(f)) as int)
            &&& vstd::utf8::is_char_boundary(encode_utf8(f), clamp(a[k].1, utf8_len(f)) as int)
        }
}

impl FmtView {
    /// The format text.
    pub open spec fn text(self) -> Seq<char> {
        match self {
            FmtView::Unformatted(s) => s,
            FmtView::Formatted(s, _) => s,
        }
    }

    /// The argument list (empty when unformatted).
    pub open spec fn args(self) -> Seq<(usize, usize, usize)> {
        match self {
            FmtView::Unformatted(_) => Seq::empty(),
            FmtView::Formatted(_, a) => a,
        }
    }

    /// Every argument range can be sliced out of the text.
    pub open spec fn wf(self) -> bool {
        args_wf(self.text(), self.args())
    }
}

/// Error of [`LocaleFmt::parse`]: the character offset where no fragment of
/// the grammar starts.
#[derive(Clone, Copy, Debug, PartialEq, Eq)]
pub struct FmtParseError {
    /// Character offset of the offending fragment.
    pub offset: usize,
}

} // verus!

verus! {

/// Tokens already read, followed by the tokens of the rest.
pub open spec fn prepend(d: Seq<FmtToken>, o: Option<Seq<FmtToken>>) -> Option<Seq<FmtToken>> {
    match o {
        Some(r) => Some(d + r),
        None => None,
    }
}

/// Reading one token at offset `i` moves it from the rest to the prefix.
proof fn lemma_advance(s: Seq<char>, i: int, t: FmtToken, n: nat, done: Seq<FmtToken>)
    requires
        0 <= i < s.len(),
        step(s.skip(i)) == Some((t, n)),
        0 < n,
        i + n <= s.len(),
        tokenize(s) == prepend(done, tokenize(s.skip(i))),
    ensures
        tokenize(s) == prepend(done.push(t), tokenize(s.skip(i + n))),
{
    assert(s.skip(i).skip(n as int) =~= s.skip(i + n));
    match tokenize(s.skip(i + n)) {
        Some(r) => {
            assert(done + (seq![t] + r) =~= done.push(t) + r);
        },
        None => {},
    }
}

/// A position where no fragment starts rejects the whole string.
proof fn lemma_reject(s: Seq<char>, i: int, done: Seq<FmtToken>)
    requires
        0 <= i < s.len(),
        step(s.skip(i)) is None,
        tokenize(s) == prepend(done, tokenize(s.skip(i))),
    ensures
        tokenize(s) is None,
{
}

/// A run of `k` leading digits followed by a non-digit (or the end).
proof fn lemma_leading_digits(t: Seq<char>, k: int)
    requires
        0 <= k <= t.len(),
        forall|m: int| 0 <= m < k ==> is_digit(#[trigger] t[m]),
        k == t.len() || !is_digit(t[k]),
    ensures
        leading_digits(t) == k,
    decreases k,
{
    if k > 0 {
        assert forall|m: int| 0 <= m < k - 1 implies is_digit(#[trigger] t.drop_first()[m]) by {
            assert(t.drop_first()[m] == t[m + 1]);
        }
        if k < t.len() {
            assert(t.drop_first()[k - 1] == t[k]);
        }
        lemma_leading_digits(t.drop_first(), k - 1);
    }
}

/// A run of `k` leading hex digits followed by a non-hex-digit (or the end).
proof fn lemma_leading_hex(t: Seq<char>, k: int)
    requires
        0 <= k <= t.len(),
        forall|m: int| 0 <= m < k ==> is_hex(#[trigger] t[m]),
        k == t.len() || !is_hex(t[k]),
    ensures
        leading_hex(t) == k,
    decreases k,
{
    if k > 0 {
        assert forall|m: int| 0 <= m < k - 1 implies is_hex(#[trigger] t.drop_first()[m]) by {
            assert(t.drop_first()[m] == t[m + 1]);
        }
        if k < t.len() {
            assert(t.drop_first()[k - 1] == t[k]);
        }
        lemma_leading_hex(t.drop_first(), k - 1);
    }
}

/// At least `k` leading hex digits.
proof fn lemma_leading_hex_ge(t: Seq<char>, k: int)
    requires
        0 <= k <= t.len(),
        forall|m: int| 0 <= m < k ==> is_hex(#[trigger] t[m]),
    ensures
        leading_hex(t) >= k,
    decreases k,
{
    if k > 0 {
        assert forall|m: int| 0 <= m < k - 1 implies is_hex(#[trigger] t.drop_first()[m]) by {
            assert(t.drop_first()[m] == t[m + 1]);
        }
        lemma_leading_hex_ge(t.drop_first(), k - 1);
    }
}

/// Extending a hex digit sequence by one digit.
proof fn lemma_hex_value_push(s: Seq<char>, c: char)
    ensures
        hex_value(s.push(c)) == hex_value(s) * 16 + hex_digit_value(c),
{
    assert(s.push(c).drop_last() =~= s);
}

/// Checks for an ASCII decimal digit.
fn is_ascii_digit(c: char) -> (r: bool)
    ensures
        r == is_digit(c),
{
    c >= '0' && c <= '9'
}

/// Checks for an ASCII hexadecimal digit and returns its value.
fn hex_digit(c: char) -> (r: Option<u32>)
    ensures
        r is Some <==> is_hex(c),
        r matches Some(v) ==> v == hex_digit_value(c) && v < 16,
{
    if c >= '0' && c <= '9' {
        Some(c as u32 - '0' as u32)
    } else if c >= 'a' && c <= 'f' {
        Some(c as u32 - 'a' as u32 + 10)
    } else if c >= 'A' && c <= 'F' {
        Some(c as u32 - 'A' as u32 + 10)
    } else {
        None
    }
}

/// The character a one-letter escape stands for.
fn escape_of(c: char) -> (r: Option<char>)
    ensures
        r == escape_char(c),
{
    if c == 'n' {
        Some('\n')
    } else if c == 'r' {
        Some('\r')
    } else if c == 't' {
        Some('\t')
    } else if c == 'b' {
        Some('\u{08}')
    } else if c == 'f' {
        Some('\u{0C}')
    } else if c == '\\' {
        Some('\\')
    } else if c == '/' {
        Some('/')
    } else if c == '"' {
        Some('"')
    } else {
        None
    }
}

/// The character with the given scalar value (`char::from_u32`): `None`
/// exactly for surrogates and values above `0x10FFFF`.
#[verifier::external_body]
fn char_from_u32(v: u32) -> (r: Option<char>)
    ensures
        r == (if valid_scalar(v as nat) {
            Some((v as nat) as char)
        } else {
            None
        }),
{
    char::from_u32(v)
}

} // verus!

verus! {

/// Executable form of a token.
enum Frag {
    Char(char),
    Index(usize),
}

spec fn frag_token(f: Frag) -> FmtToken {
    match f {
        Frag::Char(c) => FmtToken::Char(c),
        Frag::Index(i) => FmtToken::Index(i),
    }
}

/// What a token read at `i` promises: it is the grammar's token there, it takes
/// at least one character, and a character token takes no more bytes than the
/// input it was read from.
spec fn token_read(s: Seq<char>, i: int, f: Frag, n: usize) -> bool {
    &&& step(s.skip(i)) == Some((frag_token(f), n as nat))
    &&& 0 < n
    &&& i + n <= s.len()
    &&& f matches Frag::Char(c) ==> vstd::utf8::encode_scalar(c as u32).len() <= utf8_len(
        s.subrange(i, i + n),
    )
}

/// Reads `{n}` at `i`, where `cs[i] == '{'` and `cs[i + 1] != '{'`.
fn read_index(cs: &Vec<char>, i: usize) -> (r: Option<(Frag, usize)>)
    requires
        i < cs.len(),
        cs@[i as int] == '{',
        !(i + 1 < cs.len() && cs@[i + 1] == '{'),
    ensures
        match r {
            Some((f, n)) => token_read(cs@, i as int, f, n),
            None => step(cs@.skip(i as int)) is None,
        },
{
    let ghost s = cs@;
    let n = cs.len();
    let mut j: usize = i + 1;
    let mut val: usize = 0;
    let mut overflow = false;
    while j < n && is_ascii_digit(cs[j])
        invariant
            s == cs@,
            n == s.len(),
            i < n,
            i + 1 <= j <= n,
            forall|m: int| i + 1 <= m < j ==> is_digit(#[trigger] s[m]),
            !overflow ==> val == decimal_value(s.subrange(i + 1, j as int)),
            overflow ==> decimal_value(s.subrange(i + 1, j as int)) > usize::MAX,
        decreases n - j,
    {
        let d = (cs[j] as u32 - '0' as u32) as usize;
        proof {
            assert(s.subrange(i + 1, j + 1) =~= s.subrange(i + 1, j as int).push(s[j as int]));
            crate::decimal::lemma_decimal_value_push(s.subrange(i + 1, j as int), s[j as int]);
        }
        if !overflow {
            match val.checked_mul(10) {
                Some(v10) => match v10.checked_add(d) {
                    Some(v) => {
                        val = v;
                    },
                    None => {
                        overflow = true;
                    },
                },
                None => {
                    overflow = true;
                },
            }
        }
        j = j + 1;
    }
    let ghost t = s.skip(i as int);
    let ghost d = j - (i + 1);
    proof {
        assert forall|m: int| 0 <= m < d implies is_digit(#[trigger] t.skip(1)[m]) by {
            assert(t.skip(1)[m] == s[i + 1 + m]);
        }
        if j < n {
            assert(t.skip(1)[d as int] == s[j as int]);
        }
        lemma_leading_digits(t.skip(1), d as int);
        assert(t.subrange(1, d + 1) =~= s.subrange(i + 1, j as int));
        assert(t[0] == '{');
        assert(!(t.len() >= 2 && t[1] == '{'));
    }
    if j > i + 1 && j < n && cs[j] == '}' && !overflow {
        proof {
            assert(t[d + 1] == s[j as int]);
        }
        Some((Frag::Index(val), j + 1 - i))
    } else {
        proof {
            if j < n {
                assert(t[d + 1] == s[j as int]);
            }
        }
        None
    }
}

/// Reads `\u{h}` at `i`, where `cs[i] == '\\'` and `cs[i + 1] == 'u'`.
fn read_unicode(cs: &Vec<char>, i: usize) -> (r: Option<(Frag, usize)>)
    requires
        i + 1 < cs.len(),
        cs@[i as int] == '\\',
        cs@[i + 1] == 'u',
    ensures
        match r {
            Some((f, n)) => token_read(cs@, i as int, f, n),
            None => step(cs@.skip(i as int)) is None,
        },
{
    let ghost s = cs@;
    let ghost t = s.skip(i as int);
    let n = cs.len();
    proof {
        assert(t[0] == '\\' && t[1] == 'u');
    }
    if !(i + 2 < n && cs[i + 2] == '{') {
        proof {
            if t.len() >= 3 {
                assert(t[2] == s[i + 2]);
            }
        }
        return None;
    }
    proof {
        assert(t[2] == '{');
    }
    let mut j: usize = i + 3;
    let mut val: u32 = 0;
    let mut stop = false;
    while j < n && j - (i + 3) < 7 && !stop
        invariant
            s == cs@,
            t == s.skip(i as int),
            n == s.len(),
            i + 3 <= j <= n,
            j - (i + 3) <= 7,
            forall|m: int| i + 3 <= m < j ==> is_hex(#[trigger] s[m]),
            val == hex_value(s.subrange(i + 3, j as int)),
            val < pow16(j - (i + 3)),
            stop ==> j < n && !is_hex(s[j as int]),
        decreases n - j + (if stop { 0int } else { 1int }),
    {
        match hex_digit(cs[j]) {
            Some(h) => {
                proof {
                    assert(s.subrange(i + 3, j + 1) =~= s.subrange(i + 3, j as int).push(s[j as int]));
                    lemma_hex_value_push(s.subrange(i + 3, j as int), s[j as int]);
                    lemma_pow16_step(j - (i + 3));
                }
                val = val * 16 + h;
                j = j + 1;
            },
            None => {
                stop = true;
            },
        }
    }
    let ghost h = j - (i + 3);
    let ghost u = t.skip(3);
    proof {
        assert forall|m: int| 0 <= m < h implies is_hex(#[trigger] u[m]) by {
            assert(u[m] == s[i + 3 + m]);
        }
        assert(t.subrange(3, h + 3) =~= s.subrange(i + 3, j as int));
        if h == 7 {
            lemma_leading_hex_ge(u, 7);
        } else {
            if j < n {
                assert(u[h as int] == s[j as int]);
            }
            lemma_leading_hex(u, h as int);
        }
    }
    if j > i + 3 && j - (i + 3) < 7 && j < n && cs[j] == '}' {
        proof {
            assert(t[h + 3] == s[j as int]);
        }
        match char_from_u32(val) {
            Some(ch) => {
                proof {
                    crate::chars::lemma_scalar_len(ch);
                    crate::chars::lemma_utf8_len_ge(s.subrange(i as int, j + 1));
                }
                Some((Frag::Char(ch), j + 1 - i))
            },
            None => None,
        }
    } else {
        proof {
            if j < n && h < 7 {
                assert(t[h + 3] == s[j as int]);
            }
        }
        None
    }
}

/// `16^k`.
spec fn pow16(k: int) -> int
    decreases k,
{
    if k <= 0 {
        1
    } else {
        16 * pow16(k - 1)
    }
}

proof fn lemma_pow16_step(k: int)
    requires
        0 <= k < 7,
    ensures
        pow16(k + 1) == 16 * pow16(k),
        pow16(k + 1) <= 0x1000_0000int,
{
    reveal_with_fuel(pow16, 8);
}

} // verus!

verus! {

/// Reads the token at `i`.
fn next_token(cs: &Vec<char>, i: usize) -> (r: Option<(Frag, usize)>)
    requires
        i < cs.len(),
    ensures
        match r {
            Some((f, n)) => token_read(cs@, i as int, f, n),
            None => step(cs@.skip(i as int)) is None,
        },
{
    let ghost s = cs@;
    let ghost t = s.skip(i as int);
    let n = cs.len();
    let c = cs[i];
    proof {
        assert(t[0] == c);
        if i + 1 < n {
            assert(t[1] == s[i + 1]);
        }
    }
    if c == '{' {
        if i + 1 < n && cs[i + 1] == '{' {
            proof {
                crate::chars::lemma_utf8_len_ge(s.subrange(i as int, i + 2));
            }
            Some((Frag::Char('{'), 2))
        } else {
            read_index(cs, i)
        }
    } else if c == '}' {
        if i + 1 < n && cs[i + 1] == '}' {
            proof {
                crate::chars::lemma_utf8_len_ge(s.subrange(i as int, i + 2));
            }
            Some((Frag::Char('}'), 2))
        } else {
            None
        }
    } else if c == '\\' {
        if i + 1 >= n {
            None
        } else if cs[i + 1] == 'u' {
            read_unicode(cs, i)
        } else {
            match escape_of(cs[i + 1]) {
                Some(e) => {
                    proof {
                        crate::chars::lemma_utf8_len_ge(s.subrange(i as int, i + 2));
                        crate::chars::lemma_scalar_len(e);
                    }
                    Some((Frag::Char(e), 2))
                },
                None => None,
            }
        }
    } else {
        proof {
            assert(s.subrange(i as int, i + 1) =~= seq![c]);
            crate::chars::lemma_encode_single(c);
        }
        Some((Frag::Char(c), 1))
    }
}

impl LocaleFmt {
    /// Parses a format string (see the [module](self) documentation for the
    /// grammar). Text with no argument marker gives [`LocaleFmt::Unformatted`].
    pub fn parse(input: &str) -> (r: Result<LocaleFmt, FmtParseError>)
        ensures
            match r {
                Ok(f) => parse_spec(input@) == Some(f@) && f@.wf(),
                Err(e) => parse_spec(input@) is None && e.offset < input@.len(),
            },
    {
        let total = input.as_bytes().len();
        let cs = crate::chars::str_chars(input);
        let n = cs.len();
        let ghost s = input@;
        let mut format = String::new();
        let mut args: Vec<(Range<usize>, usize)> = Vec::new();
        let mut byte_len: usize = 0;
        let mut start: usize = 0;
        let mut i: usize = 0;
        let ghost mut done: Seq<FmtToken> = Seq::empty();
        let ghost mut cpos: Seq<int> = Seq::empty();
        proof {
            assert(s.skip(0) =~= s);
            assert(tokenize(s) == prepend(done, tokenize(s.skip(0)))) by {
                match tokenize(s) {
                    Some(r) => {
                        assert(done + r =~= r);
                    },
                    None => {},
                }
            }
            assert(args_view(args@) =~= Seq::<(usize, usize, usize)>::empty());
            assert(s.take(0) =~= Seq::<char>::empty());
        }
        while i < n
            invariant
                cs@ == s,
                s == input@,
                n == s.len(),
                i <= n,
                utf8_len(s) == total,
                tokenize(s) == prepend(done, tokenize(s.skip(i as int))),
                fold_tokens(done) == (format@, args_view(args@)),
                byte_len == utf8_len(format@),
                byte_len <= utf8_len(s.take(i as int)),
                start == next_arg_start(args_view(args@)),
                cpos.len() == args@.len(),
                forall|k: int|
                    0 <= k < cpos.len() ==> 0 <= #[trigger] cpos[k] <= format@.len()
                        && args@[k].0.end == utf8_len(format@.take(cpos[k])),
                forall|k: int|
                    0 <= k < cpos.len() ==> args@[k].0.start == (if k == 0 {
                        0
                    } else {
                        args@[k - 1].0.end
                    }),
                forall|k: int| 0 < k < cpos.len() ==> cpos[k - 1] <= #[trigger] cpos[k],
            decreases n - i,
        {
            match next_token(&cs, i) {
                None => {
                    proof {
                        lemma_reject(s, i as int, done);
                    }
                    return Err(FmtParseError { offset: i });
                },
                Some((Frag::Char(c), m)) => {
                    proof {
                        lemma_advance(s, i as int, FmtToken::Char(c), m as nat, done);
                        crate::chars::lemma_encode_push(format@, c);
                        crate::chars::lemma_utf8_len_split(s, i as int, i + m);
                        assert(done.push(FmtToken::Char(c)).drop_last() =~= done);
                        assert forall|k: int| 0 <= k < cpos.len() implies format@.push(c).take(
                            #[trigger] cpos[k],
                        ) == format@.take(cpos[k]) by {
                            assert(format@.push(c).take(cpos[k]) =~= format@.take(cpos[k]));
                        }
                    }
                    let w = crate::chars::char_utf8_len(c);
                    crate::chars::string_push(&mut format, c);
                    byte_len = byte_len + w;
                    proof {
                        done = done.push(FmtToken::Char(c));
                    }
                    i = i + m;
                },
                Some((Frag::Index(idx), m)) => {
                    proof {
                        lemma_advance(s, i as int, FmtToken::Index(idx), m as nat, done);
                        crate::chars::lemma_utf8_len_split(s, i as int, i + m);
                        assert(done.push(FmtToken::Index(idx)).drop_last() =~= done);
                        assert(format@.take(format@.len() as int) =~= format@);
                    }
                    let ghost prev = args@;
                    args.push((Range { start: start, end: byte_len }, idx));
                    proof {
                        assert(args_view(args@) =~= args_view(prev).push(
                            (start, byte_len, idx),
                        ));
                        done = done.push(FmtToken::Index(idx));
                        cpos = cpos.push(format@.len() as int);
                    }
                    start = byte_len;
                    i = i + m;
                },
            }
        }
        proof {
            assert(s.skip(n as int) =~= Seq::<char>::empty());
            assert(done + Seq::<FmtToken>::empty() =~= done);
            lemma_parsed_wf(format@, args_view(args@), args@, cpos);
        }
        if args.len() == 0 {
            Ok(LocaleFmt::Unformatted(format))
        } else {
            Ok(LocaleFmt::Formatted { format, args })
        }
    }
}

} // verus!

verus! {

/// Argument ranges built at character prefixes of the text are well formed.
proof fn lemma_parsed_wf(
    f: Seq<char>,
    av: Seq<(usize, usize, usize)>,
    a: Seq<(Range<usize>, usize)>,
    cpos: Seq<int>,
)
    requires
        av == args_view(a),
        cpos.len() == a.len(),
        forall|k: int|
            0 <= k < cpos.len() ==> 0 <= #[trigger] cpos[k] <= f.len() && a[k].0.end == utf8_len(
                f.take(cpos[k]),
            ),
        forall|k: int|
            0 <= k < cpos.len() ==> a[k].0.start == (if k == 0 {
                0
            } else {
                a[k - 1].0.end
            }),
        forall|k: int| 0 < k < cpos.len() ==> cpos[k - 1] <= #[trigger] cpos[k],
    ensures
        args_wf(f, av),
{
    assert forall|k: int| 0 <= k < av.len() implies {
        &&& (#[trigger] av[k]).0 <= av[k].1
        &&& vstd::utf8::is_char_boundary(encode_utf8(f), clamp(av[k].0, utf8_len(f)) as int)
        &&& vstd::utf8::is_char_boundary(encode_utf8(f), clamp(av[k].1, utf8_len(f)) as int)
    } by {
        assert(av[k] == arg_view(a[k]));
        crate::chars::lemma_prefix_boundary(f, cpos[k]);
        crate::chars::lemma_utf8_len_split(f, cpos[k], f.len() as int);
        if k == 0 {
            crate::chars::lemma_prefix_boundary(f, 0);
            assert(f.take(0) =~= Seq::<char>::empty());
            crate::chars::lemma_utf8_len_split(f, 0, cpos[k]);
        } else {
            let p = cpos[k - 1];
            assert(cpos[k - 1] <= cpos[k]);
            crate::chars::lemma_prefix_boundary(f, p);
            crate::chars::lemma_utf8_len_split(f, p, cpos[k]);
        }
    }
}

} // verus!
