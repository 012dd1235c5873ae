//! Locales: maps from locale keys to format strings, and localization of a key
//! with positional arguments.

use std::ops::Range;

use bevy_platform::collections::HashMap;
use bevy_platform::hash::FixedHasher;
use vstd::prelude::*;
use vstd::string::StringSliceAdditionalSpecFns;
use vstd::utf8::{decode_utf8, encode_utf8, is_char_boundary};

use crate::chars::utf8_len;
use crate::locale::fmt::{args_view, arg_view, clamp, FmtView, LocaleFmt};

verus! {

broadcast use vstd::seq::group_seq_axioms;

#[verifier::external_type_specification]
#[verifier::external_body]
#[verifier::reject_recursive_types(K)]
#[verifier::reject_recursive_types(V)]
#[verifier::reject_recursive_types(S)]
pub struct ExHashMap<K, V, S>(HashMap<K, V, S>);

#[verifier::external_type_specification]
#[verifier::external_body]
pub struct ExFixedHasher(FixedHasher);

/// The entries of a locale map, keyed by the characters of each key.
pub uninterp spec fn locale_entries(m: HashMap<String, LocaleFmt>) -> Map<Seq<char>, LocaleFmt>;

/// An empty map (`HashMap::new`).
#[verifier::external_body]
fn locale_map_new() -> (r: HashMap<String, LocaleFmt>)
    ensures
        locale_entries(r) =~= Map::empty(),
{
    HashMap::new()
}

/// Looks a key up (`HashMap::get`): the value stored under a key with the same
/// characters, if any.
#[verifier::external_body]
fn locale_map_get<'a>(m: &'a HashMap<String, LocaleFmt>, key: &str) -> (r: Option<&'a LocaleFmt>)
    ensures
        match r {
            Some(v) => locale_entries(*m).contains_key(key@) && *v == locale_entries(*m)[key@],
            None => !locale_entries(*m).contains_key(key@),
        },
{
    m.get(key)
}

/// Stores a value under a key (`HashMap::insert`), returning the value it
/// replaces.
#[verifier::external_body]
fn locale_map_insert(m: &mut HashMap<String, LocaleFmt>, key: String, v: LocaleFmt) -> (r: Option<
    LocaleFmt,
>)
    ensures
        locale_entries(*final(m)) == locale_entries(*old(m)).insert(key@, v),
        r == (if locale_entries(*old(m)).contains_key(key@) {
            Some(locale_entries(*old(m))[key@])
        } else {
            None
        }),
{
    m.insert(key, v)
}

/// Maps locale keys with (potentially formatted) localized strings. See
/// [`LocaleFmt`] for the syntax.
pub struct Locale(pub HashMap<String, LocaleFmt>);

impl View for Locale {
    type V = Map<Seq<char>, FmtView>;

    open spec fn view(&self) -> Map<Seq<char>, FmtView> {
        locale_entries(self.0).map_values(|f: LocaleFmt| f@)
    }
}

/// Errors that may arise from [`Locale::localize_into`].
#[derive(Debug, Copy, Clone, PartialEq, Eq, Structural, PartialOrd, Ord, Hash)]
pub enum LocalizeError {
    /// The locale doesn't contain the localization for the supplied key.
    MissingKey,
    /// Missing argument at the given index.
    MissingArgument(usize),
}

/// Text of `f` between two byte offsets.
pub open spec fn slice_text(f: Seq<char>, a: nat, b: nat) -> Seq<char> {
    decode_utf8(encode_utf8(f).subrange(a as int, b as int))
}

/// Output written for the first arguments of a format, each range's text
/// followed by `fill` of its argument index, and the byte offset where the
/// final text segment starts (the largest clamped end so far).
pub open spec fn fill_args(f: Seq<char>, a: Seq<(usize, usize, usize)>, fill: spec_fn(usize) -> Seq<char>) -> (
    Seq<char>,
    nat,
)
    decreases a.len(),
{
    if a.len() == 0 {
        (Seq::empty(), 0)
    } else {
        let (out, last) = fill_args(f, a.drop_last(), fill);
        let x = a.last();
        let s = clamp(x.0, utf8_len(f));
        let e = clamp(x.1, utf8_len(f));
        (out + slice_text(f, s, e) + fill(x.2), if last < e {
            e
        } else {
            last
        })
    }
}

/// [`fill_args`] with the supplied argument strings.
pub open spec fn render_args(f: Seq<char>, a: Seq<(usize, usize, usize)>, srcs: Seq<Seq<char>>) -> (
    Seq<char>,
    nat,
) {
    fill_args(f, a, |i: usize| srcs[i as int])
}

/// A formatted string with its arguments filled in: each range's text followed
/// by its argument, then the text after the last range.
pub open spec fn render(f: Seq<char>, a: Seq<(usize, usize, usize)>, srcs: Seq<Seq<char>>) -> Seq<
    char,
> {
    let (out, last) = render_args(f, a, srcs);
    out + slice_text(f, last, utf8_len(f))
}

/// Index of the first argument entry whose argument is not supplied.
pub open spec fn first_missing(a: Seq<(usize, usize, usize)>, n: nat) -> Option<int> {
    if exists|k: int| 0 <= k < a.len() && a[k].2 >= n {
        Some(choose|k: int| 0 <= k < a.len() && a[k].2 >= n && forall|j: int| 0 <= j < k ==> a[j].2 < n)
    } else {
        None
    }
}

/// Result of localizing a format (or a missing key) with the given arguments.
pub open spec fn localize_spec(v: Option<FmtView>, srcs: Seq<Seq<char>>) -> Result<Seq<char>, LocalizeError> {
    match v {
        None => Err(LocalizeError::MissingKey),
        Some(FmtView::Unformatted(s)) => Ok(s),
        Some(FmtView::Formatted(f, a)) => match first_missing(a, srcs.len()) {
            Some(k) => Err(LocalizeError::MissingArgument(a[k].2)),
            None => Ok(render(f, a, srcs)),
        },
    }
}

/// Views of the argument strings.
pub open spec fn srcs_view(args_src: Seq<&str>) -> Seq<Seq<char>> {
    args_src.map_values(|s: &str| s@)
}

} // verus!

verus! {

/// A boundary of a string stays a boundary of its suffix from an earlier
/// boundary.
proof fn lemma_boundary_suffix(bytes: Seq<u8>, a: int, b: int)
    requires
        vstd::utf8::valid_utf8(bytes),
        0 <= a <= b <= bytes.len(),
        is_char_boundary(bytes, a),
        is_char_boundary(bytes, b),
    ensures
        vstd::utf8::valid_utf8(bytes.subrange(a, bytes.len() as int)),
        is_char_boundary(bytes.subrange(a, bytes.len() as int), b - a),
{
    let r = bytes.subrange(a, bytes.len() as int);
    vstd::utf8::valid_utf8_split(bytes, a);
    if b == bytes.len() {
        vstd::utf8::is_char_boundary_start_end_of_seq(r);
    } else {
        vstd::utf8::is_char_boundary_iff_not_is_continuation_byte(bytes, b);
        assert(r[b - a] == bytes[b]);
        vstd::utf8::is_char_boundary_iff_not_is_continuation_byte(r, b - a);
    }
}

/// The text of `s` between two byte offsets on character boundaries.
fn slice_str(s: &str, a: usize, b: usize) -> (r: &str)
    requires
        a <= b <= utf8_len(s@),
        is_char_boundary(encode_utf8(s@), a as int),
        is_char_boundary(encode_utf8(s@), b as int),
    ensures
        r@ == slice_text(s@, a as nat, b as nat),
{
    proof {
        vstd::utf8::encode_utf8_valid_utf8(s@);
        lemma_boundary_suffix(encode_utf8(s@), a as int, b as int);
    }
    let (_, rest) = s.split_at(a);
    let (mid, _) = rest.split_at(b - a);
    proof {
        assert(mid.spec_bytes() =~= encode_utf8(s@).subrange(a as int, b as int));
        vstd::utf8::encode_utf8_decode_utf8(mid@);
    }
    mid
}

/// Appends `t` to `s`.
fn append_str(s: &mut String, t: &str)
    ensures
        final(s)@ == old(s)@ + t@,
{
    s.append(t);
}

impl Locale {
    /// Creates an empty locale.
    pub fn new() -> (r: Locale)
        ensures
            r@ == Map::<Seq<char>, FmtView>::empty(),
    {
        let r = Locale(locale_map_new());
        proof {
            assert(r@ =~= Map::<Seq<char>, FmtView>::empty());
        }
        r
    }

    /// Stores the format for `key`, replacing any previous one.
    pub fn insert(&mut self, key: String, fmt: LocaleFmt)
        ensures
            final(self)@ == old(self)@.insert(key@, fmt@),
    {
        locale_map_insert(&mut self.0, key, fmt);
        proof {
            assert(self@ =~= old(self)@.insert(key@, fmt@));
        }
    }

    /// The format stored for `key`, if any.
    pub fn get(&self, key: &str) -> (r: Option<&LocaleFmt>)
        ensures
            match r {
                Some(f) => self@.contains_key(key@) && f@ == self@[key@],
                None => !self@.contains_key(key@),
            },
    {
        locale_map_get(&self.0, key)
    }

    /// Formats a localization string with the provided arguments into `out`.
    ///
    /// An unformatted string is copied as is. A formatted one is checked first:
    /// if an argument index is not supplied, the first such entry's index is
    /// reported and `out` is left untouched. Unnecessary arguments are ignored.
    pub fn localize_into(&self, key: &str, args_src: &[&str], out: &mut String) -> (r: Result<
        (),
        LocalizeError,
    >)
        requires
            self@.contains_key(key@) ==> self@[key@].wf(),
        ensures
            match localize_spec(
                if self@.contains_key(key@) {
                    Some(self@[key@])
                } else {
                    None
                },
                srcs_view(args_src@),
            ) {
                Ok(text) => r is Ok && final(out)@ == text,
                Err(e) => r == Err::<(), LocalizeError>(e) && final(out)@ == old(out)@,
            },
    {
        let ghost srcs = srcs_view(args_src@);
        match locale_map_get(&self.0, key) {
            None => Err(LocalizeError::MissingKey),
            Some(LocaleFmt::Unformatted(res)) => {
                *out = res.clone();
                Ok(())
            },
            Some(LocaleFmt::Formatted { format, args }) => {
                let ghost a = args_view(args@);
                let ghost f = format@;
                let n = args_src.len();
                proof {
                    assert(self@[key@] == FmtView::Formatted(f, a));
                }
                let mut k: usize = 0;
                while k < args.len()
                    invariant
                        k <= args@.len(),
                        a == args_view(args@),
                        n == srcs.len(),
                        srcs == srcs_view(args_src@),
                        forall|j: int| 0 <= j < k ==> (#[trigger] a[j]).2 < n,
                        self@.contains_key(key@),
                        self@[key@] == FmtView::Formatted(f, a),
                        f == format@,
                    decreases args@.len() - k,
                {
                    let i = args[k].1;
                    proof {
                        assert(a[k as int] == arg_view(args@[k as int]));
                    }
                    if i >= n {
                        proof {
                            assert(0 <= k < a.len() && a[k as int].2 >= n && forall|j: int|
                                0 <= j < k ==> a[j].2 < n);
                            assert(exists|c: int|
                                0 <= c < a.len() && a[c].2 >= n && forall|j: int|
                                    0 <= j < c ==> a[j].2 < n);
                            let c = choose|c: int|
                                0 <= c < a.len() && a[c].2 >= n && forall|j: int|
                                    0 <= j < c ==> a[j].2 < n;
                            assert(first_missing(a, srcs.len()) == Some(c));
                            if c < k {
                                assert(a[c].2 < n);
                            } else if c > k {
                                assert(a[k as int].2 < n);
                            }
                            assert(c == k);
                            assert(self@.contains_key(key@));
                            assert(self@[key@] == FmtView::Formatted(f, a));
                            assert(localize_spec(Some(self@[key@]), srcs) == Err::<Seq<char>, LocalizeError>(LocalizeError::MissingArgument(i)));
                        }
                        return Err(LocalizeError::MissingArgument(i));
                    }
                    k = k + 1;
                }
                proof {
                    assert(!exists|c: int| 0 <= c < a.len() && a[c].2 >= n);
                }
                let fstr = format.as_str();
                let len = fstr.as_bytes().len();
                let mut text = String::new();
                let mut last: usize = 0;
                let mut k: usize = 0;
                proof {
                    assert(a.take(0) =~= Seq::<(usize, usize, usize)>::empty());
                }
                while k < args.len()
                    invariant
                        k <= args@.len(),
                        a == args_view(args@),
                        f == format@,
                        fstr@ == f,
                        len == utf8_len(f),
                        n == srcs.len(),
                        srcs == srcs_view(args_src@),
                        forall|j: int| 0 <= j < a.len() ==> (#[trigger] a[j]).2 < n,
                        args_wf_of(f, a),
                        text@ == render_args(f, a.take(k as int), srcs).0,
                        last == render_args(f, a.take(k as int), srcs).1,
                        last <= len,
                    decreases args@.len() - k,
                {
                    let range_start = args[k].0.start;
                    let range_end = args[k].0.end;
                    let i = args[k].1;
                    proof {
                        assert(a[k as int] == arg_view(args@[k as int]));
                        assert(a.take(k + 1).drop_last() =~= a.take(k as int));
                        assert(a.take(k + 1).last() == a[k as int]);
                    }
                    let s = if range_start <= len {
                        range_start
                    } else {
                        len
                    };
                    let e = if range_end <= len {
                        range_end
                    } else {
                        len
                    };
                    if last < e {
                        last = e;
                    }
                    let piece = slice_str(fstr, s, e);
                    append_str(&mut text, piece);
                    append_str(&mut text, args_src[i]);
                    proof {
                        assert(args_src@[i as int]@ == srcs[i as int]);
                        assert(text@ =~= render_args(f, a.take(k as int), srcs).0 + slice_text(
                            f,
                            s as nat,
                            e as nat,
                        ) + srcs[i as int]);
                    }
                    k = k + 1;
                }
                proof {
                    assert(a.take(a.len() as int) =~= a);
                    vstd::utf8::encode_utf8_valid_utf8(f);
                    vstd::utf8::is_char_boundary_start_end_of_seq(encode_utf8(f));
                    lemma_last_is_boundary(f, a, |i: usize| srcs[i as int]);
                }
                let tail = slice_str(fstr, last, len);
                append_str(&mut text, tail);
                *out = text;
                Ok(())
            },
        }
    }

    /// Convenient shortcut for [`localize_into`](Self::localize_into) that
    /// allocates a new [`String`].
    pub fn localize(&self, key: &str, args_src: &[&str]) -> (r: Result<String, LocalizeError>)
        requires
            self@.contains_key(key@) ==> self@[key@].wf(),
        ensures
            match localize_spec(
                if self@.contains_key(key@) {
                    Some(self@[key@])
                } else {
                    None
                },
                srcs_view(args_src@),
            ) {
                Ok(text) => r matches Ok(s) && s@ == text,
                Err(e) => r == Err::<String, LocalizeError>(e),
            },
    {
        let mut out = String::new();
        match self.localize_into(key, args_src, &mut out) {
            Ok(()) => Ok(out),
            Err(e) => Err(e),
        }
    }
}

/// Well-formedness of the arguments of a format text.
pub open spec fn args_wf_of(f: Seq<char>, a: Seq<(usize, usize, usize)>) -> bool {
    crate::locale::fmt::args_wf(f, a)
}

/// The start of the final segment is a boundary of the text.
pub proof fn lemma_last_is_boundary(f: Seq<char>, a: Seq<(usize, usize, usize)>, fill: spec_fn(usize) -> Seq<char>)
    requires
        args_wf_of(f, a),
    ensures
        is_char_boundary(encode_utf8(f), fill_args(f, a, fill).1 as int),
        fill_args(f, a, fill).1 <= utf8_len(f),
    decreases a.len(),
{
    vstd::utf8::encode_utf8_valid_utf8(f);
    if a.len() == 0 {
        vstd::utf8::is_char_boundary_start_end_of_seq(encode_utf8(f));
    } else {
        assert forall|k: int| 0 <= k < a.drop_last().len() implies {
            &&& (#[trigger] a.drop_last()[k]).0 <= a.drop_last()[k].1
            &&& is_char_boundary(encode_utf8(f), clamp(a.drop_last()[k].0, utf8_len(f)) as int)
            &&& is_char_boundary(encode_utf8(f), clamp(a.drop_last()[k].1, utf8_len(f)) as int)
        } by {
            assert(a.drop_last()[k] == a[k]);
        }
        lemma_last_is_boundary(f, a.drop_last(), fill);
        assert(a.last() == a[a.len() - 1]);
    }
}

} // verus!

verus! {

/// The argument marker `{i}`.
pub open spec fn marker(i: usize) -> Seq<char> {
    seq!['{'] + crate::decimal::decimal_digits(i as nat) + seq!['}']
}

/// Source text of a format: its text with a marker put back where each
/// argument goes.
pub open spec fn source_spec(v: FmtView) -> Seq<char> {
    match v {
        FmtView::Unformatted(s) => s,
        FmtView::Formatted(f, a) => {
            let (out, last) = fill_args(f, a, |i: usize| marker(i));
            out + slice_text(f, last, utf8_len(f))
        },
    }
}

impl LocaleFmt {
    /// Writes the format back as source text: the format text with a `{i}`
    /// marker where each argument goes. Characters of the text are written as
    /// they are, without escaping.
    pub fn to_source(&self) -> (r: String)
        requires
            self@.wf(),
        ensures
            r@ == source_spec(self@),
    {
        match self {
            LocaleFmt::Unformatted(raw) => raw.clone(),
            LocaleFmt::Formatted { format, args } => {
                let ghost a = args_view(args@);
                let ghost f = format@;
                let ghost fill = |i: usize| marker(i);
                let fstr = format.as_str();
                let len = fstr.as_bytes().len();
                let mut out = String::new();
                let mut last: usize = 0;
                let mut k: usize = 0;
                proof {
                    assert(a.take(0) =~= Seq::<(usize, usize, usize)>::empty());
                }
                while k < args.len()
                    invariant
                        k <= args@.len(),
                        a == args_view(args@),
                        f == format@,
                        fstr@ == f,
                        len == utf8_len(f),
                        args_wf_of(f, a),
                        fill == (|i: usize| marker(i)),
                        out@ == fill_args(f, a.take(k as int), fill).0,
                        last == fill_args(f, a.take(k as int), fill).1,
                        last <= len,
                    decreases args@.len() - k,
                {
                    let range_start = args[k].0.start;
                    let range_end = args[k].0.end;
                    let i = args[k].1;
                    proof {
                        assert(a[k as int] == arg_view(args@[k as int]));
                        assert(a.take(k + 1).drop_last() =~= a.take(k as int));
                        assert(a.take(k + 1).last() == a[k as int]);
                    }
                    let s = if range_start <= len {
                        range_start
                    } else {
                        len
                    };
                    let e = if range_end <= len {
                        range_end
                    } else {
                        len
                    };
                    if last < e {
                        last = e;
                    }
                    let ghost before = out@;
                    let piece = slice_str(fstr, s, e);
                    append_str(&mut out, piece);
                    crate::chars::string_push(&mut out, '{');
                    crate::decimal::push_decimal(&mut out, i as u128);
                    crate::chars::string_push(&mut out, '}');
                    proof {
                        assert(out@ =~= before + slice_text(f, s as nat, e as nat) + marker(i));
                    }
                    k = k + 1;
                }
                proof {
                    assert(a.take(a.len() as int) =~= a);
                    lemma_last_is_boundary(f, a, fill);
                    vstd::utf8::encode_utf8_valid_utf8(f);
                    vstd::utf8::is_char_boundary_start_end_of_seq(encode_utf8(f));
                }
                let tail = slice_str(fstr, last, len);
                append_str(&mut out, tail);
                out
            },
        }
    }
}

} // verus!

verus! {

/// The localized result of a key once its arguments are resolved: empty when
/// the locale is not loaded yet, when an argument is unavailable, or when
/// localizing fails.
pub open spec fn resolved_result(locale: Option<Map<Seq<char>, FmtView>>, key: Seq<char>, args: Seq<Option<Seq<char>>>) -> Seq<char> {
    match locale {
        None => Seq::empty(),
        Some(l) => if exists|k: int| 0 <= k < args.len() && args[k] is None {
            Seq::empty()
        } else {
            match localize_spec(
                if l.contains_key(key) {
                    Some(l[key])
                } else {
                    None
                },
                args.map_values(|a: Option<Seq<char>>| a->0),
            ) {
                Ok(t) => t,
                Err(_) => Seq::empty(),
            }
        },
    }
}

/// Views of optional argument strings.
pub open spec fn opt_srcs_view(args: Seq<Option<&str>>) -> Seq<Option<Seq<char>>> {
    args.map_values(
        |a: Option<&str>|
            match a {
                Some(s) => Some(s@),
                None => None,
            },
    )
}

/// Computes the localized result of `key` into `result`, given the locale (if
/// loaded) and each argument's localized text (`None` where the argument is
/// missing or failed to localize).
pub fn resolve_locale_result(locale: Option<&Locale>, key: &str, args: &[Option<&str>], result: &mut String)
    requires
        locale matches Some(l) ==> (l@.contains_key(key@) ==> l@[key@].wf()),
    ensures
        final(result)@ == resolved_result(
            match locale {
                Some(l) => Some(l@),
                None => None,
            },
            key@,
            opt_srcs_view(args@),
        ),
{
    let ghost av = opt_srcs_view(args@);
    match locale {
        None => {
            *result = String::new();
        },
        Some(l) => {
            let mut strs: Vec<&str> = Vec::new();
            let mut k: usize = 0;
            while k < args.len()
                invariant
                    k <= args@.len(),
                    av == opt_srcs_view(args@),
                    strs@.len() == k,
                    forall|j: int| 0 <= j < k ==> (#[trigger] av[j]) is Some,
                    forall|j: int| 0 <= j < k ==> (#[trigger] strs@[j])@ == av[j]->0,
                decreases args@.len() - k,
            {
                match args[k] {
                    Some(s) => {
                        proof {
                            assert(av[k as int] == Some(s@));
                        }
                        strs.push(s);
                    },
                    None => {
                        proof {
                            assert(av[k as int] is None);
                        }
                        *result = String::new();
                        return;
                    },
                }
                k = k + 1;
            }
            proof {
                assert(!exists|j: int| 0 <= j < av.len() && av[j] is None);
                assert(srcs_view(strs@) =~= av.map_values(|a: Option<Seq<char>>| a->0));
            }
            let mut out = String::new();
            match l.localize_into(key, strs.as_slice(), &mut out) {
                Ok(()) => {
                    *result = out;
                },
                Err(_) => {
                    *result = String::new();
                },
            }
        },
    }
}

/// Chooses which language of a locale collection is active. The latest
/// change event wins; until one arrives, the collection's default is used.
pub struct LocaleSelection {
    last: Option<String>,
}

impl LocaleSelection {
    /// The chosen language code, if a change event has arrived.
    pub closed spec fn chosen(&self) -> Option<Seq<char>> {
        match self.last {
            Some(s) => Some(s@),
            None => None,
        }
    }

    /// No language chosen yet.
    pub fn new() -> (r: LocaleSelection)
        ensures
            r.chosen() is None,
    {
        LocaleSelection { last: None }
    }

    /// Takes this update's language change events and whether any locale or
    /// collection asset changed. Returns whether every localized result must
    /// be refreshed.
    pub fn update(&mut self, change_events: &[String], assets_changed: bool) -> (all_change: bool)
        ensures
            all_change == (change_events@.len() > 0 || assets_changed),
            final(self).chosen() == (if change_events@.len() > 0 {
                Some(change_events@.last()@)
            } else {
                old(self).chosen()
            }),
    {
        let n = change_events.len();
        if n > 0 {
            self.last = Some(change_events[n - 1].clone());
            true
        } else {
            assets_changed
        }
    }

    /// The language code to use for a collection with the given default.
    pub fn language<'a>(&'a self, default: &'a str) -> (r: &'a str)
        ensures
            r@ == (match self.chosen() {
                Some(c) => c,
                None => default@,
            }),
    {
        match &self.last {
            Some(s) => s.as_str(),
            None => default,
        }
    }
}

/// Asset file representation of a locale collection: the default language
/// code and the available ones.
#[derive(Clone, Debug)]
pub struct LocaleCollectionFile {
    /// The default locale code to use.
    pub default: String,
    /// The available locale codes.
    pub languages: Vec<String>,
}

/// Errors of [`LocaleCollectionFile::entries`].
#[derive(Clone, Debug, PartialEq, Eq)]
pub enum LocaleCollectionError {
    /// A default locale is defined, but is not available.
    MissingDefault(String),
}

/// File name of the locale for a language code, relative to the collection.
pub open spec fn locale_file_spec(key: Seq<char>) -> Seq<char> {
    "locale_"@ + key + ".locale.ron"@
}

/// File name of the locale for a language code: `locale_{key}.locale.ron`.
pub fn locale_file_name(key: &str) -> (r: String)
    ensures
        r@ == locale_file_spec(key@),
{
    let mut r = String::from_str("locale_");
    r.append(key);
    r.append(".locale.ron");
    r
}

impl LocaleCollectionFile {
    /// Each language code with its locale file name, in order; or
    /// `MissingDefault` when the default code is not among them.
    pub fn entries(&self) -> (r: Result<Vec<(String, String)>, LocaleCollectionError>)
        ensures
            match r {
                Ok(v) => {
                    &&& exists|k: int| 0 <= k < self.languages@.len() && self.languages@[k]@ == self.default@
                    &&& v@.len() == self.languages@.len()
                    &&& forall|k: int|
                        0 <= k < v@.len() ==> (#[trigger] v@[k]).0@ == self.languages@[k]@
                            && v@[k].1@ == locale_file_spec(self.languages@[k]@)
                },
                Err(e) => {
                    &&& !exists|k: int| 0 <= k < self.languages@.len() && self.languages@[k]@ == self.default@
                    &&& e == LocaleCollectionError::MissingDefault(self.default)
                },
            },
    {
        let mut out: Vec<(String, String)> = Vec::new();
        let mut found = false;
        let mut k: usize = 0;
        while k < self.languages.len()
            invariant
                k <= self.languages@.len(),
                out@.len() == k,
                forall|j: int|
                    0 <= j < k ==> (#[trigger] out@[j]).0@ == self.languages@[j]@ && out@[j].1@
                        == locale_file_spec(self.languages@[j]@),
                found == exists|j: int| 0 <= j < k && self.languages@[j]@ == self.default@,
            decreases self.languages@.len() - k,
        {
            let lang = &self.languages[k];
            if *lang == self.default {
                found = true;
            }
            let name = locale_file_name(lang.as_str());
            out.push((lang.clone(), name));
            proof {
                assert(self.languages@[k as int] == *lang);
            }
            k = k + 1;
        }
        if found {
            Ok(out)
        } else {
            Err(LocaleCollectionError::MissingDefault(self.default.clone()))
        }
    }
}

} // verus!
