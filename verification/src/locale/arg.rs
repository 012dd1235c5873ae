//! Positional locale arguments: values written into a locale string.

use vstd::prelude::*;

use crate::decimal::{decimal_digits, push_decimal, push_signed_decimal, signed_digits};
use crate::locale::def::Locale;
use crate::locale::fmt::{FmtView, LocaleFmt};

verus! {

/// Error of [`LocaleArg::localize_into`]: the argument could not be written.
#[derive(Clone, Copy, Debug, PartialEq, Eq, Structural)]
pub struct ArgError;

/// Locale arguments that may be used in positional format locale templates.
pub trait LocaleArg {
    /// The text this argument is written as in a locale with the given
    /// entries, or `None` where it cannot be written.
    spec fn localized_text(&self, locale: Map<Seq<char>, FmtView>) -> Option<Seq<char>>;

    /// Appends this argument, as text, to `out`; fails where it cannot be
    /// written.
    fn localize_into(&self, locale: &Locale, out: &mut String) -> (r: Result<(), ArgError>)
        ensures
            match self.localized_text(locale@) {
                Some(s) => r is Ok && final(out)@ == old(out)@ + s,
                None => r is Err,
            },
    ;

    /// Convenient shortcut for [`localize_into`](LocaleArg::localize_into) that
    /// allocates a new [`String`]: the argument's text alone, or the error.
    fn localize(&self, locale: &Locale) -> (r: Result<String, ArgError>)
        ensures
            match self.localized_text(locale@) {
                Some(s) => r matches Ok(o) && o@ == s,
                None => r is Err,
            },
    {
        let mut out = String::new();
        match self.localize_into(locale, &mut out) {
            Ok(()) => Ok(out),
            Err(e) => Err(e),
        }
    }
}

impl LocaleArg for &'static str {
    open spec fn localized_text(&self, locale: Map<Seq<char>, FmtView>) -> Option<Seq<char>> {
        Some((*self)@)
    }

    fn localize_into(&self, _locale: &Locale, out: &mut String) -> (r: Result<(), ArgError>)
        ensures
            r is Ok,
            final(out)@ == old(out)@ + (*self)@,
    {
        out.append(self);
        Ok(())
    }
}

impl LocaleArg for String {
    open spec fn localized_text(&self, locale: Map<Seq<char>, FmtView>) -> Option<Seq<char>> {
        Some(self@)
    }

    fn localize_into(&self, _locale: &Locale, out: &mut String) -> (r: Result<(), ArgError>)
        ensures
            r is Ok,
            final(out)@ == old(out)@ + self@,
    {
        out.append(self.as_str());
        Ok(())
    }
}

impl LocaleArg for u8 {
    open spec fn localized_text(&self, locale: Map<Seq<char>, FmtView>) -> Option<Seq<char>> {
        Some(decimal_digits(*self as nat))
    }

    fn localize_into(&self, _locale: &Locale, out: &mut String) -> (r: Result<(), ArgError>)
        ensures
            r is Ok,
            final(out)@ == old(out)@ + decimal_digits(*self as nat),
    {
        push_decimal(out, *self as u128);
        Ok(())
    }
}

impl LocaleArg for u16 {
    open spec fn localized_text(&self, locale: Map<Seq<char>, FmtView>) -> Option<Seq<char>> {
        Some(decimal_digits(*self as nat))
    }

    fn localize_into(&self, _locale: &Locale, out: &mut String) -> (r: Result<(), ArgError>)
        ensures
            r is Ok,
            final(out)@ == old(out)@ + decimal_digits(*self as nat),
    {
        push_decimal(out, *self as u128);
        Ok(())
    }
}

impl LocaleArg for u32 {
    open spec fn localized_text(&self, locale: Map<Seq<char>, FmtView>) -> Option<Seq<char>> {
        Some(decimal_digits(*self as nat))
    }

    fn localize_into(&self, _locale: &Locale, out: &mut String) -> (r: Result<(), ArgError>)
        ensures
            r is Ok,
            final(out)@ == old(out)@ + decimal_digits(*self as nat),
    {
        push_decimal(out, *self as u128);
        Ok(())
    }
}

impl LocaleArg for u64 {
    open spec fn localized_text(&self, locale: Map<Seq<char>, FmtView>) -> Option<Seq<char>> {
        Some(decimal_digits(*self as nat))
    }

    fn localize_into(&self, _locale: &Locale, out: &mut String) -> (r: Result<(), ArgError>)
        ensures
            r is Ok,
            final(out)@ == old(out)@ + decimal_digits(*self as nat),
    {
        push_decimal(out, *self as u128);
        Ok(())
    }
}

impl LocaleArg for u128 {
    open spec fn localized_text(&self, locale: Map<Seq<char>, FmtView>) -> Option<Seq<char>> {
        Some(decimal_digits(*self as nat))
    }

    fn localize_into(&self, _locale: &Locale, out: &mut String) -> (r: Result<(), ArgError>)
        ensures
            r is Ok,
            final(out)@ == old(out)@ + decimal_digits(*self as nat),
    {
        push_decimal(out, *self);
        Ok(())
    }
}

impl LocaleArg for i8 {
    open spec fn localized_text(&self, locale: Map<Seq<char>, FmtView>) -> Option<Seq<char>> {
        Some(signed_digits(*self as int))
    }

    fn localize_into(&self, _locale: &Locale, out: &mut String) -> (r: Result<(), ArgError>)
        ensures
            r is Ok,
            final(out)@ == old(out)@ + signed_digits(*self as int),
    {
        push_signed_decimal(out, *self as i128);
        Ok(())
    }
}

impl LocaleArg for i16 {
    open spec fn localized_text(&self, locale: Map<Seq<char>, FmtView>) -> Option<Seq<char>> {
        Some(signed_digits(*self as int))
    }

    fn localize_into(&self, _locale: &Locale, out: &mut String) -> (r: Result<(), ArgError>)
        ensures
            r is Ok,
            final(out)@ == old(out)@ + signed_digits(*self as int),
    {
        push_signed_decimal(out, *self as i128);
        Ok(())
    }
}

impl LocaleArg for i32 {
    open spec fn localized_text(&self, locale: Map<Seq<char>, FmtView>) -> Option<Seq<char>> {
        Some(signed_digits(*self as int))
    }

    fn localize_into(&self, _locale: &Locale, out: &mut String) -> (r: Result<(), ArgError>)
        ensures
            r is Ok,
            final(out)@ == old(out)@ + signed_digits(*self as int),
    {
        push_signed_decimal(out, *self as i128);
        Ok(())
    }
}

impl LocaleArg for i64 {
    open spec fn localized_text(&self, locale: Map<Seq<char>, FmtView>) -> Option<Seq<char>> {
        Some(signed_digits(*self as int))
    }

    fn localize_into(&self, _locale: &Locale, out: &mut String) -> (r: Result<(), ArgError>)
        ensures
            r is Ok,
            final(out)@ == old(out)@ + signed_digits(*self as int),
    {
        push_signed_decimal(out, *self as i128);
        Ok(())
    }
}

impl LocaleArg for i128 {
    open spec fn localized_text(&self, locale: Map<Seq<char>, FmtView>) -> Option<Seq<char>> {
        Some(signed_digits(*self as int))
    }

    fn localize_into(&self, _locale: &Locale, out: &mut String) -> (r: Result<(), ArgError>)
        ensures
            r is Ok,
            final(out)@ == old(out)@ + signed_digits(*self as int),
    {
        push_signed_decimal(out, *self);
        Ok(())
    }
}

/// A [`LocaleArg`] that fetches a key from a [`Locale`]. Only unformatted
/// strings are supported.
#[derive(Clone, Debug)]
pub struct LocalizeBy(pub String);

impl LocaleArg for LocalizeBy {
    open spec fn localized_text(&self, locale: Map<Seq<char>, FmtView>) -> Option<Seq<char>> {
        match locale.get(self.0@) {
            Some(FmtView::Unformatted(s)) => Some(s),
            _ => None,
        }
    }

    fn localize_into(&self, locale: &Locale, out: &mut String) -> (r: Result<(), ArgError>)
        ensures
            match locale@.get(self.0@) {
                Some(FmtView::Unformatted(s)) => r is Ok && final(out)@ == old(out)@ + s,
                _ => r is Err && final(out)@ == old(out)@,
            },
    {
        match locale.get(self.0.as_str()) {
            Some(LocaleFmt::Unformatted(res)) => {
                out.append(res.as_str());
                Ok(())
            },
            _ => Err(ArgError),
        }
    }
}

} // verus!
