//! Localization: locale format strings, locales and localized results.

pub mod arg;
pub mod def;
pub mod fmt;
pub mod source;
