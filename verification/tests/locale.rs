use hephae::locale::arg::{LocaleArg, LocalizeBy};
use hephae::locale::def::{
    locale_file_name, resolve_locale_result, Locale, LocaleCollectionError, LocaleCollectionFile,
    LocaleSelection, LocalizeError,
};
use hephae::locale::fmt::{FmtParseError, LocaleFmt};

fn formatted(fmt: &LocaleFmt) -> (String, Vec<(usize, usize, usize)>) {
    match fmt {
        LocaleFmt::Unformatted(s) => (s.clone(), Vec::new()),
        LocaleFmt::Formatted { format, args } => (
            format.clone(),
            args.iter().map(|(r, i)| (r.start, r.end, *i)).collect(),
        ),
    }
}

#[test]
fn parse_plain_text_is_unformatted() {
    let fmt = LocaleFmt::parse("Hello, world!").unwrap();
    assert!(matches!(fmt, LocaleFmt::Unformatted(ref s) if s == "Hello, world!"));
}

#[test]
fn parse_markers_make_ranges() {
    let fmt = LocaleFmt::parse("Hi {0}, you have {1} apples").unwrap();
    let (text, args) = formatted(&fmt);
    assert_eq!(text, "Hi , you have  apples");
    assert_eq!(args, vec![(0, 3, 0), (3, 14, 1)]);
}

#[test]
fn parse_escapes() {
    let fmt = LocaleFmt::parse("{{a}} \\n\\t\\u{48}\\\\").unwrap();
    assert!(matches!(fmt, LocaleFmt::Unformatted(ref s) if s == "{a} \n\tH\\"));
}

#[test]
fn parse_errors_report_offset() {
    assert_eq!(LocaleFmt::parse("abc}").unwrap_err(), FmtParseError { offset: 3 });
    assert_eq!(LocaleFmt::parse("x{y}").unwrap_err(), FmtParseError { offset: 1 });
    assert!(LocaleFmt::parse("\\q").is_err());
    assert!(LocaleFmt::parse("\\u{D800}").is_err());
}

#[test]
fn parse_multibyte_offsets_are_bytes() {
    let fmt = LocaleFmt::parse("é{0}ü").unwrap();
    let (text, args) = formatted(&fmt);
    assert_eq!(text, "éü");
    assert_eq!(args, vec![(0, 2, 0)]);
}

#[test]
fn to_source_round_trips() {
    for src in ["plain", "a {0} b {12} c", "{3}{1}", "ünï {0}"] {
        let fmt = LocaleFmt::parse(src).unwrap();
        assert_eq!(fmt.to_source(), src);
        let again = LocaleFmt::parse(&fmt.to_source()).unwrap();
        assert_eq!(formatted(&again), formatted(&fmt));
    }
}

#[test]
fn localize_fills_arguments() {
    let mut locale = Locale::new();
    locale.insert(String::from("greet"), LocaleFmt::parse("Hello {0}, meet {1}! {0}.").unwrap());
    locale.insert(String::from("plain"), LocaleFmt::parse("Just text").unwrap());
    assert_eq!(locale.localize("greet", &["Ann", "Bob"]).unwrap(), "Hello Ann, meet Bob! Ann.");
    assert_eq!(locale.localize("plain", &[]).unwrap(), "Just text");
}

#[test]
fn localize_errors() {
    let mut locale = Locale::new();
    locale.insert(String::from("k"), LocaleFmt::parse("a {0} b {2}").unwrap());
    assert_eq!(locale.localize("missing", &[]), Err(LocalizeError::MissingKey));
    assert_eq!(locale.localize("k", &["x"]), Err(LocalizeError::MissingArgument(2)));
    let mut out = String::from("keep");
    assert_eq!(locale.localize_into("k", &[], &mut out), Err(LocalizeError::MissingArgument(0)));
    assert_eq!(out, "keep");
}

#[test]
fn localize_into_replaces() {
    let mut locale = Locale::new();
    locale.insert(String::from("k"), LocaleFmt::parse("[{0}]").unwrap());
    locale.insert(String::from("u"), LocaleFmt::parse("plain").unwrap());
    let mut out = String::from(">");
    locale.localize_into("k", &["x"], &mut out).unwrap();
    assert_eq!(out, "[x]");
    locale.localize_into("u", &[], &mut out).unwrap();
    assert_eq!(out, "plain");
}

#[test]
fn insert_replaces() {
    let mut locale = Locale::new();
    locale.insert(String::from("k"), LocaleFmt::parse("one").unwrap());
    locale.insert(String::from("k"), LocaleFmt::parse("two").unwrap());
    assert_eq!(locale.localize("k", &[]).unwrap(), "two");
    assert!(locale.get("k").is_some());
    assert!(locale.get("other").is_none());
}

#[test]
fn locale_args_write_text() {
    let mut locale = Locale::new();
    locale.insert(String::from("name"), LocaleFmt::parse("Ann").unwrap());
    locale.insert(String::from("fmt"), LocaleFmt::parse("{0}").unwrap());
    assert_eq!(42u32.localize(&locale).unwrap(), "42");
    assert_eq!((-7i64).localize(&locale).unwrap(), "-7");
    assert_eq!(0u8.localize(&locale).unwrap(), "0");
    assert_eq!("str".localize(&locale).unwrap(), "str");
    assert_eq!(String::from("own").localize(&locale).unwrap(), "own");
    assert_eq!(LocalizeBy(String::from("name")).localize(&locale).unwrap(), "Ann");
    assert!(LocalizeBy(String::from("fmt")).localize(&locale).is_err());
    assert!(LocalizeBy(String::from("none")).localize(&locale).is_err());
}

#[test]
fn resolve_result_cases() {
    let mut locale = Locale::new();
    locale.insert(String::from("k"), LocaleFmt::parse("<{0}>").unwrap());
    let mut out = String::from("stale");
    resolve_locale_result(Some(&locale), "k", &[Some("v")], &mut out);
    assert_eq!(out, "<v>");
    resolve_locale_result(Some(&locale), "k", &[None], &mut out);
    assert_eq!(out, "");
    resolve_locale_result(None, "k", &[Some("v")], &mut out);
    assert_eq!(out, "");
    resolve_locale_result(Some(&locale), "nope", &[], &mut out);
    assert_eq!(out, "");
}

#[test]
fn selection_follows_last_event() {
    let mut sel = LocaleSelection::new();
    assert_eq!(sel.language("en"), "en");
    assert!(!sel.update(&[], false));
    assert!(sel.update(&[], true));
    assert!(sel.update(&[String::from("fr"), String::from("de")], false));
    assert_eq!(sel.language("en"), "de");
    assert!(!sel.update(&[], false));
    assert_eq!(sel.language("en"), "de");
}

#[test]
fn collection_entries() {
    assert_eq!(locale_file_name("en-US"), "locale_en-US.locale.ron");
    let file = LocaleCollectionFile {
        default: String::from("en"),
        languages: vec![String::from("en"), String::from("id")],
    };
    let entries = file.entries().unwrap();
    assert_eq!(
        entries,
        vec![
            (String::from("en"), String::from("locale_en.locale.ron")),
            (String::from("id"), String::from("locale_id.locale.ron")),
        ]
    );
    let bad = LocaleCollectionFile { default: String::from("fr"), languages: vec![String::from("en")] };
    assert_eq!(bad.entries(), Err(LocaleCollectionError::MissingDefault(String::from("fr"))));
}
