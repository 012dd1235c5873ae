//! The plugin list of the `hephae!` macro: which plugins a list names, with
//! which type arguments, and under which crate paths they are added.
//!
//! A list is a comma-separated sequence of plugin names, each named at most
//! once, optionally ended by `..`, which adds every plugin not named yet whose
//! feature is enabled and whose crate the manifest names. `locale`, `render`
//! and `ui` accept a pair of type arguments after a `:`; `atlas` and `text`
//! accept none. The plugins are added in the order render, atlas, locale,
//! text, ui.

use vstd::prelude::*;
use vstd::string::StringExecFns;

use crate::manifest::{resolve_spec, Manifest};

verus! {

/// A plugin of the collection.
#[derive(Debug, Clone, Copy, PartialEq, Eq, Structural)]
pub enum PluginKind {
    /// Texture atlases.
    Atlas,
    /// Localization.
    Locale,
    /// Vertex rendering.
    Render,
    /// Text rendering.
    Text,
    /// User interface layout.
    Ui,
}

/// The name of a plugin in the list, which is also the name of its crate
/// under `hephae`.
pub open spec fn kind_name(k: PluginKind) -> Seq<char> {
    match k {
        PluginKind::Atlas => "atlas"@,
        PluginKind::Locale => "locale"@,
        PluginKind::Render => "render"@,
        PluginKind::Text => "text"@,
        PluginKind::Ui => "ui"@,
    }
}

/// The name of a plugin's type in its crate.
pub open spec fn plugin_type(k: PluginKind) -> Seq<char> {
    match k {
        PluginKind::Atlas => "AtlasPlugin"@,
        PluginKind::Locale => "LocalePlugin"@,
        PluginKind::Render => "RendererPlugin"@,
        PluginKind::Text => "TextPlugin"@,
        PluginKind::Ui => "UiPlugin"@,
    }
}

/// Whether the plugin accepts a pair of type arguments.
pub open spec fn takes_arguments(k: PluginKind) -> bool {
    !(k is Atlas || k is Text)
}

/// Position of a plugin in the order the plugins are added.
pub open spec fn slot_of(k: PluginKind) -> int {
    match k {
        PluginKind::Render => 0,
        PluginKind::Atlas => 1,
        PluginKind::Locale => 2,
        PluginKind::Text => 3,
        PluginKind::Ui => 4,
    }
}

/// The plugin added at a position.
pub open spec fn kind_at(i: int) -> PluginKind {
    if i == 0 {
        PluginKind::Render
    } else if i == 1 {
        PluginKind::Atlas
    } else if i == 2 {
        PluginKind::Locale
    } else if i == 3 {
        PluginKind::Text
    } else {
        PluginKind::Ui
    }
}

/// The plugin a name in the list stands for, if any.
pub open spec fn kind_of(name: Seq<char>) -> Option<PluginKind> {
    if name == "atlas"@ {
        Some(PluginKind::Atlas)
    } else if name == "locale"@ {
        Some(PluginKind::Locale)
    } else if name == "render"@ {
        Some(PluginKind::Render)
    } else if name == "text"@ {
        Some(PluginKind::Text)
    } else if name == "ui"@ {
        Some(PluginKind::Ui)
    } else {
        None
    }
}

impl PluginKind {
    /// The plugin's name in the list and the name of its crate.
    pub fn name(&self) -> (r: &'static str)
        ensures
            r@ == kind_name(*self),
    {
        match self {
            PluginKind::Atlas => "atlas",
            PluginKind::Locale => "locale",
            PluginKind::Render => "render",
            PluginKind::Text => "text",
            PluginKind::Ui => "ui",
        }
    }

    /// The name of the plugin's type in its crate.
    pub fn plugin_type(&self) -> (r: &'static str)
        ensures
            r@ == plugin_type(*self),
    {
        match self {
            PluginKind::Atlas => "AtlasPlugin",
            PluginKind::Locale => "LocalePlugin",
            PluginKind::Render => "RendererPlugin",
            PluginKind::Text => "TextPlugin",
            PluginKind::Ui => "UiPlugin",
        }
    }

    /// Whether the plugin accepts a pair of type arguments.
    pub fn takes_arguments(&self) -> (r: bool)
        ensures
            r == takes_arguments(*self),
    {
        !matches!(self, PluginKind::Atlas | PluginKind::Text)
    }

    /// Position of the plugin in the order the plugins are added.
    fn slot(&self) -> (r: usize)
        ensures
            r == slot_of(*self),
            kind_at(r as int) == *self,
    {
        match self {
            PluginKind::Render => 0,
            PluginKind::Atlas => 1,
            PluginKind::Locale => 2,
            PluginKind::Text => 3,
            PluginKind::Ui => 4,
        }
    }
}

/// The plugin added at a position.
fn kind_at_index(i: usize) -> (r: PluginKind)
    ensures
        r == kind_at(i as int),
{
    if i == 0 {
        PluginKind::Render
    } else if i == 1 {
        PluginKind::Atlas
    } else if i == 2 {
        PluginKind::Locale
    } else if i == 3 {
        PluginKind::Text
    } else {
        PluginKind::Ui
    }
}

/// The plugin a name stands for, if any.
fn plugin_kind(name: &String) -> (r: Option<PluginKind>)
    ensures
        r == kind_of(name@),
{
    if *name == String::from_str("atlas") {
        Some(PluginKind::Atlas)
    } else if *name == String::from_str("locale") {
        Some(PluginKind::Locale)
    } else if *name == String::from_str("render") {
        Some(PluginKind::Render)
    } else if *name == String::from_str("text") {
        Some(PluginKind::Text)
    } else if *name == String::from_str("ui") {
        Some(PluginKind::Ui)
    } else {
        None
    }
}

/// The optional plugins that are compiled in; `render` always is.
#[derive(Debug, Clone, Copy, PartialEq, Eq, Structural)]
pub struct PluginFeatures {
    /// Texture atlases.
    pub atlas: bool,
    /// Localization.
    pub locale: bool,
    /// Text rendering.
    pub text: bool,
    /// User interface layout.
    pub ui: bool,
}

/// Whether a plugin is compiled in.
pub open spec fn enabled(f: PluginFeatures, k: PluginKind) -> bool {
    match k {
        PluginKind::Atlas => f.atlas,
        PluginKind::Locale => f.locale,
        PluginKind::Render => true,
        PluginKind::Text => f.text,
        PluginKind::Ui => f.ui,
    }
}

impl PluginFeatures {
    /// Whether a plugin is compiled in.
    pub fn enables(&self, kind: PluginKind) -> (r: bool)
        ensures
            r == enabled(*self, kind),
    {
        match kind {
            PluginKind::Atlas => self.atlas,
            PluginKind::Locale => self.locale,
            PluginKind::Render => true,
            PluginKind::Text => self.text,
            PluginKind::Ui => self.ui,
        }
    }
}

/// One item of a plugin list as read from the tokens; `A` is a type
/// argument, `E` what the token reader reports.
pub enum PluginItem<A, E> {
    /// `..`; `trailing` where tokens follow it.
    Rest {
        /// Whether tokens follow the `..`.
        trailing: bool,
    },
    /// A plugin name, with what follows a `:` after it, if one does: the pair
    /// of type arguments, or the reader's error.
    Named {
        /// The name.
        name: String,
        /// What follows a `:` after the name.
        arguments: Option<Result<(A, A), E>>,
    },
    /// Tokens that cannot be read as an item or as the comma after one.
    Invalid(E),
}

/// A plugin to add: its crate path and its type arguments, if given.
pub struct PluginSetup<A> {
    /// The plugin.
    pub kind: PluginKind,
    /// The path of its crate.
    pub path: String,
    /// Its type arguments; `None` for the defaults.
    pub arguments: Option<(A, A)>,
}

/// Why a plugin list is refused.
#[derive(Debug, Clone, PartialEq, Eq)]
pub enum PluginListError<E> {
    /// The tokens cannot be read; what the reader reported.
    Syntax(E),
    /// Tokens follow `..`.
    TokensAfterRest,
    /// The plugin's feature is not enabled.
    Unsupported(PluginKind),
    /// Type arguments are given to a plugin that accepts none.
    NoTypeArguments(PluginKind),
    /// The plugin is named more than once.
    DefinedTwice(PluginKind),
    /// The manifest names no crate for the plugin.
    MissingDependency(PluginKind),
    /// The crate path the manifest gives for the plugin is not a Rust path.
    InvalidPath(PluginKind),
    /// The name is no plugin's.
    Unknown(String),
    /// No plugin is named and there is no `..`.
    Empty,
}

/// What a position holds: the crate path and the type arguments of the
/// plugin added there, if one is.
pub open spec fn slot_view<A>(s: Option<(String, Option<(A, A)>)>) -> Option<(Seq<char>, Option<(A, A)>)> {
    match s {
        Some((p, a)) => Some((p@, a)),
        None => None,
    }
}

/// What each position holds.
pub open spec fn slots_view<A>(v: Seq<Option<(String, Option<(A, A)>)>>) -> Seq<Option<(Seq<char>, Option<(A, A)>)>> {
    v.map_values(|o: Option<(String, Option<(A, A)>)>| slot_view(o))
}

/// The crate path of a plugin under `hephae` in a manifest.
pub open spec fn hephae_path(m: Manifest, k: PluginKind) -> Option<Seq<char>> {
    resolve_spec(m, "hephae"@, kind_name(k))
}

/// Whether a text reads as a Rust path (`syn::Path`).
pub uninterp spec fn parses_as_path(text: Seq<char>) -> bool;

/// `syn::parse_str::<syn::Path>`, whether it succeeds.
#[verifier::external_body]
fn path_parses(text: &str) -> (r: bool)
    ensures
        r == parses_as_path(text@),
{
    syn::parse_str::<syn::Path>(text).is_ok()
}

/// A position after `..`: unchanged where a plugin is there, else the
/// plugin with its default arguments where it is compiled in and its crate
/// is found under a path that reads as a Rust path.
pub open spec fn rest_slot<A>(m: Manifest, f: PluginFeatures, s: Seq<Option<(Seq<char>, Option<(A, A)>)>>, i: int) -> Option<
    (Seq<char>, Option<(A, A)>),
> {
    if s[i] is None && enabled(f, kind_at(i)) && hephae_path(m, kind_at(i)) is Some && parses_as_path(
        hephae_path(m, kind_at(i))->0,
    ) {
        Some((hephae_path(m, kind_at(i))->0, None))
    } else {
        s[i]
    }
}

/// The positions after `..`.
pub open spec fn fill_rest<A>(m: Manifest, f: PluginFeatures, s: Seq<Option<(Seq<char>, Option<(A, A)>)>>) -> Seq<
    Option<(Seq<char>, Option<(A, A)>)>,
> {
    Seq::new(s.len(), |i: int| rest_slot(m, f, s, i))
}

/// The positions after one item, and whether reading stops there.
pub open spec fn step<A, E>(m: Manifest, f: PluginFeatures, s: Seq<Option<(Seq<char>, Option<(A, A)>)>>, item: PluginItem<A, E>) -> Result<
    (Seq<Option<(Seq<char>, Option<(A, A)>)>>, bool),
    PluginListError<E>,
> {
    match item {
        PluginItem::Rest { trailing } => if trailing {
            Err(PluginListError::TokensAfterRest)
        } else {
            Ok((fill_rest(m, f, s), true))
        },
        PluginItem::Invalid(e) => Err(PluginListError::Syntax(e)),
        PluginItem::Named { name, arguments } => match kind_of(name@) {
            None => Err(PluginListError::Unknown(name)),
            Some(k) => if !enabled(f, k) {
                Err(PluginListError::Unsupported(k))
            } else if !takes_arguments(k) && arguments is Some {
                Err(PluginListError::NoTypeArguments(k))
            } else if s[slot_of(k)] is Some {
                Err(PluginListError::DefinedTwice(k))
            } else {
                match hephae_path(m, k) {
                    None => Err(PluginListError::MissingDependency(k)),
                    Some(p) => if !parses_as_path(p) {
                        Err(PluginListError::InvalidPath(k))
                    } else {
                        match arguments {
                        None => Ok((s.update(slot_of(k), Some((p, None))), false)),
                        Some(Ok(pair)) => Ok((s.update(slot_of(k), Some((p, Some(pair)))), false)),
                        Some(Err(e)) => Err(PluginListError::Syntax(e)),
                        }
                    },
                }
            },
        },
    }
}

/// The positions after reading items from given positions: up to the first
/// error, or up to `..`, or to the end.
pub open spec fn run<A, E>(m: Manifest, f: PluginFeatures, s: Seq<Option<(Seq<char>, Option<(A, A)>)>>, items: Seq<PluginItem<A, E>>) -> Result<
    Seq<Option<(Seq<char>, Option<(A, A)>)>>,
    PluginListError<E>,
>
    decreases items.len(),
{
    if items.len() == 0 {
        Ok(s)
    } else {
        match step(m, f, s, items[0]) {
            Err(e) => Err(e),
            Ok((t, stop)) => if stop {
                Ok(t)
            } else {
                run(m, f, t, items.drop_first())
            },
        }
    }
}

/// No plugin at any position.
pub open spec fn no_slots<A>() -> Seq<Option<(Seq<char>, Option<(A, A)>)>> {
    Seq::new(5, |i: int| None)
}

/// The plugins at the first `n` positions, in order.
pub open spec fn listed<A>(s: Seq<Option<(Seq<char>, Option<(A, A)>)>>, n: int) -> Seq<(PluginKind, Seq<char>, Option<(A, A)>)>
    decreases n,
{
    if n <= 0 {
        Seq::empty()
    } else {
        match s[n - 1] {
            Some((p, a)) => listed(s, n - 1).push((kind_at(n - 1), p, a)),
            None => listed(s, n - 1),
        }
    }
}

/// The plugins a list adds, in order, or why it is refused.
pub open spec fn plan_spec<A, E>(m: Manifest, f: PluginFeatures, items: Seq<PluginItem<A, E>>) -> Result<
    Seq<(PluginKind, Seq<char>, Option<(A, A)>)>,
    PluginListError<E>,
> {
    match run(m, f, no_slots(), items) {
        Err(e) => Err(e),
        Ok(s) => if listed(s, 5).len() == 0 {
            Err(PluginListError::Empty)
        } else {
            Ok(listed(s, 5))
        },
    }
}

/// A plugin to add, as a value.
pub open spec fn setup_view<A>(p: PluginSetup<A>) -> (PluginKind, Seq<char>, Option<(A, A)>) {
    (p.kind, p.path@, p.arguments)
}

/// Plugins to add, as values.
pub open spec fn setups_view<A>(v: Seq<PluginSetup<A>>) -> Seq<(PluginKind, Seq<char>, Option<(A, A)>)> {
    v.map_values(|p: PluginSetup<A>| setup_view(p))
}

/// Fills the free positions as `..` does.
fn fill_rest_slots<A>(manifest: &Manifest, features: &PluginFeatures, slots: &mut Vec<Option<(String, Option<(A, A)>)>>)
    requires
        old(slots)@.len() == 5,
    ensures
        final(slots)@.len() == 5,
        slots_view(final(slots)@) == fill_rest(
            *manifest,
            *features,
            slots_view(old(slots)@),
        ),
{
    let ghost s0 = slots_view(slots@);
    let mut i: usize = 0;
    while i < 5
        invariant
            slots@.len() == 5,
            s0.len() == 5,
            i <= 5,
            forall|j: int| 0 <= j < i ==> slot_view(#[trigger] slots@[j]) == rest_slot(*manifest, *features, s0, j),
            forall|j: int| i <= j < 5 ==> slot_view(#[trigger] slots@[j]) == s0[j],
        decreases 5 - i,
    {
        let kind = kind_at_index(i);
        if slots[i].is_none() && features.enables(kind) {
            match manifest.resolve("hephae", kind.name()) {
                Some(path) => {
                    if path_parses(path.as_str()) {
                        slots.set(i, Some((path, None)));
                    }
                },
                None => {},
            }
        }
        i = i + 1;
    }
    proof {
        assert(slots_view(slots@) =~= fill_rest(
            *manifest,
            *features,
            s0,
        ));
    }
}

/// Reads a plugin list: the plugins to add, in the order render, atlas,
/// locale, text, ui, each with its crate path in the manifest and its type
/// arguments, or the first reason the list is refused.
pub fn plan_plugins<A, E>(manifest: &Manifest, features: PluginFeatures, items: Vec<PluginItem<A, E>>) -> (r: Result<
    Vec<PluginSetup<A>>,
    PluginListError<E>,
>)
    ensures
        match plan_spec(*manifest, features, items@) {
            Ok(l) => r matches Ok(v) && setups_view(v@) == l,
            Err(e) => r matches Err(e2) && e2 == e,
        },
{
    let ghost m = *manifest;
    let ghost all = items@;
    let mut slots: Vec<Option<(String, Option<(A, A)>)>> = Vec::new();
    let mut k: usize = 0;
    while k < 5
        invariant
            k <= 5,
            slots@.len() == k,
            forall|j: int| 0 <= j < k ==> slots@[j] is None,
        decreases 5 - k,
    {
        slots.push(None);
        k = k + 1;
    }
    proof {
        assert(slots_view(slots@) =~= no_slots::<A>());
    }
    let mut rest = items;
    loop
        invariant_except_break
            slots@.len() == 5,
            m == *manifest,
            all == items@,
            run(m, features, no_slots(), all) == run(
                m,
                features,
                slots_view(slots@),
                rest@,
            ),
        ensures
            slots@.len() == 5,
            run(m, features, no_slots(), all) == Ok::<_, PluginListError<E>>(
                slots_view(slots@),
            ),
        decreases rest@.len(),
    {
        if rest.len() == 0 {
            break;
        }
        let ghost before = rest@;
        let ghost sv = slots_view(slots@);
        let item = rest.remove(0);
        proof {
            assert(before.drop_first() =~= rest@);
            assert(run(m, features, sv, before) == match step(m, features, sv, item) {
                Err(e) => Err(e),
                Ok((t, stop)) => if stop {
                    Ok(t)
                } else {
                    run(m, features, t, rest@)
                },
            });
        }
        match item {
            PluginItem::Rest { trailing } => {
                if trailing {
                    return Err(PluginListError::TokensAfterRest);
                }
                fill_rest_slots(manifest, &features, &mut slots);
                break;
            },
            PluginItem::Invalid(e) => {
                return Err(PluginListError::Syntax(e));
            },
            PluginItem::Named { name, arguments } => {
                let kind = match plugin_kind(&name) {
                    None => {
                        return Err(PluginListError::Unknown(name));
                    },
                    Some(kind) => kind,
                };
                if !features.enables(kind) {
                    return Err(PluginListError::Unsupported(kind));
                }
                if !kind.takes_arguments() && arguments.is_some() {
                    return Err(PluginListError::NoTypeArguments(kind));
                }
                let idx = kind.slot();
                if slots[idx].is_some() {
                    return Err(PluginListError::DefinedTwice(kind));
                }
                let path = match manifest.resolve("hephae", kind.name()) {
                    None => {
                        return Err(PluginListError::MissingDependency(kind));
                    },
                    Some(path) => path,
                };
                if !path_parses(path.as_str()) {
                    return Err(PluginListError::InvalidPath(kind));
                }
                let given = match arguments {
                    None => None,
                    Some(Ok(pair)) => Some(pair),
                    Some(Err(e)) => {
                        return Err(PluginListError::Syntax(e));
                    },
                };
                slots.set(idx, Some((path, given)));
                proof {
                    assert(slots_view(slots@) =~= sv.update(
                        slot_of(kind),
                        Some((hephae_path(m, kind)->0, given)),
                    ));
                }
            },
        }
    }
    let ghost fin = slots_view(slots@);
    let mut out: Vec<PluginSetup<A>> = Vec::new();
    let mut i: usize = 0;
    while i < 5
        invariant
            i <= 5,
            fin.len() == 5,
            slots@.len() == 5 - i,
            forall|j: int| 0 <= j < 5 - i ==> slot_view(#[trigger] slots@[j]) == fin[j + i],
            setups_view(out@) == listed(fin, i as int),
        decreases 5 - i,
    {
        let slot = slots.remove(0);
        proof {
            assert(slot_view(slot) == fin[i as int]);
        }
        match slot {
            Some((path, arguments)) => {
                out.push(PluginSetup { kind: kind_at_index(i), path, arguments });
            },
            None => {},
        }
        proof {
            assert(setups_view(out@) =~= listed(fin, i + 1));
        }
        i = i + 1;
    }
    if out.len() == 0 {
        return Err(PluginListError::Empty);
    }
    Ok(out)
}

/// The plugins a list adds come in the order render, atlas, locale, text, ui,
/// so no plugin is added twice.
pub proof fn law_plugins_once<A, E>(m: Manifest, f: PluginFeatures, items: Seq<PluginItem<A, E>>)
    ensures
        plan_spec(m, f, items) matches Ok(l) ==> forall|i: int, j: int|
            0 <= i < j < l.len() ==> slot_of(#[trigger] l[i].0) < slot_of(#[trigger] l[j].0),
{
    if let Ok(s) = run(m, f, no_slots(), items) {
        lemma_listed_ordered(s, 5);
    }
}

/// The plugins at the first `n` positions come in position order.
proof fn lemma_listed_ordered<A>(s: Seq<Option<(Seq<char>, Option<(A, A)>)>>, n: int)
    requires
        n <= 5,
    ensures
        forall|i: int| 0 <= i < listed(s, n).len() ==> 0 <= slot_of(#[trigger] listed(s, n)[i].0) < n,
        forall|i: int, j: int|
            0 <= i < j < listed(s, n).len() ==> slot_of(#[trigger] listed(s, n)[i].0) < slot_of(
                #[trigger] listed(s, n)[j].0,
            ),
    decreases n,
{
    if n > 0 {
        lemma_listed_ordered(s, n - 1);
        let prev = listed(s, n - 1);
        assert(slot_of(kind_at(n - 1)) == n - 1);
        if let Some((p, a)) = s[n - 1] {
            let l = listed(s, n);
            assert(l == prev.push((kind_at(n - 1), p, a)));
            assert forall|i: int| 0 <= i < l.len() implies 0 <= slot_of(#[trigger] l[i].0) < n by {
                if i < prev.len() {
                    assert(l[i] == prev[i]);
                }
            }
            assert forall|i: int, j: int| 0 <= i < j < l.len() implies slot_of(#[trigger] l[i].0) < slot_of(
                #[trigger] l[j].0,
            ) by {
                assert(l[i] == prev[i]);
                if j < prev.len() {
                    assert(l[j] == prev[j]);
                }
            }
        }
    }
}

} // verus!
