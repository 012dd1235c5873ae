//! Resolving the path of a sub-crate of a library from a crate manifest's
//! dependency tables, as derive macros do to name the crates they expand to.
//!
//! A sub-crate `sub` of `base` is found as a dependency named `base_sub` or
//! `base-sub`, whose path is `{name}_{sub}`, or else as a dependency on `base`
//! itself, whose path is `{name}::{sub}`; `name` is the package the
//! dependency renames, or `base`. The regular dependencies are searched
//! before the development ones.

use toml_edit::DocumentMut;
use vstd::prelude::*;
use vstd::string::StringExecFns;

verus! {

/// How a dependency is written.
#[derive(Clone, Debug, PartialEq, Eq)]
pub enum DepSpec {
    /// A bare version string.
    Version,
    /// A table, with the package it renames if it names one.
    Table {
        /// The `package` key of the table, where it is a string.
        package: Option<String>,
    },
}

/// A dependency of a manifest: its key and how it is written.
#[derive(Clone, Debug, PartialEq, Eq)]
pub struct Dependency {
    /// The dependency's key in its table.
    pub key: String,
    /// How the dependency is written.
    pub spec: DepSpec,
}

/// The dependency tables of a crate manifest; `None` where a table is
/// missing or is not a table.
#[derive(Clone, Debug, PartialEq, Eq)]
pub struct Manifest {
    /// The `dependencies` table.
    pub dependencies: Option<Vec<Dependency>>,
    /// The `dev-dependencies` table.
    pub dev_dependencies: Option<Vec<Dependency>>,
}

/// The crate name a dependency is used under.
pub open spec fn dep_name(d: Dependency, base: Seq<char>) -> Seq<char> {
    match d.spec {
        DepSpec::Table { package: Some(p) } => p@,
        _ => base,
    }
}

/// Index of the first dependency with the given key.
pub open spec fn find_dep(deps: Seq<Dependency>, key: Seq<char>) -> Option<int>
    decreases deps.len(),
{
    if deps.len() == 0 {
        None
    } else {
        match find_dep(deps.drop_last(), key) {
            Some(i) => Some(i),
            None => if deps.last().key@ == key {
                Some(deps.len() - 1)
            } else {
                None
            },
        }
    }
}

/// The path of `base`'s sub-crate `sub` within one dependency table.
pub open spec fn resolve_in(deps: Seq<Dependency>, base: Seq<char>, sub: Seq<char>) -> Option<Seq<char>> {
    match find_dep(deps, base + "_"@ + sub) {
        Some(i) => Some(dep_name(deps[i], base) + "_"@ + sub),
        None => match find_dep(deps, base + "-"@ + sub) {
            Some(i) => Some(dep_name(deps[i], base) + "_"@ + sub),
            None => match find_dep(deps, base) {
                Some(i) => Some(dep_name(deps[i], base) + "::"@ + sub),
                None => None,
            },
        },
    }
}

/// The path of `base`'s sub-crate `sub` in a manifest: from the regular
/// dependencies, or else from the development ones.
pub open spec fn resolve_spec(m: Manifest, base: Seq<char>, sub: Seq<char>) -> Option<Seq<char>> {
    let dev = match m.dev_dependencies {
        Some(d) => resolve_in(d@, base, sub),
        None => None,
    };
    match m.dependencies {
        Some(d) => match resolve_in(d@, base, sub) {
            Some(p) => Some(p),
            None => dev,
        },
        None => dev,
    }
}

/// Finds the first dependency with the given key.
fn find(deps: &Vec<Dependency>, key: &String) -> (r: Option<usize>)
    ensures
        r matches Some(i) ==> i < deps@.len() && find_dep(deps@, key@) == Some(i as int),
        r is None ==> find_dep(deps@, key@) is None,
{
    proof {
        lemma_find_range(deps@, key@);
    }
    let mut i: usize = 0;
    while i < deps.len()
        invariant
            i <= deps@.len(),
            find_dep(deps@.subrange(0, i as int), key@) is None,
        decreases deps@.len() - i,
    {
        proof {
            assert(deps@.subrange(0, i + 1).drop_last() =~= deps@.subrange(0, i as int));
        }
        if deps[i].key == *key {
            proof {
                lemma_find_prefix(deps@, key@, i + 1);
            }
            return Some(i);
        }
        i = i + 1;
    }
    proof {
        assert(deps@.subrange(0, deps@.len() as int) =~= deps@);
    }
    None
}

/// A key is found at an index of the table, holding that key.
proof fn lemma_find_range(deps: Seq<Dependency>, key: Seq<char>)
    ensures
        find_dep(deps, key) matches Some(i) ==> 0 <= i < deps.len() && deps[i].key@ == key,
    decreases deps.len(),
{
    if deps.len() > 0 {
        lemma_find_range(deps.drop_last(), key);
    }
}

/// A key found in a prefix is found at the same index in the whole table.
proof fn lemma_find_prefix(deps: Seq<Dependency>, key: Seq<char>, n: int)
    requires
        0 <= n <= deps.len(),
        find_dep(deps.subrange(0, n), key) is Some,
    ensures
        find_dep(deps, key) == find_dep(deps.subrange(0, n), key),
    decreases deps.len() - n,
{
    if n < deps.len() {
        assert(deps.subrange(0, n + 1).drop_last() =~= deps.subrange(0, n));
        lemma_find_prefix(deps, key, n + 1);
    } else {
        assert(deps.subrange(0, n) =~= deps);
    }
}

/// The crate name a dependency is used under.
fn name_of(d: &Dependency, base: &str) -> (r: String)
    ensures
        r@ == dep_name(*d, base@),
{
    match &d.spec {
        DepSpec::Table { package: Some(p) } => p.clone(),
        _ => String::from_str(base),
    }
}

/// `a` followed by `b` and `c`.
fn joined(a: &str, b: &str, c: &str) -> (r: String)
    ensures
        r@ == a@ + b@ + c@,
{
    let mut r = String::from_str(a);
    r.append(b);
    r.append(c);
    r
}

/// The path of `base`'s sub-crate `sub` within one dependency table.
fn resolve_table(deps: &Vec<Dependency>, base: &str, sub: &str) -> (r: Option<String>)
    ensures
        r matches Some(p) ==> resolve_in(deps@, base@, sub@) == Some(p@),
        r is None ==> resolve_in(deps@, base@, sub@) is None,
{
    let underscore = joined(base, "_", sub);
    let hyphen = joined(base, "-", sub);
    let whole = String::from_str(base);
    let ghost k1 = base@ + "_"@ + sub@;
    let ghost k2 = base@ + "-"@ + sub@;
    proof {
        assert(underscore@ == k1);
        assert(hyphen@ == k2);
        assert(whole@ == base@);
    }
    if let Some(i) = find(deps, &underscore) {
        let name = name_of(&deps[i], base);
        let path = joined(name.as_str(), "_", sub);
        proof {
            assert(find_dep(deps@, k1) == Some(i as int));
        }
        return Some(path);
    }
    if let Some(i) = find(deps, &hyphen) {
        let name = name_of(&deps[i], base);
        let path = joined(name.as_str(), "_", sub);
        proof {
            assert(find_dep(deps@, k1) is None);
            assert(find_dep(deps@, k2) == Some(i as int));
        }
        return Some(path);
    }
    if let Some(i) = find(deps, &whole) {
        let name = name_of(&deps[i], base);
        let path = joined(name.as_str(), "::", sub);
        proof {
            assert(find_dep(deps@, k1) is None);
            assert(find_dep(deps@, k2) is None);
            assert(find_dep(deps@, base@) == Some(i as int));
        }
        return Some(path);
    }
    proof {
        assert(find_dep(deps@, k1) is None);
        assert(find_dep(deps@, k2) is None);
        assert(find_dep(deps@, base@) is None);
    }
    None
}

impl Manifest {
    /// The path of the sub-crate `sub` of `base`, such as `render` under
    /// `bevy`, or `None` where neither dependency table names it.
    pub fn resolve(&self, base: &str, sub: &str) -> (r: Option<String>)
        ensures
            r matches Some(p) ==> resolve_spec(*self, base@, sub@) == Some(p@),
            r is None ==> resolve_spec(*self, base@, sub@) is None,
    {
        let found = match &self.dependencies {
            Some(d) => resolve_table(d, base, sub),
            None => None,
        };
        match found {
            Some(p) => Some(p),
            None => match &self.dev_dependencies {
                Some(d) => resolve_table(d, base, sub),
                None => None,
            },
        }
    }
}

/// A dependency as a value: its key, and `None` for a bare version string or
/// `Some` of the `package` key of its table, where that is a string.
pub open spec fn dep_view(d: Dependency) -> (Seq<char>, Option<Option<Seq<char>>>) {
    (d.key@, match d.spec {
        DepSpec::Version => None,
        DepSpec::Table { package } => Some(
            match package {
                Some(p) => Some(p@),
                None => None,
            },
        ),
    })
}

/// A dependency table as values: `None` where the table is missing or is
/// not a table.
pub open spec fn table_view(t: Option<Vec<Dependency>>) -> Option<Seq<(Seq<char>, Option<Option<Seq<char>>>)>> {
    match t {
        Some(v) => Some(v@.map_values(|d: Dependency| dep_view(d))),
        None => None,
    }
}

/// What the TOML document `text` holds under the top-level key `table`:
/// `None` where the text is not a TOML document; else `None` where the key is
/// missing or is not a table, and else each entry in document order, with
/// `None` for a string value and, for any other value, `Some` of its
/// `package` string if it has one.
pub uninterp spec fn manifest_table(text: Seq<char>, table: Seq<char>) -> Option<
    Option<Seq<(Seq<char>, Option<Option<Seq<char>>>)>>,
>;

/// `str::parse::<toml_edit::DocumentMut>`, with the entries of one top-level
/// table read off the document.
#[verifier::external_body]
fn read_table(text: &str, table: &str) -> (r: Option<Option<Vec<Dependency>>>)
    ensures
        match r {
            Some(t) => manifest_table(text@, table@) == Some(table_view(t)),
            None => manifest_table(text@, table@) is None,
        },
{
    let doc = text.parse::<DocumentMut>().ok()?;
    Some(doc.get(table).and_then(|item| item.as_table_like()).map(|t| t.iter().map(|(key, dep)| Dependency {
        key: key.to_string(),
        spec: match dep.as_str() {
            Some(_) => DepSpec::Version,
            None => DepSpec::Table { package: dep.get("package").and_then(|p| p.as_str()).map(|p| p.to_string()) },
        },
    }).collect()))
}

/// The dependency tables of a crate manifest given as text, or `None` where
/// the text is not a TOML document.
pub fn manifest_from_text(text: &str) -> (r: Option<Manifest>)
    ensures
        match (manifest_table(text@, "dependencies"@), manifest_table(text@, "dev-dependencies"@)) {
            (Some(d), Some(v)) => r matches Some(m) && table_view(m.dependencies) == d && table_view(
                m.dev_dependencies,
            ) == v,
            _ => r is None,
        },
{
    let dependencies = read_table(text, "dependencies");
    let dev_dependencies = read_table(text, "dev-dependencies");
    match (dependencies, dev_dependencies) {
        (Some(dependencies), Some(dev_dependencies)) => Some(Manifest { dependencies, dev_dependencies }),
        _ => None,
    }
}

} // verus!
