//! The atlas entries a struct declares through its field attributes: fields
//! marked `#[atlas(i)]` hold the atlas of index `i`, fields marked
//! `#[entry(i)]` hold a sprite path looked up in the atlas of index `i`
//! (`#[atlas]` and `#[entry]` meaning index 0). The entries are listed in
//! field order.

use vstd::prelude::*;

verus! {

/// An attribute of a field, with its index as read, or what the reader
/// reported.
pub enum EntryAttr<E> {
    /// `#[atlas(..)]`.
    Atlas(Result<usize, E>),
    /// `#[entry(..)]`.
    Entry(Result<usize, E>),
}

/// Why a struct's atlas entries cannot be declared.
#[derive(Debug, Clone, PartialEq, Eq)]
pub enum EntriesError<E> {
    /// An attribute's index cannot be read; what the reader reported.
    Syntax(E),
    /// A field has `#[atlas]` twice; the field's position.
    RepeatedAtlas(usize),
    /// A field has `#[entry]` twice; the field's position.
    RepeatedEntry(usize),
    /// Two fields hold the atlas of one index.
    AtlasOccupied {
        /// Position of the later field.
        field: usize,
        /// The index.
        index: usize,
    },
    /// Entries name an index that no field holds the atlas of.
    NoAtlas(usize),
}

/// What a struct declares: the field holding the atlas of each index, in
/// field order, and each entry field with its atlas index, in field order.
pub struct EntriesPlan {
    /// `(index, field)` for each atlas field.
    pub atlases: Vec<(usize, usize)>,
    /// `(field, index)` for each entry field.
    pub entries: Vec<(usize, usize)>,
}

/// The atlas and entry indices of field `i` from its attributes, or the
/// first error among them.
pub open spec fn field_marks<E>(i: usize, attrs: Seq<EntryAttr<E>>) -> Result<(Option<usize>, Option<usize>), EntriesError<E>>
    decreases attrs.len(),
{
    if attrs.len() == 0 {
        Ok((None, None))
    } else {
        match field_marks(i, attrs.drop_last()) {
            Err(e) => Err(e),
            Ok((a, n)) => match attrs.last() {
                EntryAttr::Atlas(r) => if a is Some {
                    Err(EntriesError::RepeatedAtlas(i))
                } else {
                    match r {
                        Ok(x) => Ok((Some(x), n)),
                        Err(e) => Err(EntriesError::Syntax(e)),
                    }
                },
                EntryAttr::Entry(r) => if n is Some {
                    Err(EntriesError::RepeatedEntry(i))
                } else {
                    match r {
                        Ok(x) => Ok((a, Some(x))),
                        Err(e) => Err(EntriesError::Syntax(e)),
                    }
                },
            },
        }
    }
}

/// Whether an index has an atlas field.
pub open spec fn has_atlas(atlases: Seq<(usize, usize)>, index: usize) -> bool {
    exists|k: int| 0 <= k < atlases.len() && (#[trigger] atlases[k]).0 == index
}

/// The atlas fields and entry fields among the first fields, or the first
/// error.
pub open spec fn scan_fields<E>(fields: Seq<Vec<EntryAttr<E>>>) -> Result<(Seq<(usize, usize)>, Seq<(usize, usize)>), EntriesError<E>>
    decreases fields.len(),
{
    if fields.len() == 0 {
        Ok((Seq::empty(), Seq::empty()))
    } else {
        let i = (fields.len() - 1) as usize;
        match scan_fields(fields.drop_last()) {
            Err(e) => Err(e),
            Ok((atl, ent)) => match field_marks(i, fields.last()@) {
                Err(e) => Err(e),
                Ok((a, n)) => {
                    let atl2 = match a {
                        Some(x) => atl.push((x, i)),
                        None => atl,
                    };
                    let ent2 = match n {
                        Some(y) => ent.push((i, y)),
                        None => ent,
                    };
                    match a {
                        Some(x) => if has_atlas(atl, x) {
                            Err(EntriesError::AtlasOccupied { field: i, index: x })
                        } else {
                            Ok((atl2, ent2))
                        },
                        None => Ok((atl2, ent2)),
                    }
                },
            },
        }
    }
}

/// Index of the first entry whose atlas index has no atlas field.
pub open spec fn first_orphan(atlases: Seq<(usize, usize)>, entries: Seq<(usize, usize)>) -> Option<int>
    decreases entries.len(),
{
    if entries.len() == 0 {
        None
    } else {
        match first_orphan(atlases, entries.drop_last()) {
            Some(k) => Some(k),
            None => if !has_atlas(atlases, entries.last().1) {
                Some(entries.len() - 1)
            } else {
                None
            },
        }
    }
}

/// What a struct with the given field attributes declares, or why it cannot:
/// the first error of a field, in field order, or else the first entry, in
/// field order, whose atlas index has no atlas field.
pub open spec fn plan_entries_spec<E>(fields: Seq<Vec<EntryAttr<E>>>) -> Result<(Seq<(usize, usize)>, Seq<(usize, usize)>), EntriesError<E>> {
    match scan_fields(fields) {
        Err(e) => Err(e),
        Ok((atl, ent)) => match first_orphan(atl, ent) {
            Some(k) => Err(EntriesError::NoAtlas(ent[k].1)),
            None => Ok((atl, ent)),
        },
    }
}

/// A field error among the first attributes stays the error of all of them.
proof fn lemma_marks_error<E>(i: usize, attrs: Seq<EntryAttr<E>>, n: int)
    requires
        0 <= n <= attrs.len(),
        field_marks(i, attrs.subrange(0, n)) is Err,
    ensures
        field_marks(i, attrs) == field_marks(i, attrs.subrange(0, n)),
    decreases attrs.len() - n,
{
    if n < attrs.len() {
        assert(attrs.subrange(0, n + 1).drop_last() =~= attrs.subrange(0, n));
        lemma_marks_error(i, attrs, n + 1);
    } else {
        assert(attrs.subrange(0, n) =~= attrs);
    }
}

/// An error among the first fields stays the error of all of them.
proof fn lemma_scan_error<E>(fields: Seq<Vec<EntryAttr<E>>>, n: int)
    requires
        0 <= n <= fields.len(),
        scan_fields(fields.subrange(0, n)) is Err,
    ensures
        scan_fields(fields) == scan_fields(fields.subrange(0, n)),
    decreases fields.len() - n,
{
    if n < fields.len() {
        assert(fields.subrange(0, n + 1).drop_last() =~= fields.subrange(0, n));
        lemma_scan_error(fields, n + 1);
    } else {
        assert(fields.subrange(0, n) =~= fields);
    }
}

/// The atlas and entry indices of field `i`; see [`field_marks`].
fn marks<E>(i: usize, attrs: Vec<EntryAttr<E>>) -> (r: Result<(Option<usize>, Option<usize>), EntriesError<E>>)
    ensures
        r == field_marks(i, attrs@),
{
    let ghost all = attrs@;
    let total = attrs.len();
    let mut rest = attrs;
    let mut atlas: Option<usize> = None;
    let mut entry: Option<usize> = None;
    let mut k: usize = 0;
    while rest.len() > 0
        invariant
            all == attrs@,
            all.len() == total,
            k + rest@.len() == all.len(),
            rest@ == all.subrange(k as int, all.len() as int),
            field_marks(i, all.subrange(0, k as int)) == Ok::<_, EntriesError<E>>((atlas, entry)),
        decreases rest@.len(),
    {
        let ghost before = rest@;
        let attr = rest.remove(0);
        proof {
            assert(attr == all[k as int]);
            assert(rest@ =~= all.subrange(k + 1, all.len() as int));
            assert(all.subrange(0, k + 1).drop_last() =~= all.subrange(0, k as int));
            assert(all.subrange(0, k + 1).last() == attr);
        }
        match attr {
            EntryAttr::Atlas(read) => {
                if atlas.is_some() {
                    proof {
                        lemma_marks_error(i, all, k + 1);
                    }
                    return Err(EntriesError::RepeatedAtlas(i));
                }
                match read {
                    Ok(x) => {
                        atlas = Some(x);
                    },
                    Err(e) => {
                        proof {
                            lemma_marks_error(i, all, k + 1);
                        }
                        return Err(EntriesError::Syntax(e));
                    },
                }
            },
            EntryAttr::Entry(read) => {
                if entry.is_some() {
                    proof {
                        lemma_marks_error(i, all, k + 1);
                    }
                    return Err(EntriesError::RepeatedEntry(i));
                }
                match read {
                    Ok(x) => {
                        entry = Some(x);
                    },
                    Err(e) => {
                        proof {
                            lemma_marks_error(i, all, k + 1);
                        }
                        return Err(EntriesError::Syntax(e));
                    },
                }
            },
        }
        k = k + 1;
    }
    proof {
        assert(all.subrange(0, k as int) =~= all);
    }
    Ok((atlas, entry))
}

/// Whether an index has an atlas field.
fn has_atlas_exec(atlases: &Vec<(usize, usize)>, index: usize) -> (r: bool)
    ensures
        r == has_atlas(atlases@, index),
{
    let mut k: usize = 0;
    while k < atlases.len()
        invariant
            k <= atlases@.len(),
            forall|j: int| 0 <= j < k ==> (#[trigger] atlases@[j]).0 != index,
        decreases atlases@.len() - k,
    {
        if atlases[k].0 == index {
            proof {
                assert(atlases@[k as int].0 == index);
            }
            return true;
        }
        k = k + 1;
    }
    false
}

/// Reads the atlas entries a struct declares from the attributes of its
/// fields, in field order: the atlas field of each index and each entry
/// field with its index, or the first reason they cannot be declared.
pub fn plan_entries<E>(fields: Vec<Vec<EntryAttr<E>>>) -> (r: Result<EntriesPlan, EntriesError<E>>)
    ensures
        match plan_entries_spec(fields@) {
            Ok((a, n)) => r matches Ok(p) && p.atlases@ == a && p.entries@ == n,
            Err(e) => r matches Err(x) && x == e,
        },
{
    let ghost all = fields@;
    let total = fields.len();
    let mut rest = fields;
    let mut atlases: Vec<(usize, usize)> = Vec::new();
    let mut entries: Vec<(usize, usize)> = Vec::new();
    let mut i: usize = 0;
    while rest.len() > 0
        invariant
            all == fields@,
            all.len() == total,
            i + rest@.len() == all.len(),
            rest@ == all.subrange(i as int, all.len() as int),
            scan_fields(all.subrange(0, i as int)) == Ok::<_, EntriesError<E>>((atlases@, entries@)),
        decreases rest@.len(),
    {
        let attrs = rest.remove(0);
        proof {
            assert(attrs == all[i as int]);
            assert(rest@ =~= all.subrange(i + 1, all.len() as int));
            assert(all.subrange(0, i + 1).drop_last() =~= all.subrange(0, i as int));
            assert(all.subrange(0, i + 1).last() == attrs);
        }
        let (atlas, entry) = match marks(i, attrs) {
            Ok(found) => found,
            Err(e) => {
                proof {
                    lemma_scan_error(all, i + 1);
                }
                return Err(e);
            },
        };
        if let Some(x) = atlas {
            if has_atlas_exec(&atlases, x) {
                proof {
                    lemma_scan_error(all, i + 1);
                }
                return Err(EntriesError::AtlasOccupied { field: i, index: x });
            }
            atlases.push((x, i));
        }
        if let Some(y) = entry {
            entries.push((i, y));
        }
        i = i + 1;
    }
    proof {
        assert(all.subrange(0, i as int) =~= all);
    }
    let mut k: usize = 0;
    while k < entries.len()
        invariant
            all == fields@,
            scan_fields(all) == Ok::<_, EntriesError<E>>((atlases@, entries@)),
            k <= entries@.len(),
            first_orphan(atlases@, entries@.subrange(0, k as int)) is None,
        decreases entries@.len() - k,
    {
        proof {
            assert(entries@.subrange(0, k + 1).drop_last() =~= entries@.subrange(0, k as int));
        }
        let index = entries[k].1;
        if !has_atlas_exec(&atlases, index) {
            proof {
                lemma_orphan_prefix(atlases@, entries@, k + 1);
            }
            return Err(EntriesError::NoAtlas(index));
        }
        k = k + 1;
    }
    proof {
        assert(entries@.subrange(0, k as int) =~= entries@);
    }
    Ok(EntriesPlan { atlases, entries })
}

/// An orphan found among the first entries is the first orphan of all.
proof fn lemma_orphan_prefix(atlases: Seq<(usize, usize)>, entries: Seq<(usize, usize)>, n: int)
    requires
        0 <= n <= entries.len(),
        first_orphan(atlases, entries.subrange(0, n)) is Some,
    ensures
        first_orphan(atlases, entries) == first_orphan(atlases, entries.subrange(0, n)),
    decreases entries.len() - n,
{
    if n < entries.len() {
        assert(entries.subrange(0, n + 1).drop_last() =~= entries.subrange(0, n));
        lemma_orphan_prefix(atlases, entries, n + 1);
    } else {
        assert(entries.subrange(0, n) =~= entries);
    }
}

/// Every field recorded while scanning the first fields is one of them, and
/// the fields come in increasing order.
proof fn lemma_scan_ordered<E>(fields: Seq<Vec<EntryAttr<E>>>)
    requires
        fields.len() <= usize::MAX,
    ensures
        scan_fields(fields) matches Ok((a, n)) ==> {
            &&& forall|k: int| 0 <= k < a.len() ==> (#[trigger] a[k]).1 < fields.len()
            &&& forall|k: int| 0 <= k < n.len() ==> (#[trigger] n[k]).0 < fields.len()
            &&& forall|j: int, k: int| 0 <= j < k < a.len() ==> (#[trigger] a[j]).1 < (#[trigger] a[k]).1
            &&& forall|j: int, k: int| 0 <= j < k < n.len() ==> (#[trigger] n[j]).0 < (#[trigger] n[k]).0
        },
    decreases fields.len(),
{
    if fields.len() > 0 {
        let d = fields.drop_last();
        let i = (fields.len() - 1) as usize;
        assert(i == fields.len() - 1);
        lemma_scan_ordered(d);
        if let Ok((atl, ent)) = scan_fields(d) {
            if let Ok((fa, fe)) = field_marks(i, fields.last()@) {
                let a2 = match fa {
                    Some(x) => atl.push((x, i)),
                    None => atl,
                };
                let n2 = match fe {
                    Some(y) => ent.push((i, y)),
                    None => ent,
                };
                assert forall|k: int| 0 <= k < a2.len() implies (#[trigger] a2[k]).1 < fields.len() by {
                    if k < atl.len() {
                        assert(a2[k] == atl[k]);
                    }
                }
                assert forall|k: int| 0 <= k < n2.len() implies (#[trigger] n2[k]).0 < fields.len() by {
                    if k < ent.len() {
                        assert(n2[k] == ent[k]);
                    }
                }
                assert forall|j: int, k: int| 0 <= j < k < a2.len() implies (#[trigger] a2[j]).1 < (#[trigger] a2[k]).1 by {
                    assert(a2[j] == atl[j]);
                    if k < atl.len() {
                        assert(a2[k] == atl[k]);
                    }
                }
                assert forall|j: int, k: int| 0 <= j < k < n2.len() implies (#[trigger] n2[j]).0 < (#[trigger] n2[k]).0 by {
                    assert(n2[j] == ent[j]);
                    if k < ent.len() {
                        assert(n2[k] == ent[k]);
                    }
                }
            }
        }
    }
}

/// The entries a struct declares come in field order, as do its atlas
/// fields, and every entry's index has an atlas field.
pub proof fn law_entries_in_field_order<E>(fields: Seq<Vec<EntryAttr<E>>>)
    requires
        fields.len() <= usize::MAX,
    ensures
        plan_entries_spec(fields) matches Ok((a, n)) ==> {
            &&& forall|j: int, k: int| 0 <= j < k < n.len() ==> (#[trigger] n[j]).0 < (#[trigger] n[k]).0
            &&& forall|j: int, k: int| 0 <= j < k < a.len() ==> (#[trigger] a[j]).1 < (#[trigger] a[k]).1
            &&& forall|k: int| 0 <= k < n.len() ==> has_atlas(a, (#[trigger] n[k]).1)
        },
{
    lemma_scan_ordered(fields);
    if let Ok((a, n)) = scan_fields(fields) {
        lemma_no_orphan(a, n);
    }
}

/// Without an orphan, every entry's index has an atlas field.
proof fn lemma_no_orphan(atlases: Seq<(usize, usize)>, entries: Seq<(usize, usize)>)
    ensures
        first_orphan(atlases, entries) is None ==> forall|k: int|
            0 <= k < entries.len() ==> has_atlas(atlases, (#[trigger] entries[k]).1),
    decreases entries.len(),
{
    if entries.len() > 0 {
        lemma_no_orphan(atlases, entries.drop_last());
        if first_orphan(atlases, entries) is None {
            assert forall|k: int| 0 <= k < entries.len() implies has_atlas(atlases, (#[trigger] entries[k]).1) by {
                if k < entries.len() - 1 {
                    assert(entries[k] == entries.drop_last()[k]);
                }
            }
        }
    }
}

} // verus!
