//! Text structures: the spans of a text entity in order, and the font of
//! each.
//!
//! A text structure lists its entities in order, each with its depth in the
//! span hierarchy: the text entity first, at depth 0, then its span
//! descendants in depth-first order, children in their order. An entity with a font of its own uses it; any other uses
//! the font on top of a stack of inherited fonts, after dropping the entries
//! at its depth or deeper, and pushes that font at its own depth.

use fixedbitset::FixedBitSet;
use vstd::prelude::*;

use crate::bits::{bit_marks, bit_set, bits_contains, bits_grow_and_insert, bits_put, bits_with_capacity};
use vstd::set_lib::{lemma_int_range, lemma_len_subset, set_int_range};

verus! {

/// The inherited fonts, innermost last, each with the depth it was pushed at.
pub struct FontStack<F> {
    fonts: Vec<(F, usize)>,
}

/// The stack left after dropping, from the top, the entries at `depth` or
/// deeper; nothing is dropped for the root, at depth 0.
pub open spec fn drop_deeper<F>(stack: Seq<(F, usize)>, depth: usize) -> Seq<(F, usize)>
    decreases stack.len(),
{
    if depth > 0 && stack.len() > 0 && stack.last().1 >= depth {
        drop_deeper(stack.drop_last(), depth)
    } else {
        stack
    }
}

impl<F: Copy> FontStack<F> {
    /// The entries of the stack, bottom first.
    pub closed spec fn entries(&self) -> Seq<(F, usize)> {
        self.fonts@
    }

    /// An empty stack.
    pub fn new() -> (r: Self)
        ensures
            r.entries() == Seq::<(F, usize)>::empty(),
    {
        FontStack { fonts: Vec::new() }
    }

    /// The font of an entity at `depth`: `own` where it has one, leaving the
    /// stack as it is; otherwise the top font once deeper entries are
    /// dropped, or `default` on an empty stack, which is then pushed at
    /// `depth`.
    pub fn resolve(&mut self, depth: usize, own: Option<F>, default: F) -> (r: F)
        ensures
            match own {
                Some(f) => r == f && final(self).entries() == old(self).entries(),
                None => {
                    let s = drop_deeper(old(self).entries(), depth);
                    &&& r == (if s.len() > 0 {
                        s.last().0
                    } else {
                        default
                    })
                    &&& final(self).entries() == s.push((r, depth))
                },
            },
    {
        if let Some(f) = own {
            return f;
        }
        loop
            invariant
                own is None,
                drop_deeper(self.fonts@, depth) == drop_deeper(old(self).fonts@, depth),
            decreases self.fonts@.len(),
        {
            let n = self.fonts.len();
            let (top, top_depth) = if n > 0 {
                self.fonts[n - 1]
            } else {
                (default, 0)
            };
            if depth > 0 && top_depth >= depth {
                let ghost before = self.fonts@;
                self.fonts.pop();
                proof {
                    assert(self.fonts@ =~= before.drop_last());
                }
            } else {
                self.fonts.push((top, depth));
                return top;
            }
        }
    }
}

/// An entity of a text hierarchy, as the structure walk sees it.
pub struct SpanEntity {
    /// Whether it is a text entity, which has a structure of its own.
    pub text: bool,
    /// Whether it carries span text.
    pub span: bool,
    /// Its parent, if it has one.
    pub parent: Option<usize>,
    /// Its children, in order.
    pub children: Vec<usize>,
}

/// Whether the walk descends into an entity: it exists, carries span text
/// but is no text entity, and has a parent.
pub open spec fn span_child(es: Seq<SpanEntity>, c: usize) -> bool {
    c < es.len() && !es[c as int].text && es[c as int].span && es[c as int].parent is Some
}

/// Every span listed as a child of an entity names that entity as its
/// parent.
pub open spec fn hierarchy_consistent(es: Seq<SpanEntity>) -> bool {
    forall|e: int, i: int|
        0 <= e < es.len() && 0 <= i < es[e].children@.len() && span_child(es, #[trigger] es[e].children@[i])
            ==> es[es[e].children@[i] as int].parent == Some(e as usize)
}

/// The spans under a list of children, depth-first, each with its depth;
/// `fuel` bounds how deep the walk goes.
pub open spec fn spans_under(es: Seq<SpanEntity>, children: Seq<usize>, depth: usize, fuel: nat) -> Seq<(usize, usize)>
    decreases fuel, children.len(),
{
    if children.len() == 0 {
        Seq::empty()
    } else {
        let c = children.last();
        let before = spans_under(es, children.drop_last(), depth, fuel);
        if span_child(es, c) {
            before.push((c, depth)) + if fuel > 0 {
                spans_under(es, es[c as int].children@, (depth + 1) as usize, (fuel - 1) as nat)
            } else {
                Seq::empty()
            }
        } else {
            before
        }
    }
}

/// The structure of a text entity: itself at depth 0, then the spans under
/// it. A walk down a consistent hierarchy meets no entity twice on one path,
/// so it is never deeper than the number of entities.
pub open spec fn structure_of(es: Seq<SpanEntity>, root: usize) -> Seq<(usize, usize)> {
    seq![(root, 0usize)] + spans_under(es, es[root as int].children@, 1, es.len())
}

/// A sequence of distinct indices below `n` has at most `n` elements.
proof fn lemma_distinct_bound(path: Seq<int>, n: int)
    requires
        path.no_duplicates(),
        0 <= n,
        forall|k: int| 0 <= k < path.len() ==> 0 <= #[trigger] path[k] < n,
    ensures
        path.len() <= n,
{
    path.unique_seq_to_set();
    lemma_int_range(0, n);
    assert(path.to_set().subset_of(set_int_range(0, n)));
    lemma_len_subset(path.to_set(), set_int_range(0, n));
}

/// Appends the spans under `node`, at `depth` and below, to `out`. `path`
/// holds the entities from the root down to `node`.
fn walk(es: &Vec<SpanEntity>, node: usize, depth: usize, out: &mut Vec<(usize, usize)>, Ghost(path): Ghost<Seq<int>>)
    requires
        hierarchy_consistent(es@),
        node < es@.len(),
        1 <= depth,
        path.len() == depth,
        path.no_duplicates(),
        forall|k: int| 0 <= k < path.len() ==> 0 <= #[trigger] path[k] < es@.len(),
        path.last() == node,
        es@[path[0]].text,
        forall|k: int|
            1 <= k < path.len() ==> span_child(es@, #[trigger] path[k] as usize) && es@[path[k]].parent == Some(
                path[k - 1] as usize,
            ),
    ensures
        final(out)@ == old(out)@ + spans_under(es@, es@[node as int].children@, depth, (es@.len() - depth + 1) as nat),
    decreases es@.len() - depth,
{
    proof {
        lemma_distinct_bound(path, es@.len() as int);
    }
    let ghost fuel = (es@.len() - depth + 1) as nat;
    let ghost out0 = out@;
    let children = &es[node].children;
    let mut i: usize = 0;
    while i < children.len()
        invariant
            hierarchy_consistent(es@),
            node < es@.len(),
            1 <= depth <= es@.len(),
            path.len() == depth,
            path.no_duplicates(),
            forall|k: int| 0 <= k < path.len() ==> 0 <= #[trigger] path[k] < es@.len(),
            path.last() == node,
            es@[path[0]].text,
            forall|k: int|
                1 <= k < path.len() ==> span_child(es@, #[trigger] path[k] as usize) && es@[path[k]].parent == Some(
                    path[k - 1] as usize,
                ),
            *children == es@[node as int].children,
            fuel == es@.len() - depth + 1,
            i <= children@.len(),
            out@ == out0 + spans_under(es@, children@.subrange(0, i as int), depth, fuel),
        decreases children@.len() - i,
    {
        let c = children[i];
        proof {
            assert(children@.subrange(0, i + 1).drop_last() =~= children@.subrange(0, i as int));
            assert(children@.subrange(0, i + 1).last() == c);
        }
        if c < es.len() && !es[c].text && es[c].span && es[c].parent.is_some() {
            let ghost before = out@;
            out.push((c, depth));
            let ghost next = path.push(c as int);
            proof {
                assert(es@[node as int].children@[i as int] == c);
                assert(es@[c as int].parent == Some(node));
                assert forall|k: int| 0 <= k < path.len() implies path[k] != c as int by {
                    if k == 0 {
                    } else if path[k] == c as int {
                        assert(span_child(es@, path[k] as usize));
                        assert(path[k - 1] == node as int);
                        assert(path[k - 1] == path[path.len() - 1]);
                    }
                }
                assert(next.no_duplicates()) by {
                    assert forall|a: int, b: int| 0 <= a < b < next.len() implies next[a] != next[b] by {
                        if b < path.len() {
                            assert(next[a] == path[a] && next[b] == path[b]);
                        } else {
                            assert(next[a] == path[a]);
                        }
                    }
                }
                assert forall|k: int| 0 <= k < next.len() implies 0 <= #[trigger] next[k] < es@.len() by {
                    if k < path.len() {
                        assert(next[k] == path[k]);
                    }
                }
                lemma_distinct_bound(next, es@.len() as int);
                assert forall|k: int|
                    1 <= k < next.len() implies span_child(es@, #[trigger] next[k] as usize) && es@[next[k]].parent
                        == Some(next[k - 1] as usize) by {
                    if k < path.len() {
                        assert(next[k] == path[k] && next[k - 1] == path[k - 1]);
                    } else {
                        assert(next[k - 1] == path[k - 1]);
                    }
                }
                assert(next[0] == path[0]);
            }
            walk(es, c, depth + 1, out, Ghost(next));
            proof {
                assert(fuel > 0);
                assert((fuel - 1) as nat == (es@.len() - (depth + 1) + 1) as nat);
                assert(out@ =~= out0 + spans_under(es@, children@.subrange(0, i + 1), depth, fuel));
            }
        } else {
            proof {
                assert(out@ =~= out0 + spans_under(es@, children@.subrange(0, i + 1), depth, fuel));
            }
        }
        i = i + 1;
    }
    proof {
        assert(children@.subrange(0, children@.len() as int) =~= children@);
    }
}

/// The structure of the text entity `root`: `root` at depth 0, then its
/// span descendants depth-first, children in order, each with its depth.
pub fn span_structure(es: &Vec<SpanEntity>, root: usize) -> (r: Vec<(usize, usize)>)
    requires
        root < es@.len(),
        es@[root as int].text,
        hierarchy_consistent(es@),
    ensures
        r@ == structure_of(es@, root),
{
    let mut out: Vec<(usize, usize)> = Vec::new();
    out.push((root, 0));
    let ghost path = seq![root as int];
    proof {
        assert(path.no_duplicates());
    }
    walk(es, root, 1, &mut out, Ghost(path));
    proof {
        assert(out@ =~= structure_of(es@, root));
    }
    out
}

/// The entity hierarchy a pass reads: spans listed as children name their
/// parent, and every parent exists.
pub open spec fn world_wf(es: Seq<SpanEntity>) -> bool {
    &&& hierarchy_consistent(es)
    &&& forall|e: int| 0 <= e < es.len() && (#[trigger] es[e]).parent is Some ==> es[e].parent->0 < es.len()
}

/// What changed about an entity since the previous pass.
#[derive(Debug, Clone, Copy, PartialEq, Eq, Structural)]
pub struct EntityChange {
    /// The entity.
    pub entity: usize,
    /// Its text was added, for a text entity; its span text, for any other.
    pub added: bool,
    /// Its parent changed.
    pub parent_changed: bool,
    /// Its children changed.
    pub children_changed: bool,
}

/// Whether a change asks for the structure around its entity to be rebuilt:
/// for a text entity, where its text was added or its children changed; for
/// a span, where it was added or its parent or children changed; for any
/// other entity, where it just lost its span text.
pub open spec fn rebuild_asked(es: Seq<SpanEntity>, removed: Seq<usize>, ch: EntityChange) -> bool {
    let e = es[ch.entity as int];
    if e.text {
        ch.added || ch.children_changed
    } else if e.span {
        ch.added || ch.parent_changed || ch.children_changed
    } else {
        removed.contains(ch.entity)
    }
}

/// The text entity above `p`, walking up through parents, and the visited
/// marks after the walk: the walk stops, with no entity, at an entity
/// visited before or at one without a parent, and marks each entity it
/// reaches. Each step marks a new entity, so `fuel` equal to the number of
/// entities is never used up.
pub open spec fn find_root(es: Seq<SpanEntity>, it: Seq<bool>, p: usize, fuel: nat) -> (Seq<bool>, Option<usize>)
    decreases fuel,
{
    if fuel == 0 || it[p as int] {
        (it, None)
    } else {
        let it2 = it.update(p as int, true);
        if es[p as int].text {
            (it2, Some(p))
        } else {
            match es[p as int].parent {
                None => (it2, None),
                Some(q) => find_root(es, it2, q, (fuel - 1) as nat),
            }
        }
    }
}

/// The visited marks after one change, and the text entity whose structure
/// the change has rebuilt, if any: an entity visited before is passed over;
/// otherwise it is marked, and where its change asks for a rebuild, the text
/// entity is itself, for a text entity, or the one above its parent.
pub open spec fn step_root(es: Seq<SpanEntity>, removed: Seq<usize>, it: Seq<bool>, ch: EntityChange) -> (
    Seq<bool>,
    Option<usize>,
) {
    let e = ch.entity;
    if it[e as int] {
        (it, None)
    } else {
        let it1 = it.update(e as int, true);
        if !rebuild_asked(es, removed, ch) {
            (it1, None)
        } else if es[e as int].text {
            (it1, Some(e))
        } else {
            match es[e as int].parent {
                None => (it1, None),
                Some(p) => find_root(es, it1, p, es.len()),
            }
        }
    }
}

/// The state after one change: the visited marks, the structures, and the
/// marks of the structures that changed. A rebuilt structure is marked where
/// it differs from the one it replaces.
pub open spec fn pass_step(
    es: Seq<SpanEntity>,
    removed: Seq<usize>,
    st: (Seq<bool>, Seq<Seq<(usize, usize)>>, Seq<bool>),
    ch: EntityChange,
) -> (Seq<bool>, Seq<Seq<(usize, usize)>>, Seq<bool>) {
    let (it, ss, mk) = st;
    let (it2, root) = step_root(es, removed, it, ch);
    match root {
        None => (it2, ss, mk),
        Some(r) => {
            let new = structure_of(es, r);
            (it2, ss.update(r as int, new), if new != ss[r as int] {
                mk.update(r as int, true)
            } else {
                mk
            })
        },
    }
}

/// The state after a sequence of changes, from no visited entity and no
/// changed structure.
pub open spec fn pass_spec(
    es: Seq<SpanEntity>,
    removed: Seq<usize>,
    changes: Seq<EntityChange>,
    ss: Seq<Seq<(usize, usize)>>,
) -> (Seq<bool>, Seq<Seq<(usize, usize)>>, Seq<bool>)
    decreases changes.len(),
{
    if changes.len() == 0 {
        (Seq::new(es.len(), |i: int| false), ss, Seq::new(es.len(), |i: int| false))
    } else {
        pass_step(es, removed, pass_spec(es, removed, changes.drop_last(), ss), changes.last())
    }
}

/// The visited marks after a sequence of changes; they do not depend on the
/// structures.
pub open spec fn visited_after(es: Seq<SpanEntity>, removed: Seq<usize>, changes: Seq<EntityChange>) -> Seq<bool>
    decreases changes.len(),
{
    if changes.len() == 0 {
        Seq::new(es.len(), |i: int| false)
    } else {
        step_root(es, removed, visited_after(es, removed, changes.drop_last()), changes.last()).0
    }
}

/// The text entities whose structures a sequence of changes rebuilds.
pub open spec fn rebuilt(es: Seq<SpanEntity>, removed: Seq<usize>, changes: Seq<EntityChange>) -> Set<usize>
    decreases changes.len(),
{
    if changes.len() == 0 {
        Set::empty()
    } else {
        let before = rebuilt(es, removed, changes.drop_last());
        match step_root(es, removed, visited_after(es, removed, changes.drop_last()), changes.last()).1 {
            Some(r) => before.insert(r),
            None => before,
        }
    }
}

/// A walk up stays among the entities and keeps the number of marks.
proof fn lemma_find_root_range(es: Seq<SpanEntity>, it: Seq<bool>, p: usize, fuel: nat)
    requires
        world_wf(es),
        p < es.len(),
        it.len() == es.len(),
    ensures
        find_root(es, it, p, fuel).0.len() == es.len(),
        find_root(es, it, p, fuel).1 matches Some(r) ==> r < es.len(),
    decreases fuel,
{
    if fuel > 0 && !it[p as int] && !es[p as int].text {
        if let Some(q) = es[p as int].parent {
            assert(es[p as int].parent is Some);
            lemma_find_root_range(es, it.update(p as int, true), q, (fuel - 1) as nat);
        }
    }
}

/// One change keeps the number of marks and rebuilds an entity among the
/// entities, if any.
proof fn lemma_step_root_range(es: Seq<SpanEntity>, removed: Seq<usize>, it: Seq<bool>, ch: EntityChange)
    requires
        world_wf(es),
        ch.entity < es.len(),
        it.len() == es.len(),
    ensures
        step_root(es, removed, it, ch).0.len() == es.len(),
        step_root(es, removed, it, ch).1 matches Some(r) ==> r < es.len(),
{
    let e = ch.entity;
    if !it[e as int] && rebuild_asked(es, removed, ch) && !es[e as int].text {
        if let Some(p) = es[e as int].parent {
            assert(es[e as int].parent is Some);
            lemma_find_root_range(es, it.update(e as int, true), p, es.len());
        }
    }
}

/// The state after a sequence of changes: its visited marks are
/// [`visited_after`]; each rebuilt structure is the one of its text entity,
/// and every other structure is unchanged.
proof fn lemma_pass_shape(es: Seq<SpanEntity>, removed: Seq<usize>, changes: Seq<EntityChange>, ss: Seq<Seq<(usize, usize)>>)
    requires
        world_wf(es),
        forall|k: int| 0 <= k < changes.len() ==> (#[trigger] changes[k]).entity < es.len(),
        ss.len() == es.len(),
    ensures
        pass_spec(es, removed, changes, ss).0 == visited_after(es, removed, changes),
        visited_after(es, removed, changes).len() == es.len(),
        pass_spec(es, removed, changes, ss).1.len() == es.len(),
        pass_spec(es, removed, changes, ss).2.len() == es.len(),
        forall|r: usize| r < es.len() ==> (#[trigger] pass_spec(es, removed, changes, ss).1[r as int]) == if rebuilt(
            es,
            removed,
            changes,
        ).contains(r) {
            structure_of(es, r)
        } else {
            ss[r as int]
        },
    decreases changes.len(),
{
    if changes.len() > 0 {
        let d = changes.drop_last();
        lemma_pass_shape(es, removed, d, ss);
        lemma_step_root_range(es, removed, visited_after(es, removed, d), changes.last());
    }
}

/// A pass over changes, from structures where every structure the changes
/// rebuild is already the one of its text entity, changes no structure and
/// marks none.
proof fn lemma_pass_settled(es: Seq<SpanEntity>, removed: Seq<usize>, changes: Seq<EntityChange>, f: Seq<Seq<(usize, usize)>>)
    requires
        world_wf(es),
        forall|k: int| 0 <= k < changes.len() ==> (#[trigger] changes[k]).entity < es.len(),
        f.len() == es.len(),
        forall|r: usize| #[trigger] rebuilt(es, removed, changes).contains(r) ==> f[r as int] == structure_of(es, r),
    ensures
        pass_spec(es, removed, changes, f).1 == f,
        pass_spec(es, removed, changes, f).2 == Seq::new(es.len(), |i: int| false),
    decreases changes.len(),
{
    if changes.len() > 0 {
        let d = changes.drop_last();
        assert forall|r: usize| #[trigger] rebuilt(es, removed, d).contains(r) implies f[r as int] == structure_of(es, r) by {
            assert(rebuilt(es, removed, changes).contains(r));
        }
        lemma_pass_settled(es, removed, d, f);
        lemma_pass_shape(es, removed, d, f);
        lemma_step_root_range(es, removed, visited_after(es, removed, d), changes.last());
        let root = step_root(es, removed, visited_after(es, removed, d), changes.last()).1;
        if let Some(r) = root {
            assert(rebuilt(es, removed, changes).contains(r));
            assert(f.update(r as int, structure_of(es, r)) =~= f);
        }
    }
}

/// Passing a second time over the same changes, on the structures the first
/// pass left, marks no structure: a structure is marked only where
/// rebuilding it changes it.
pub proof fn law_pass_settles(es: Seq<SpanEntity>, removed: Seq<usize>, changes: Seq<EntityChange>, ss: Seq<Seq<(usize, usize)>>)
    requires
        world_wf(es),
        forall|k: int| 0 <= k < changes.len() ==> (#[trigger] changes[k]).entity < es.len(),
        ss.len() == es.len(),
    ensures
        ({
            let f = pass_spec(es, removed, changes, ss).1;
            &&& pass_spec(es, removed, changes, f).1 == f
            &&& pass_spec(es, removed, changes, f).2 == Seq::new(es.len(), |i: int| false)
        }),
{
    lemma_pass_shape(es, removed, changes, ss);
    let f = pass_spec(es, removed, changes, ss).1;
    assert forall|r: usize| #[trigger] rebuilt(es, removed, changes).contains(r) implies f[r as int] == structure_of(es, r) by {
        if r < es.len() {
        } else {
            assert(false) by {
                lemma_rebuilt_range(es, removed, changes, r);
            }
        }
    }
    lemma_pass_settled(es, removed, changes, f);
}

/// Rebuilt text entities are among the entities.
proof fn lemma_rebuilt_range(es: Seq<SpanEntity>, removed: Seq<usize>, changes: Seq<EntityChange>, r: usize)
    requires
        world_wf(es),
        forall|k: int| 0 <= k < changes.len() ==> (#[trigger] changes[k]).entity < es.len(),
        rebuilt(es, removed, changes).contains(r),
    ensures
        r < es.len(),
    decreases changes.len(),
{
    if changes.len() > 0 {
        let d = changes.drop_last();
        lemma_pass_shape(es, removed, d, Seq::new(es.len(), |i: int| Seq::<(usize, usize)>::empty()));
        lemma_step_root_range(es, removed, visited_after(es, removed, d), changes.last());
        if rebuilt(es, removed, d).contains(r) {
            lemma_rebuilt_range(es, removed, d, r);
        }
    }
}

/// The structures, as sequences.
pub open spec fn structures_view(v: Seq<Vec<(usize, usize)>>) -> Seq<Seq<(usize, usize)>> {
    v.map_values(|s: Vec<(usize, usize)>| s@)
}

/// The number of set marks.
pub open spec fn count_true(s: Seq<bool>) -> nat
    decreases s.len(),
{
    if s.len() == 0 {
        0
    } else {
        count_true(s.drop_last()) + if s.last() {
            1nat
        } else {
            0nat
        }
    }
}

/// Setting an unset mark adds one to the count, which never exceeds the
/// number of marks.
proof fn lemma_count_true(s: Seq<bool>, i: int)
    requires
        0 <= i < s.len(),
        !s[i],
    ensures
        count_true(s.update(i, true)) == count_true(s) + 1,
        count_true(s) < s.len(),
    decreases s.len(),
{
    let t = s.update(i, true);
    if i == s.len() - 1 {
        assert(t.drop_last() =~= s.drop_last());
        lemma_count_bound(s.drop_last());
    } else {
        assert(t.drop_last() =~= s.drop_last().update(i, true));
        lemma_count_true(s.drop_last(), i);
    }
}

/// The count never exceeds the number of marks.
proof fn lemma_count_bound(s: Seq<bool>)
    ensures
        count_true(s) <= s.len(),
    decreases s.len(),
{
    if s.len() > 0 {
        lemma_count_bound(s.drop_last());
    }
}

/// `n` copies of `false`.
fn all_false(n: usize) -> (r: Vec<bool>)
    ensures
        r@ == Seq::new(n as nat, |i: int| false),
{
    let mut r: Vec<bool> = Vec::new();
    while r.len() < n
        invariant
            r@.len() <= n,
            forall|j: int| 0 <= j < r@.len() ==> !r@[j],
        decreases n - r@.len(),
    {
        r.push(false);
    }
    proof {
        assert(r@ =~= Seq::new(n as nat, |i: int| false));
    }
    r
}

/// The set of listed indices.
fn index_set(v: &Vec<usize>) -> (r: FixedBitSet)
    requires
        forall|k: int| 0 <= k < v@.len() ==> #[trigger] v@[k] < usize::MAX,
    ensures
        forall|x: usize| #![trigger bit_set(r, x)] #![trigger v@.contains(x)] bit_set(r, x) <==> v@.contains(x),
{
    let mut b = bits_with_capacity(0);
    let mut k: usize = 0;
    while k < v.len()
        invariant
            k <= v@.len(),
            forall|j: int| 0 <= j < v@.len() ==> #[trigger] v@[j] < usize::MAX,
            forall|x: usize| #![trigger bit_set(b, x)] bit_set(b, x) <==> v@.take(k as int).contains(x),
        decreases v@.len() - k,
    {
        let ghost before = bit_marks(b);
        let ghost prev = b;
        bits_grow_and_insert(&mut b, v[k]);
        proof {
            assert forall|x: usize| #![trigger bit_set(b, x)] bit_set(b, x) <==> v@.take(k + 1).contains(x) by {
                let m1 = bit_marks(b);
                if x < m1.len() {
                    assert(m1[x as int] == (x == v@[k as int] || (x < before.len() && before[x as int])));
                }
                assert(bit_set(b, x) == (x == v@[k as int] || bit_set(prev, x)));
                assert(bit_set(prev, x) == v@.take(k as int).contains(x));
                assert(v@.take(k + 1) =~= v@.take(k as int).push(v@[k as int]));
                if v@.take(k + 1).contains(x) && x != v@[k as int] {
                    let t = choose|t: int| 0 <= t < v@.take(k + 1).len() && #[trigger] v@.take(k + 1)[t] == x;
                    assert(v@.take(k as int)[t] == x);
                }
                if v@.take(k as int).contains(x) {
                    let t = choose|t: int| 0 <= t < v@.take(k as int).len() && #[trigger] v@.take(k as int)[t] == x;
                    assert(v@.take(k + 1)[t] == x);
                }
                if x == v@[k as int] {
                    assert(v@.take(k + 1)[k as int] == x);
                }
            }
        }
        k = k + 1;
    }
    proof {
        assert(v@.take(v@.len() as int) =~= v@);
    }
    b
}

/// Whether two structures are the same.
fn same_structure(a: &Vec<(usize, usize)>, b: &Vec<(usize, usize)>) -> (r: bool)
    ensures
        r == (a@ == b@),
{
    if a.len() != b.len() {
        return false;
    }
    let mut i: usize = 0;
    while i < a.len()
        invariant
            a@.len() == b@.len(),
            i <= a@.len(),
            forall|j: int| 0 <= j < i ==> a@[j] == b@[j],
        decreases a@.len() - i,
    {
        let (x0, x1) = a[i];
        let (y0, y1) = b[i];
        if x0 != y0 || x1 != y1 {
            return false;
        }
        i = i + 1;
    }
    proof {
        assert(a@ =~= b@);
    }
    true
}

/// Walks up from `p` to the text entity above it, marking each entity
/// reached; see [`find_root`].
fn climb(es: &Vec<SpanEntity>, iterated: &mut FixedBitSet, p: usize) -> (r: Option<usize>)
    requires
        world_wf(es@),
        p < es@.len(),
        bit_marks(*old(iterated)).len() == es@.len(),
    ensures
        (bit_marks(*final(iterated)), r) == find_root(es@, bit_marks(*old(iterated)), p, es@.len() as nat),
        bit_marks(*final(iterated)).len() == es@.len(),
        r matches Some(root) ==> root < es@.len() && es@[root as int].text,
{
    let ghost n = es@.len();
    let ghost it0 = bit_marks(*iterated);
    let ghost p0 = p;
    let mut cur = p;
    let ghost mut fuel: nat = n as nat;
    proof {
        lemma_count_bound(bit_marks(*iterated));
    }
    loop
        invariant
            world_wf(es@),
            n == es@.len(),
            bit_marks(*iterated).len() == n,
            cur < n,
            it0 == bit_marks(*old(iterated)),
            p0 == p,
            fuel + count_true(bit_marks(*iterated)) >= n,
            count_true(bit_marks(*iterated)) <= n,
            find_root(es@, it0, p0, n as nat) == find_root(es@, bit_marks(*iterated), cur, fuel),
        decreases n - count_true(bit_marks(*iterated)),
    {
        let ghost marks = bit_marks(*iterated);
        if bits_put(iterated, cur) {
            proof {
                assert(bit_marks(*iterated) =~= marks);
            }
            return None;
        }
        proof {
            lemma_count_true(marks, cur as int);
        }
        if es[cur].text {
            return Some(cur);
        }
        match es[cur].parent {
            None => {
                return None;
            },
            Some(q) => {
                proof {
                    assert(es@[cur as int].parent is Some);
                    fuel = (fuel - 1) as nat;
                }
                cur = q;
            },
        }
    }
}

/// Whether a change asks for a rebuild; see [`rebuild_asked`].
fn asks_rebuild(es: &Vec<SpanEntity>, removed: &Vec<usize>, removed_set: &FixedBitSet, ch: &EntityChange) -> (r: bool)
    requires
        ch.entity < es@.len(),
        forall|x: usize| #![trigger bit_set(*removed_set, x)] #![trigger removed@.contains(x)] bit_set(*removed_set, x) <==> removed@.contains(x),
    ensures
        r == rebuild_asked(es@, removed@, *ch),
{
    let e = &es[ch.entity];
    if e.text {
        ch.added || ch.children_changed
    } else if e.span {
        ch.added || ch.parent_changed || ch.children_changed
    } else {
        bits_contains(removed_set, ch.entity)
    }
}

/// One pass over the changed entities, in order: each entity not visited yet
/// whose change asks for a rebuild has the structure of the text entity it
/// belongs to rebuilt. Returns, for each entity, whether its structure was
/// rebuilt into a different one.
pub fn compute_structures(
    es: &Vec<SpanEntity>,
    changes: &Vec<EntityChange>,
    removed: &Vec<usize>,
    structures: &mut Vec<Vec<(usize, usize)>>,
) -> (marked: Vec<bool>)
    requires
        world_wf(es@),
        forall|k: int| 0 <= k < changes@.len() ==> (#[trigger] changes@[k]).entity < es@.len(),
        old(structures)@.len() == es@.len(),
        forall|k: int| 0 <= k < removed@.len() ==> #[trigger] removed@[k] < usize::MAX,
    ensures
        ({
            let st = pass_spec(es@, removed@, changes@, structures_view(old(structures)@));
            structures_view(final(structures)@) == st.1 && marked@ == st.2
        }),
{
    let n = es.len();
    let ghost ss0 = structures_view(structures@);
    let removed_set = index_set(removed);
    let mut iterated = bits_with_capacity(n);
    let mut marked = all_false(n);
    let mut k: usize = 0;
    while k < changes.len()
        invariant
            world_wf(es@),
            n == es@.len(),
            forall|j: int| 0 <= j < changes@.len() ==> (#[trigger] changes@[j]).entity < es@.len(),
            k <= changes@.len(),
            bit_marks(iterated).len() == n,
            forall|x: usize| #![trigger bit_set(removed_set, x)] #![trigger removed@.contains(x)] bit_set(removed_set, x) <==> removed@.contains(x),
            marked@.len() == n,
            structures@.len() == n,
            (bit_marks(iterated), structures_view(structures@), marked@) == pass_spec(
                es@,
                removed@,
                changes@.subrange(0, k as int),
                ss0,
            ),
        decreases changes@.len() - k,
    {
        let ch = changes[k];
        let e = ch.entity;
        proof {
            assert(changes@.subrange(0, k + 1).drop_last() =~= changes@.subrange(0, k as int));
            assert(changes@.subrange(0, k + 1).last() == ch);
        }
        let ghost marks = bit_marks(iterated);
        let seen = bits_put(&mut iterated, e);
        if seen {
            proof {
                assert(bit_marks(iterated) =~= marks);
            }
        } else {
            if asks_rebuild(es, removed, &removed_set, &ch) {
                let root = if es[e].text {
                    Some(e)
                } else {
                    match es[e].parent {
                        None => None,
                        Some(p) => {
                            proof {
                                assert(es@[e as int].parent is Some);
                            }
                            climb(es, &mut iterated, p)
                        },
                    }
                };
                if let Some(r) = root {
                    let new = span_structure(es, r);
                    let differs = !same_structure(&structures[r], &new);
                    let ghost before = structures_view(structures@);
                    structures.set(r, new);
                    proof {
                        assert(structures_view(structures@) =~= before.update(r as int, structure_of(es@, r)));
                    }
                    if differs {
                        marked.set(r, true);
                    }
                }
            }
        }
        k = k + 1;
    }
    proof {
        assert(changes@.subrange(0, changes@.len() as int) =~= changes@);
    }
    marked
}

/// Whether an entry of a structure names an entity with text or span text
/// whose text, span text or font changed.
pub open spec fn touches(es: Seq<SpanEntity>, changed: Seq<bool>, x: (usize, usize)) -> bool {
    x.0 < es.len() && (es[x.0 as int].text || es[x.0 as int].span) && changed[x.0 as int]
}

/// Whether a structure names such an entity.
pub open spec fn structure_touched(es: Seq<SpanEntity>, changed: Seq<bool>, st: Seq<(usize, usize)>) -> bool {
    exists|k: int| 0 <= k < st.len() && touches(es, changed, #[trigger] st[k])
}

/// Whether one structure names an entity whose text, span text or font
/// changed.
fn touched(es: &Vec<SpanEntity>, changed: &Vec<bool>, st: &Vec<(usize, usize)>) -> (r: bool)
    requires
        changed@.len() == es@.len(),
    ensures
        r == structure_touched(es@, changed@, st@),
{
    let mut k: usize = 0;
    while k < st.len()
        invariant
            changed@.len() == es@.len(),
            k <= st@.len(),
            forall|j: int| 0 <= j < k ==> !touches(es@, changed@, #[trigger] st@[j]),
        decreases st@.len() - k,
    {
        let (x, _) = st[k];
        if x < es.len() && (es[x].text || es[x].span) && changed[x] {
            proof {
                assert(touches(es@, changed@, st@[k as int]));
            }
            return true;
        }
        k = k + 1;
    }
    false
}

/// Marks, for each text entity, whether its structure names an entity with
/// text or span text whose text, span text or font changed.
pub fn notify_structures(es: &Vec<SpanEntity>, structures: &Vec<Vec<(usize, usize)>>, changed: &Vec<bool>) -> (marked: Vec<
    bool,
>)
    requires
        structures@.len() == es@.len(),
        changed@.len() == es@.len(),
    ensures
        marked@.len() == es@.len(),
        forall|e: int|
            0 <= e < es@.len() ==> #[trigger] marked@[e] == (es@[e].text && structure_touched(
                es@,
                changed@,
                structures@[e]@,
            )),
{
    let mut marked: Vec<bool> = Vec::new();
    let mut e: usize = 0;
    while e < es.len()
        invariant
            structures@.len() == es@.len(),
            changed@.len() == es@.len(),
            e <= es@.len(),
            marked@.len() == e,
            forall|j: int|
                0 <= j < e ==> #[trigger] marked@[j] == (es@[j].text && structure_touched(
                    es@,
                    changed@,
                    structures@[j]@,
                )),
        decreases es@.len() - e,
    {
        let m = es[e].text && touched(es, changed, &structures[e]);
        marked.push(m);
        e = e + 1;
    }
    marked
}

} // verus!

verus! {

/// Each entity of `path` but the last is no text entity and has the next as
/// its parent, and the last is a text entity.
pub open spec fn leads_up(es: Seq<SpanEntity>, path: Seq<usize>) -> bool
    decreases path.len(),
{
    if path.len() == 0 {
        false
    } else if path.len() == 1 {
        path[0] < es.len() && es[path[0] as int].text
    } else {
        &&& path[0] < es.len()
        &&& !es[path[0] as int].text
        &&& es[path[0] as int].parent == Some(path[1])
        &&& leads_up(es, path.drop_first())
    }
}

/// `path` leads up from an entity's parent to a text entity, through
/// entities among the entities, none of them twice.
pub open spec fn path_to_text(es: Seq<SpanEntity>, path: Seq<usize>) -> bool {
    &&& path.no_duplicates()
    &&& forall|j: int| 0 <= j < path.len() ==> (#[trigger] path[j]) < es.len()
    &&& leads_up(es, path)
}

/// Walking up a path to a text entity, none of it visited, finds that entity.
proof fn lemma_find_root_path(es: Seq<SpanEntity>, it: Seq<bool>, path: Seq<usize>, fuel: nat)
    requires
        path_to_text(es, path),
        it.len() == es.len(),
        fuel >= path.len(),
        forall|j: int| 0 <= j < path.len() ==> !it[#[trigger] path[j] as int],
    ensures
        path.len() >= 1,
        find_root(es, it, path[0], fuel).1 == Some(path.last()),
    decreases path.len(),
{
    if path.len() > 1 {
        let rest = path.drop_first();
        let it2 = it.update(path[0] as int, true);
        assert forall|j: int| 0 <= j < rest.len() implies !it2[#[trigger] rest[j] as int] by {
            assert(rest[j] == path[j + 1]);
            assert(path[j + 1] != path[0]);
        }
        assert forall|j: int| 0 <= j < rest.len() implies (#[trigger] rest[j]) < es.len() by {
            assert(rest[j] == path[j + 1]);
        }
        assert(rest.no_duplicates()) by {
            assert forall|a: int, b: int| 0 <= a < rest.len() && 0 <= b < rest.len() && a != b implies rest[a]
                != rest[b] by {
                assert(rest[a] == path[a + 1]);
                assert(rest[b] == path[b + 1]);
            }
        }
        lemma_find_root_path(es, it2, rest, (fuel - 1) as nat);
        assert(rest.last() == path.last());
        assert(rest[0] == path[1]);
    } else {
        assert(path.len() == 1);
    }
}

/// Changes a prefix rebuilds are rebuilt by all of them.
proof fn lemma_rebuilt_prefix(es: Seq<SpanEntity>, removed: Seq<usize>, changes: Seq<EntityChange>, m: int)
    requires
        0 <= m <= changes.len(),
    ensures
        rebuilt(es, removed, changes.take(m)).subset_of(rebuilt(es, removed, changes)),
    decreases changes.len(),
{
    if m == changes.len() {
        assert(changes.take(m) =~= changes);
    } else {
        let d = changes.drop_last();
        assert(d.take(m) =~= changes.take(m));
        lemma_rebuilt_prefix(es, removed, d, m);
    }
}

/// The marks a pass sets: a structure is marked exactly where the pass
/// rebuilt it into one different from what it was before the pass.
proof fn lemma_pass_marks(es: Seq<SpanEntity>, removed: Seq<usize>, changes: Seq<EntityChange>, ss: Seq<Seq<(usize, usize)>>)
    requires
        world_wf(es),
        forall|k: int| 0 <= k < changes.len() ==> (#[trigger] changes[k]).entity < es.len(),
        ss.len() == es.len(),
    ensures
        forall|r: usize|
            r < es.len() ==> (#[trigger] pass_spec(es, removed, changes, ss).2[r as int]) == (rebuilt(
                es,
                removed,
                changes,
            ).contains(r) && structure_of(es, r) != ss[r as int]),
    decreases changes.len(),
{
    if changes.len() > 0 {
        let d = changes.drop_last();
        lemma_pass_marks(es, removed, d, ss);
        lemma_pass_shape(es, removed, d, ss);
        lemma_step_root_range(es, removed, visited_after(es, removed, d), changes.last());
        let p = pass_spec(es, removed, d, ss);
        assert forall|r: usize| r < es.len() implies (#[trigger] pass_spec(es, removed, changes, ss).2[r as int]) == (
        rebuilt(es, removed, changes).contains(r) && structure_of(es, r) != ss[r as int]) by {
            assert(p.1[r as int] == (if rebuilt(es, removed, d).contains(r) {
                structure_of(es, r)
            } else {
                ss[r as int]
            }));
            assert(p.2[r as int] == (rebuilt(es, removed, d).contains(r) && structure_of(es, r) != ss[r as int]));
        }
    }
}

/// A change that asks for a rebuild rebuilds the structure of its text
/// entity, whatever the other changes of the pass: where the entity and the
/// entities up to its text entity were not visited by the earlier changes,
/// a text entity whose text was added or whose children changed, a span
/// that was added or whose parent or children changed, or an entity that
/// just lost its span text, ends the pass with
/// the structure computed from the current hierarchy, marked exactly where
/// that differs from the structure before the pass. `path` holds, for a
/// span, the entities from its parent up to its text entity.
pub proof fn law_change_rebuilds(
    es: Seq<SpanEntity>,
    removed: Seq<usize>,
    changes: Seq<EntityChange>,
    ss: Seq<Seq<(usize, usize)>>,
    k: int,
    path: Seq<usize>,
)
    requires
        world_wf(es),
        forall|j: int| 0 <= j < changes.len() ==> (#[trigger] changes[j]).entity < es.len(),
        ss.len() == es.len(),
        0 <= k < changes.len(),
        !visited_after(es, removed, changes.take(k))[changes[k].entity as int],
        ({
            let ch = changes[k];
            let e = es[ch.entity as int];
            ||| e.text && (ch.added || ch.children_changed) && path == seq![ch.entity]
            ||| !e.text && (if e.span {
                ch.added || ch.parent_changed || ch.children_changed
            } else {
                removed.contains(ch.entity)
            }) && path_to_text(es, path) && path.len() >= 1 && e.parent == Some(path[0]) && !path.contains(ch.entity) && forall|j: int|
                0 <= j < path.len() ==> !visited_after(es, removed, changes.take(k))[#[trigger] path[j] as int]
        }),
    ensures
        pass_spec(es, removed, changes, ss).1[path.last() as int] == structure_of(es, path.last()),
        pass_spec(es, removed, changes, ss).2[path.last() as int] == (structure_of(es, path.last())
            != ss[path.last() as int]),
{
    let ch = changes[k];
    let pre = changes.take(k);
    let it = visited_after(es, removed, pre);
    assert forall|j: int| 0 <= j < pre.len() implies (#[trigger] pre[j]).entity < es.len() by {
        assert(pre[j] == changes[j]);
    }
    lemma_pass_shape(es, removed, pre, ss);
    let r = path.last();
    assert(changes.take(k + 1).drop_last() =~= pre);
    assert(changes.take(k + 1).last() == ch);
    assert(rebuild_asked(es, removed, ch));
    let it1 = it.update(ch.entity as int, true);
    if !es[ch.entity as int].text {
        assert forall|j: int| 0 <= j < path.len() implies !it1[#[trigger] path[j] as int] by {
            assert(path[j] != ch.entity);
        }
        let pi: Seq<int> = path.map_values(|x: usize| x as int);
        assert forall|j: int| 0 <= j < pi.len() implies 0 <= #[trigger] pi[j] < es.len() by {
            assert(pi[j] == path[j] as int);
        }
        assert(pi.no_duplicates()) by {
            assert forall|a: int, b: int| 0 <= a < pi.len() && 0 <= b < pi.len() && a != b implies pi[a] != pi[b] by {
                assert(pi[a] == path[a] as int);
                assert(pi[b] == path[b] as int);
            }
        }
        lemma_distinct_bound(pi, es.len() as int);
        lemma_find_root_path(es, it1, path, es.len());
    }
    assert(step_root(es, removed, it, ch).1 == Some(r));
    assert(rebuilt(es, removed, changes.take(k + 1)).contains(r));
    lemma_rebuilt_prefix(es, removed, changes, k + 1);
    lemma_rebuilt_range(es, removed, changes, r);
    lemma_pass_shape(es, removed, changes, ss);
    lemma_pass_marks(es, removed, changes, ss);
}

} // verus!

verus! {

/// Dropping the fonts at a depth or deeper keeps a prefix of the stack: for
/// the root, at depth 0, the whole stack; otherwise the stack without its
/// longest run of top entries at that depth or deeper, so every entry
/// dropped is at that depth or deeper and the top entry kept, if any, is
/// shallower.
pub proof fn law_drop_deeper<F>(stack: Seq<(F, usize)>, depth: usize)
    ensures
        drop_deeper(stack, depth).len() <= stack.len(),
        drop_deeper(stack, depth) == stack.take(drop_deeper(stack, depth).len() as int),
        depth == 0 ==> drop_deeper(stack, depth) == stack,
        forall|k: int|
            drop_deeper(stack, depth).len() <= k < stack.len() ==> (#[trigger] stack[k]).1 >= depth,
        depth > 0 && drop_deeper(stack, depth).len() > 0 ==> drop_deeper(stack, depth).last().1 < depth,
    decreases stack.len(),
{
    let r = drop_deeper(stack, depth);
    if depth > 0 && stack.len() > 0 && stack.last().1 >= depth {
        let d = stack.drop_last();
        law_drop_deeper(d, depth);
        assert(r == drop_deeper(d, depth));
        assert(d.take(r.len() as int) =~= stack.take(r.len() as int));
        assert forall|k: int| r.len() <= k < stack.len() implies (#[trigger] stack[k]).1 >= depth by {
            if k < d.len() {
                assert(stack[k] == d[k]);
            }
        }
    } else {
        assert(stack.take(stack.len() as int) =~= stack);
    }
}

/// Whether an entry of a structure names an entity with text or span text
/// whose text, span text or font changed, stated entry by entry: exactly
/// where some entry names an entity among the entities that is a text
/// entity or carries span text and is marked changed.
pub proof fn law_structure_touched(es: Seq<SpanEntity>, changed: Seq<bool>, st: Seq<(usize, usize)>)
    ensures
        structure_touched(es, changed, st) == exists|k: int|
            0 <= k < st.len() && st[k].0 < es.len() && (es[st[k].0 as int].text || es[st[k].0 as int].span)
                && changed[#[trigger] st[k].0 as int],
{
    if structure_touched(es, changed, st) {
        let k = choose|k: int| 0 <= k < st.len() && touches(es, changed, #[trigger] st[k]);
        assert(changed[st[k].0 as int]);
    }
    if exists|k: int|
        0 <= k < st.len() && st[k].0 < es.len() && (es[st[k].0 as int].text || es[st[k].0 as int].span)
            && changed[#[trigger] st[k].0 as int] {
        let k = choose|k: int|
            0 <= k < st.len() && st[k].0 < es.len() && (es[st[k].0 as int].text || es[st[k].0 as int].span)
                && changed[#[trigger] st[k].0 as int];
        assert(touches(es, changed, st[k]));
    }
}

} // verus!

verus! {

/// The spans under two lists of children one after the other are those under
/// the first list, then those under the second.
proof fn lemma_spans_concat(es: Seq<SpanEntity>, a: Seq<usize>, b: Seq<usize>, depth: usize, fuel: nat)
    ensures
        spans_under(es, a + b, depth, fuel) == spans_under(es, a, depth, fuel) + spans_under(es, b, depth, fuel),
    decreases b.len(),
{
    if b.len() == 0 {
        assert(a + b =~= a);
        assert(spans_under(es, b, depth, fuel) =~= Seq::<(usize, usize)>::empty());
        assert(spans_under(es, a, depth, fuel) + Seq::<(usize, usize)>::empty() =~= spans_under(es, a, depth, fuel));
    } else {
        let bd = b.drop_last();
        lemma_spans_concat(es, a, bd, depth, fuel);
        assert((a + b).drop_last() =~= a + bd);
        assert((a + b).last() == b.last());
        let c = b.last();
        if span_child(es, c) {
            let tail = if fuel > 0 {
                spans_under(es, es[c as int].children@, (depth + 1) as usize, (fuel - 1) as nat)
            } else {
                Seq::empty()
            };
            assert(spans_under(es, a, depth, fuel) + spans_under(es, bd, depth, fuel).push((c, depth)) + tail
                =~= spans_under(es, a, depth, fuel) + (spans_under(es, bd, depth, fuel).push((c, depth)) + tail));
            assert((spans_under(es, a, depth, fuel) + spans_under(es, bd, depth, fuel)).push((c, depth))
                =~= spans_under(es, a, depth, fuel) + spans_under(es, bd, depth, fuel).push((c, depth)));
        }
    }
}

/// The structure of a text entity, walked child by child: the text entity
/// comes first at depth 0, then the spans under its children from depth 1.
/// The spans under a list of children are, child after child in the list's
/// order, each child that is a span with a parent followed by the spans under
/// its own children one level deeper, and nothing for any other child.
pub proof fn law_structure_walk(es: Seq<SpanEntity>, root: usize, c: usize, rest: Seq<usize>, depth: usize, fuel: nat)
    ensures
        structure_of(es, root)[0] == (root, 0usize),
        structure_of(es, root).drop_first() == spans_under(es, es[root as int].children@, 1, es.len()),
        spans_under(es, Seq::empty(), depth, fuel) == Seq::<(usize, usize)>::empty(),
        spans_under(es, seq![c] + rest, depth, fuel) == (if c < es.len() && !es[c as int].text && es[c as int].span
            && es[c as int].parent is Some {
            seq![(c, depth)] + if fuel > 0 {
                spans_under(es, es[c as int].children@, (depth + 1) as usize, (fuel - 1) as nat)
            } else {
                Seq::empty()
            }
        } else {
            Seq::empty()
        }) + spans_under(es, rest, depth, fuel),
{
    assert(structure_of(es, root).drop_first() =~= spans_under(es, es[root as int].children@, 1, es.len()));
    lemma_spans_concat(es, seq![c], rest, depth, fuel);
    let one = seq![c];
    assert(one.drop_last() =~= Seq::<usize>::empty());
    assert(one.last() == c);
    assert(spans_under(es, one.drop_last(), depth, fuel) =~= Seq::<(usize, usize)>::empty());
    if span_child(es, c) {
        assert(Seq::<(usize, usize)>::empty().push((c, depth)) =~= seq![(c, depth)]);
    }
}

} // verus!
