//! Batching of sorted draw requests.
//!
//! The items of a view's render phase are walked in order; each one that
//! names a draw request appends the request's indices to the view's index
//! list. Consecutive requests with the same pipeline key share one batch: one
//! range of the view's index list, drawn by one call.

use vstd::prelude::*;

verus! {

/// What an item of a view's render phase stands for.
#[derive(Clone, Copy, Debug, PartialEq, Eq, Structural)]
pub enum PhaseEntry {
    /// The item's entity holds no draw requests; the current batch ends.
    NoDrawer,
    /// The item names no stored request; it is skipped.
    NoRequest,
    /// A draw request: its range of the shared index list and its pipeline
    /// key.
    Request {
        /// First index of the range.
        start: usize,
        /// Index after the last of the range.
        end: usize,
        /// The pipeline key; equal keys may share a batch.
        key: u64,
    },
}

/// A batch: consecutive requests of one key, drawn from one range of the
/// view's index list.
#[derive(Clone, Copy, Debug, PartialEq, Eq, Structural)]
pub struct Batch {
    /// Index of the phase item that heads the batch.
    pub item: usize,
    /// The pipeline key of every request in the batch.
    pub key: u64,
    /// First index of the batch's range in the view's index list.
    pub start: u32,
    /// Index after the last of the batch's range.
    pub end: u32,
    /// How many requests the batch holds.
    pub items: usize,
}

/// The indices and batches of a view.
#[derive(Debug)]
pub struct BatchPlan {
    /// The view's index list.
    pub indices: Vec<u32>,
    /// The batches, in phase order.
    pub batches: Vec<Batch>,
}

/// The state after walking some phase items: the index list so far, the
/// batches so far, and the key of the batch that a request may still join.
pub struct PlanState {
    /// The index list so far.
    pub indices: Seq<u32>,
    /// The batches so far.
    pub batches: Seq<Batch>,
    /// The key of the open batch, if any.
    pub open: Option<u64>,
}

/// One step of the walk: item number `item` is `e`.
pub open spec fn plan_step(s: PlanState, e: PhaseEntry, item: int, source: Seq<u32>) -> PlanState {
    match e {
        PhaseEntry::NoDrawer => PlanState { indices: s.indices, batches: s.batches, open: None },
        PhaseEntry::NoRequest => s,
        PhaseEntry::Request { start, end, key } => {
            let indices = s.indices + source.subrange(start as int, end as int);
            let batches = if s.open == Some(key) {
                let last = s.batches.last();
                s.batches.update(
                    s.batches.len() - 1,
                    Batch { end: indices.len() as u32, items: (last.items + 1) as usize, ..last },
                )
            } else {
                s.batches.push(
                    Batch {
                        item: item as usize,
                        key,
                        start: s.indices.len() as u32,
                        end: indices.len() as u32,
                        items: 1,
                    },
                )
            };
            PlanState { indices, batches, open: Some(key) }
        },
    }
}

/// The state after walking `entries`.
pub open spec fn plan_walk(entries: Seq<PhaseEntry>, source: Seq<u32>) -> PlanState
    decreases entries.len(),
{
    if entries.len() == 0 {
        PlanState { indices: Seq::empty(), batches: Seq::empty(), open: None }
    } else {
        plan_step(
            plan_walk(entries.drop_last(), source),
            entries.last(),
            entries.len() - 1,
            source,
        )
    }
}

/// The indices that the requests among `entries` name, in order.
pub open spec fn requested_indices(entries: Seq<PhaseEntry>, source: Seq<u32>) -> Seq<u32>
    decreases entries.len(),
{
    if entries.len() == 0 {
        Seq::empty()
    } else {
        let rest = requested_indices(entries.drop_last(), source);
        match entries.last() {
            PhaseEntry::Request { start, end, .. } => rest + source.subrange(start as int, end as int),
            _ => rest,
        }
    }
}

/// Every request names a range of `source`.
pub open spec fn requests_in(entries: Seq<PhaseEntry>, source: Seq<u32>) -> bool {
    forall|i: int|
        0 <= i < entries.len() ==> match #[trigger] entries[i] {
            PhaseEntry::Request { start, end, .. } => start <= end <= source.len(),
            _ => true,
        }
}

} // verus!

verus! {

/// Walking a prefix of the items and then the next one is walking the longer
/// prefix.
proof fn lemma_walk_prefix(entries: Seq<PhaseEntry>, source: Seq<u32>, i: int)
    requires
        0 <= i < entries.len(),
    ensures
        plan_walk(entries.subrange(0, i + 1), source) == plan_step(
            plan_walk(entries.subrange(0, i), source),
            entries[i],
            i,
            source,
        ),
        requested_indices(entries.subrange(0, i + 1), source) == (match entries[i] {
            PhaseEntry::Request { start, end, .. } => requested_indices(entries.subrange(0, i), source)
                + source.subrange(start as int, end as int),
            _ => requested_indices(entries.subrange(0, i), source),
        }),
{
    assert(entries.subrange(0, i + 1).drop_last() =~= entries.subrange(0, i));
}

/// The walk's index list is the requested indices, in order; its batches tile
/// the list from its start to its end; and the open batch, if any, is the last
/// one.
pub proof fn lemma_plan_walk(entries: Seq<PhaseEntry>, source: Seq<u32>)
    requires
        requested_indices(entries, source).len() <= u32::MAX,
    ensures
        plan_walk(entries, source).indices == requested_indices(entries, source),
        plan_tiles(plan_walk(entries, source)),
    decreases entries.len(),
{
    if entries.len() > 0 {
        let rest = entries.drop_last();
        lemma_requested_prefix_len(entries);
        lemma_plan_walk(rest, source);
        let s = plan_walk(rest, source);
        let t = plan_walk(entries, source);
        match entries.last() {
            PhaseEntry::Request { start, end, key } => {
                if s.open == Some(key) {
                    assert forall|k: int| 0 <= k < t.batches.len() - 1 implies #[trigger] t.batches[k].end
                        == t.batches[k + 1].start && t.batches[k].start <= t.batches[k].end by {
                        assert(t.batches[k] == s.batches[k]);
                        if k + 1 < t.batches.len() - 1 {
                            assert(t.batches[k + 1] == s.batches[k + 1]);
                        }
                    }
                } else {
                    assert forall|k: int| 0 <= k < t.batches.len() - 1 implies #[trigger] t.batches[k].end
                        == t.batches[k + 1].start && t.batches[k].start <= t.batches[k].end by {
                        assert(t.batches[k] == s.batches[k]);
                        if k + 1 < t.batches.len() - 1 {
                            assert(t.batches[k + 1] == s.batches[k + 1]);
                        }
                    }
                }
            },
            _ => {},
        }
    } else {
        assert(plan_walk(entries, source).indices =~= requested_indices(entries, source));
    }
}

/// The requested indices of a prefix are no more than those of the whole.
proof fn lemma_requested_prefix_len(entries: Seq<PhaseEntry>)
    requires
        entries.len() > 0,
    ensures
        forall|source: Seq<u32>|
            requested_indices(entries.drop_last(), source).len() <= #[trigger] requested_indices(
                entries,
                source,
            ).len(),
{
}

/// Batches tile the index list: the first starts at 0, each one ends where the
/// next starts, the last ends at the list's end; an empty list has none; and
/// an open batch is the last one, of the open key.
pub open spec fn plan_tiles(s: PlanState) -> bool {
    &&& s.batches.len() == 0 ==> s.indices.len() == 0 && s.open is None
    &&& s.batches.len() > 0 ==> {
        &&& s.batches[0].start == 0
        &&& s.batches.last().end == s.indices.len()
        &&& s.batches.last().start <= s.batches.last().end
        &&& forall|k: int|
            0 <= k < s.batches.len() - 1 ==> #[trigger] s.batches[k].end == s.batches[k + 1].start
                && s.batches[k].start <= s.batches[k].end
    }
    &&& s.open matches Some(key) ==> s.batches.len() > 0 && s.batches.last().key == key
}

} // verus!

verus! {

/// Walks the sorted items of a view's render phase: appends the indices of
/// each request to the view's index list and merges consecutive requests of
/// one key into batches. An item without draw requests ends the current
/// batch; an item that names no request is skipped.
pub fn plan_batches(entries: &Vec<PhaseEntry>, source: &Vec<u32>) -> (r: BatchPlan)
    requires
        requests_in(entries@, source@),
        requested_indices(entries@, source@).len() <= u32::MAX,
    ensures
        r.indices@ == plan_walk(entries@, source@).indices,
        r.batches@ == plan_walk(entries@, source@).batches,
{
    let mut indices: Vec<u32> = Vec::new();
    let mut batches: Vec<Batch> = Vec::new();
    let mut open: Option<u64> = None;
    let mut i: usize = 0;
    proof {
        assert(entries@.subrange(0, 0) =~= Seq::<PhaseEntry>::empty());
    }
    while i < entries.len()
        invariant
            i <= entries@.len(),
            requests_in(entries@, source@),
            requested_indices(entries@, source@).len() <= u32::MAX,
            indices@ == plan_walk(entries@.subrange(0, i as int), source@).indices,
            batches@ == plan_walk(entries@.subrange(0, i as int), source@).batches,
            open == plan_walk(entries@.subrange(0, i as int), source@).open,
            plan_tiles(plan_walk(entries@.subrange(0, i as int), source@)),
            indices@ == requested_indices(entries@.subrange(0, i as int), source@),
            forall|k: int| 0 <= k < batches@.len() ==> (#[trigger] batches@[k]).items <= i,
            requested_indices(entries@.subrange(0, i as int), source@).len() <= requested_indices(
                entries@,
                source@,
            ).len(),
        decreases entries@.len() - i,
    {
        proof {
            lemma_walk_prefix(entries@, source@, i as int);
            lemma_requested_grows(entries@, source@, i + 1);
            lemma_plan_walk(entries@.subrange(0, i + 1), source@);
        }
        match entries[i] {
            PhaseEntry::NoDrawer => {
                open = None;
            },
            PhaseEntry::NoRequest => {},
            PhaseEntry::Request { start, end, key } => {
                let before = indices.len();
                let ghost before_indices = indices@;
                let mut j = start;
                while j < end
                    invariant
                        start <= j <= end <= source@.len(),
                        indices@ == before_indices + source@.subrange(start as int, j as int),
                    decreases end - j,
                {
                    indices.push(source[j]);
                    proof {
                        assert(source@.subrange(start as int, j + 1) =~= source@.subrange(
                            start as int,
                            j as int,
                        ).push(source@[j as int]));
                    }
                    j = j + 1;
                }
                let len = indices.len() as u32;
                if open == Some(key) {
                    let ghost batches_before = batches@;
                    let last = batches.pop().unwrap();
                    proof {
                        assert(last == batches_before[batches_before.len() - 1]);
                    }
                    batches.push(Batch { end: len, items: last.items + 1, ..last });
                } else {
                    batches.push(Batch { item: i, key, start: before as u32, end: len, items: 1 });
                }
                open = Some(key);
            },
        }
        i = i + 1;
    }
    proof {
        assert(entries@.subrange(0, entries@.len() as int) =~= entries@);
    }
    BatchPlan { indices, batches }
}

/// The requested indices of a longer prefix are no fewer.
proof fn lemma_requested_grows(entries: Seq<PhaseEntry>, source: Seq<u32>, i: int)
    requires
        0 <= i <= entries.len(),
    ensures
        requested_indices(entries.subrange(0, i), source).len() <= requested_indices(entries, source).len(),
    decreases entries.len() - i,
{
    if i < entries.len() {
        lemma_walk_prefix(entries, source, i);
        lemma_requested_grows(entries, source, i + 1);
    } else {
        assert(entries.subrange(0, i) =~= entries);
    }
}

} // verus!

verus! {

/// The key of the batch that item `i` may join: that of the nearest request
/// before it, unless an item without draw requests lies between; skipped
/// items do not count.
pub open spec fn key_before(entries: Seq<PhaseEntry>, i: int) -> Option<u64>
    decreases i,
{
    if i <= 0 {
        None
    } else {
        match entries[i - 1] {
            PhaseEntry::NoDrawer => None,
            PhaseEntry::NoRequest => key_before(entries, i - 1),
            PhaseEntry::Request { key, .. } => Some(key),
        }
    }
}

/// Item `i` is a request that starts a batch: its key differs from that of
/// the batch it might join.
pub open spec fn heads_batch(entries: Seq<PhaseEntry>, i: int) -> bool {
    match entries[i] {
        PhaseEntry::Request { key, .. } => key_before(entries, i) != Some(key),
        _ => false,
    }
}

/// The items among the first `n` that start a batch, in order.
pub open spec fn batch_heads(entries: Seq<PhaseEntry>, n: int) -> Seq<usize>
    decreases n,
{
    if n <= 0 {
        Seq::empty()
    } else if heads_batch(entries, n - 1) {
        batch_heads(entries, n - 1).push((n - 1) as usize)
    } else {
        batch_heads(entries, n - 1)
    }
}

/// The key of a request.
pub open spec fn request_key(e: PhaseEntry) -> u64 {
    match e {
        PhaseEntry::Request { key, .. } => key,
        _ => 0,
    }
}

/// Walking the first `n` items: the open key is the key before item `n`, and
/// the batches are headed by the items that start one, each of its head's
/// key.
proof fn lemma_heads_prefix(entries: Seq<PhaseEntry>, source: Seq<u32>, n: int)
    requires
        0 <= n <= entries.len(),
        n <= usize::MAX,
    ensures
        plan_walk(entries.subrange(0, n), source).open == key_before(entries, n),
        plan_walk(entries.subrange(0, n), source).open is Some ==> plan_walk(
            entries.subrange(0, n),
            source,
        ).batches.len() > 0,
        plan_walk(entries.subrange(0, n), source).batches.len() == batch_heads(entries, n).len(),
        forall|b: int|
            0 <= b < batch_heads(entries, n).len() ==> {
                &&& (#[trigger] plan_walk(entries.subrange(0, n), source).batches[b]).item == batch_heads(
                    entries,
                    n,
                )[b]
                &&& batch_heads(entries, n)[b] < n
                &&& plan_walk(entries.subrange(0, n), source).batches[b].key == request_key(
                    entries[batch_heads(entries, n)[b] as int],
                )
            },
    decreases n,
{
    if n == 0 {
        assert(entries.subrange(0, 0) =~= Seq::<PhaseEntry>::empty());
    } else {
        let i = n - 1;
        lemma_heads_prefix(entries, source, i);
        lemma_walk_prefix(entries, source, i);
        let s = plan_walk(entries.subrange(0, i), source);
        let t = plan_walk(entries.subrange(0, n), source);
        let h = batch_heads(entries, i);
        let g = batch_heads(entries, n);
        match entries[i] {
            PhaseEntry::Request { start, end, key } => {
                assert(t.open == Some(key));
                if s.open == Some(key) {
                    assert(g == h);
                    assert(t.batches.len() == s.batches.len());
                    assert forall|b: int| 0 <= b < g.len() implies {
                        &&& (#[trigger] t.batches[b]).item == g[b]
                        &&& g[b] < n
                        &&& t.batches[b].key == request_key(entries[g[b] as int])
                    } by {
                        assert(s.batches[b].item == h[b]);
                    }
                } else {
                    assert(g == h.push(i as usize));
                    assert(t.batches.len() == s.batches.len() + 1);
                    assert forall|b: int| 0 <= b < g.len() implies {
                        &&& (#[trigger] t.batches[b]).item == g[b]
                        &&& g[b] < n
                        &&& t.batches[b].key == request_key(entries[g[b] as int])
                    } by {
                        if b < h.len() {
                            assert(t.batches[b] == s.batches[b]);
                            assert(s.batches[b].item == h[b]);
                        }
                    }
                }
            },
            _ => {
                assert(g == h);
                assert(t.batches == s.batches);
                assert forall|b: int| 0 <= b < g.len() implies {
                    &&& (#[trigger] t.batches[b]).item == g[b]
                    &&& g[b] < n
                    &&& t.batches[b].key == request_key(entries[g[b] as int])
                } by {
                    assert(s.batches[b].item == h[b]);
                }
            },
        }
    }
}

/// One batch per run of requests of one key: the batches of a view are
/// headed, in order, by exactly the requests whose key differs from that of
/// the nearest request before them (or that follow an item without draw
/// requests, or come first), and each batch has its head's key.
pub proof fn law_batch_heads(entries: Seq<PhaseEntry>, source: Seq<u32>)
    requires
        entries.len() <= usize::MAX,
    ensures
        ({
            let s = plan_walk(entries, source);
            let h = batch_heads(entries, entries.len() as int);
            &&& s.batches.len() == h.len()
            &&& forall|b: int|
                0 <= b < h.len() ==> {
                    &&& (#[trigger] s.batches[b]).item == h[b]
                    &&& heads_batch(entries, h[b] as int)
                    &&& s.batches[b].key == request_key(entries[h[b] as int])
                }
            &&& forall|i: int| 0 <= i < entries.len() && #[trigger] heads_batch(entries, i) ==> h.contains(i as usize)
        }),
{
    lemma_heads_prefix(entries, source, entries.len() as int);
    assert(entries.subrange(0, entries.len() as int) =~= entries);
    lemma_heads_members(entries, entries.len() as int);
}

/// The heads among the first `n` items are exactly the items below `n` that
/// start a batch.
proof fn lemma_heads_members(entries: Seq<PhaseEntry>, n: int)
    requires
        0 <= n <= entries.len(),
        n <= usize::MAX,
    ensures
        forall|b: int|
            0 <= b < batch_heads(entries, n).len() ==> heads_batch(
                entries,
                #[trigger] batch_heads(entries, n)[b] as int,
            ) && batch_heads(entries, n)[b] < n,
        forall|i: int| 0 <= i < n && #[trigger] heads_batch(entries, i) ==> batch_heads(entries, n).contains(
            i as usize,
        ),
    decreases n,
{
    if n > 0 {
        lemma_heads_members(entries, n - 1);
        let h = batch_heads(entries, n - 1);
        let g = batch_heads(entries, n);
        assert forall|i: int| 0 <= i < n && #[trigger] heads_batch(entries, i) implies g.contains(i as usize) by {
            if i < n - 1 {
                let k = choose|k: int| 0 <= k < h.len() && h[k] == i as usize;
                assert(g[k] == h[k]);
            } else {
                assert(g.last() == i as usize);
            }
        }
        assert forall|b: int| 0 <= b < g.len() implies heads_batch(entries, #[trigger] g[b] as int) && g[b] < n by {
            if b < h.len() {
                assert(g[b] == h[b]);
            }
        }
    }
}

} // verus!
