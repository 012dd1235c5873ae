//! The depth of each GUI node in its tree.
//!
//! Each GUI root's tree is walked depth first, children in order; a child
//! that is not a GUI node ends the walk there. Roots have depth zero, every
//! other node one more than its parent, and each node of a tree also learns
//! the tree's total depth: the depth of its deepest node.

use vstd::prelude::*;

verus! {

/// The depth of a GUI node in its tree.
#[derive(Clone, Copy, Debug, Default, PartialEq, Eq, Structural)]
pub struct GuiDepth {
    /// The depth of the node; root nodes are always `0`.
    pub depth: usize,
    /// The depth of the deepest node of the tree.
    pub total_depth: usize,
}

/// Whether `node` is a GUI node.
pub open spec fn is_gui_node(is_gui: Seq<bool>, node: int) -> bool {
    0 <= node < is_gui.len() && is_gui[node]
}

/// Every path of GUI nodes from `node` down the child lists has at most
/// `fuel` nodes: none of them leads back to a node on the path.
pub open spec fn paths_within(children: Seq<Seq<usize>>, is_gui: Seq<bool>, node: int, fuel: nat) -> bool
    decreases fuel,
{
    is_gui_node(is_gui, node) ==> fuel > 0 && node < children.len() && forall|i: int|
        0 <= i < children[node].len() ==> paths_within(
            children,
            is_gui,
            #[trigger] children[node][i] as int,
            (fuel - 1) as nat,
        )
}

/// The walk from `node` at `depth`: the nodes met, with their depths, in
/// the order met, and the largest depth met, or `depth - 1` where `node` is
/// not a GUI node.
pub open spec fn walk_node(children: Seq<Seq<usize>>, is_gui: Seq<bool>, node: int, depth: int, fuel: nat) -> (
    Seq<(usize, int)>,
    int,
)
    decreases fuel, 0nat,
{
    if !is_gui_node(is_gui, node) || node >= children.len() || fuel == 0 {
        (Seq::empty(), depth - 1)
    } else {
        let r = walk_list(children, is_gui, children[node], depth + 1, (fuel - 1) as nat);
        (seq![(node as usize, depth)] + r.0, if r.1 > depth {
            r.1
        } else {
            depth
        })
    }
}

/// The walks from the nodes of `list`, one after another, all at `depth`:
/// the nodes met and the largest depth met, or `depth - 1` where none is.
pub open spec fn walk_list(children: Seq<Seq<usize>>, is_gui: Seq<bool>, list: Seq<usize>, depth: int, fuel: nat) -> (
    Seq<(usize, int)>,
    int,
)
    decreases fuel, list.len(),
{
    if list.len() == 0 {
        (Seq::empty(), depth - 1)
    } else {
        let a = walk_list(children, is_gui, list.drop_last(), depth, fuel);
        let b = walk_node(children, is_gui, list.last() as int, depth, fuel);
        (a.0 + b.0, if b.1 > a.1 {
            b.1
        } else {
            a.1
        })
    }
}

/// The depths a root's tree gives its nodes.
pub open spec fn tree_depths(walk: (Seq<(usize, int)>, int)) -> Seq<(usize, GuiDepth)> {
    walk.0.map_values(
        |e: (usize, int)| (e.0, GuiDepth { depth: e.1 as usize, total_depth: walk.1 as usize }),
    )
}

/// The depths of the nodes of the trees of `roots`, tree after tree.
pub open spec fn forest_depths(children: Seq<Seq<usize>>, is_gui: Seq<bool>, roots: Seq<usize>) -> Seq<
    (usize, GuiDepth),
>
    decreases roots.len(),
{
    if roots.len() == 0 {
        Seq::empty()
    } else {
        forest_depths(children, is_gui, roots.drop_last()) + tree_depths(
            walk_node(children, is_gui, roots.last() as int, 0, is_gui.len()),
        )
    }
}

/// Walks from `node` at `depth`, appending what it meets to `out`; returns
/// the largest depth met.
fn propagate(
    children: &Vec<Vec<usize>>,
    is_gui: &Vec<bool>,
    node: usize,
    depth: usize,
    out: &mut Vec<(usize, usize)>,
    Ghost(fuel): Ghost<nat>,
) -> (r: usize)
    requires
        children@.len() == is_gui@.len(),
        depth + fuel <= is_gui@.len(),
        depth >= 1 || is_gui_node(is_gui@, node as int),
        paths_within(children@.map_values(|v: Vec<usize>| v@), is_gui@, node as int, fuel),
    ensures
        ({
            let w = walk_node(children@.map_values(|v: Vec<usize>| v@), is_gui@, node as int, depth as int, fuel);
            &&& r == w.1
            &&& final(out)@ == old(out)@ + w.0.map_values(|e: (usize, int)| (e.0, e.1 as usize))
        }),
    decreases fuel, 0nat,
{
    let ghost c = children@.map_values(|v: Vec<usize>| v@);
    if node >= is_gui.len() || !is_gui[node] {
        proof {
            assert(out@ =~= old(out)@ + Seq::<(usize, int)>::empty().map_values(
                |e: (usize, int)| (e.0, e.1 as usize),
            ));
        }
        return depth - 1;
    }
    out.push((node, depth));
    proof {
        assert(is_gui@.len() == is_gui.len());
    }
    let kids = &children[node];
    let ghost list = c[node as int];
    proof {
        assert(kids@ == list);
    }
    let mut max_depth = depth;
    let mut i: usize = 0;
    while i < kids.len()
        invariant
            children@.len() == is_gui@.len(),
            c == children@.map_values(|v: Vec<usize>| v@),
            is_gui_node(is_gui@, node as int),
            node < children@.len(),
            kids@ == list,
            list == c[node as int],
            depth + fuel <= is_gui@.len(),
            is_gui@.len() <= usize::MAX,
            fuel > 0,
            paths_within(c, is_gui@, node as int, fuel),
            i <= kids@.len(),
            ({
                let w = walk_list(c, is_gui@, list.take(i as int), depth + 1, (fuel - 1) as nat);
                &&& max_depth == (if w.1 > depth {
                    w.1
                } else {
                    depth as int
                })
                &&& out@ == old(out)@ + seq![(node, depth)] + w.0.map_values(
                    |e: (usize, int)| (e.0, e.1 as usize),
                )
            }),
        decreases kids@.len() - i,
    {
        let ghost before = out@;
        let ghost w0 = walk_list(c, is_gui@, list.take(i as int), depth + 1, (fuel - 1) as nat);
        proof {
            assert(paths_within(c, is_gui@, list[i as int] as int, (fuel - 1) as nat));
        }
        let d = propagate(children, is_gui, kids[i], depth + 1, out, Ghost((fuel - 1) as nat));
        if d > max_depth {
            max_depth = d;
        }
        proof {
            let t = list.take(i + 1);
            assert(t.drop_last() =~= list.take(i as int));
            assert(t.last() == list[i as int]);
            let wn = walk_node(c, is_gui@, list[i as int] as int, depth + 1, (fuel - 1) as nat);
            let f = |e: (usize, int)| (e.0, e.1 as usize);
            assert((w0.0 + wn.0).map_values(f) =~= w0.0.map_values(f) + wn.0.map_values(f));
            assert(out@ =~= old(out)@ + seq![(node, depth)] + (w0.0 + wn.0).map_values(f));
        }
        i = i + 1;
    }
    proof {
        assert(list.take(kids@.len() as int) =~= list);
        let w = walk_list(c, is_gui@, list, depth + 1, (fuel - 1) as nat);
        let f = |e: (usize, int)| (e.0, e.1 as usize);
        assert((seq![(node, depth as int)] + w.0).map_values(f) =~= seq![(node, depth)] + w.0.map_values(f));
        assert(out@ =~= old(out)@ + (seq![(node, depth as int)] + w.0).map_values(f));
    }
    max_depth
}

/// The depth of every GUI node of the trees of `roots`, with its tree's
/// total depth, tree after tree and, within a tree, in the order a depth
/// first walk meets the nodes. `children` lists each node's children and
/// `is_gui` tells the GUI nodes; every root is one, and no path of GUI nodes
/// down from a root comes back to a node on it.
pub fn gui_depths(roots: &Vec<usize>, children: &Vec<Vec<usize>>, is_gui: &Vec<bool>) -> (r: Vec<(usize, GuiDepth)>)
    requires
        children@.len() == is_gui@.len(),
        forall|i: int| 0 <= i < roots@.len() ==> is_gui_node(is_gui@, #[trigger] roots@[i] as int),
        forall|i: int|
            0 <= i < roots@.len() ==> paths_within(
                children@.map_values(|v: Vec<usize>| v@),
                is_gui@,
                #[trigger] roots@[i] as int,
                is_gui@.len(),
            ),
    ensures
        r@ == forest_depths(children@.map_values(|v: Vec<usize>| v@), is_gui@, roots@),
{
    let ghost c = children@.map_values(|v: Vec<usize>| v@);
    let mut result: Vec<(usize, GuiDepth)> = Vec::new();
    let mut k: usize = 0;
    while k < roots.len()
        invariant
            children@.len() == is_gui@.len(),
            c == children@.map_values(|v: Vec<usize>| v@),
            k <= roots@.len(),
            forall|i: int| 0 <= i < roots@.len() ==> is_gui_node(is_gui@, #[trigger] roots@[i] as int),
            forall|i: int|
                0 <= i < roots@.len() ==> paths_within(c, is_gui@, #[trigger] roots@[i] as int, is_gui@.len()),
            result@ == forest_depths(c, is_gui@, roots@.take(k as int)),
        decreases roots@.len() - k,
    {
        let root = roots[k];
        proof {
            assert(is_gui_node(is_gui@, roots@[k as int] as int));
            assert(paths_within(c, is_gui@, roots@[k as int] as int, is_gui@.len()));
        }
        let mut list: Vec<(usize, usize)> = Vec::new();
        let total = propagate(children, is_gui, root, 0, &mut list, Ghost(is_gui@.len()));
        let ghost w = walk_node(c, is_gui@, root as int, 0, is_gui@.len());
        let ghost before = result@;
        let mut j: usize = 0;
        while j < list.len()
            invariant
                j <= list@.len(),
                total == w.1,
                list@ == Seq::<(usize, usize)>::empty() + w.0.map_values(|e: (usize, int)| (e.0, e.1 as usize)),
                result@ == before + tree_depths(w).take(j as int),
            decreases list@.len() - j,
        {
            let (node, depth) = list[j];
            result.push((node, GuiDepth { depth, total_depth: total }));
            proof {
                assert(tree_depths(w).take(j + 1) =~= tree_depths(w).take(j as int).push(tree_depths(w)[j as int]));
            }
            j = j + 1;
        }
        proof {
            assert(tree_depths(w).take(list@.len() as int) =~= tree_depths(w));
            let t = roots@.take(k + 1);
            assert(t.drop_last() =~= roots@.take(k as int));
            assert(t.last() == root);
        }
        k = k + 1;
    }
    proof {
        assert(roots@.take(roots@.len() as int) =~= roots@);
    }
    result
}

/// What a walk from a node meets lies between its depth and the largest
/// depth met, which some met node has; a walk that meets nothing reports the
/// depth above; and the walk from a GUI node meets that node first.
proof fn lemma_walk_node(children: Seq<Seq<usize>>, is_gui: Seq<bool>, node: int, depth: int, fuel: nat)
    ensures
        ({
            let w = walk_node(children, is_gui, node, depth, fuel);
            &&& forall|i: int| 0 <= i < w.0.len() ==> depth <= (#[trigger] w.0[i]).1 <= w.1 < depth + fuel
            &&& w.0.len() == 0 ==> w.1 == depth - 1
            &&& w.0.len() > 0 ==> exists|i: int| 0 <= i < w.0.len() && (#[trigger] w.0[i]).1 == w.1
            &&& (is_gui_node(is_gui, node) && node < children.len() && fuel > 0) ==> w.0.len() > 0
                && w.0[0] == (node as usize, depth)
        }),
    decreases fuel, 0nat,
{
    if is_gui_node(is_gui, node) && node < children.len() && fuel > 0 {
        let r = walk_list(children, is_gui, children[node], depth + 1, (fuel - 1) as nat);
        lemma_walk_list(children, is_gui, children[node], depth + 1, (fuel - 1) as nat);
        let w = walk_node(children, is_gui, node, depth, fuel);
        assert(w.0 == seq![(node as usize, depth)] + r.0);
        assert forall|i: int| 0 <= i < w.0.len() implies depth <= (#[trigger] w.0[i]).1 <= w.1 < depth + fuel by {
            if i > 0 {
                assert(w.0[i] == r.0[i - 1]);
            }
        }
        if r.1 > depth {
            let k = choose|k: int| 0 <= k < r.0.len() && (#[trigger] r.0[k]).1 == r.1;
            assert(w.0[k + 1] == r.0[k]);
        } else {
            assert(w.0[0].1 == w.1);
        }
    }
}

/// The walks from a list of nodes at one depth meet nodes between that depth
/// and the largest depth met, which some met node has; meeting nothing, they
/// report the depth above.
proof fn lemma_walk_list(children: Seq<Seq<usize>>, is_gui: Seq<bool>, list: Seq<usize>, depth: int, fuel: nat)
    ensures
        ({
            let w = walk_list(children, is_gui, list, depth, fuel);
            &&& forall|i: int| 0 <= i < w.0.len() ==> depth <= (#[trigger] w.0[i]).1 <= w.1 < depth + fuel
            &&& w.1 >= depth - 1
            &&& w.0.len() == 0 ==> w.1 == depth - 1
            &&& w.0.len() > 0 ==> exists|i: int| 0 <= i < w.0.len() && (#[trigger] w.0[i]).1 == w.1
        }),
    decreases fuel, list.len(),
{
    if list.len() > 0 {
        let a = walk_list(children, is_gui, list.drop_last(), depth, fuel);
        let b = walk_node(children, is_gui, list.last() as int, depth, fuel);
        lemma_walk_list(children, is_gui, list.drop_last(), depth, fuel);
        lemma_walk_node(children, is_gui, list.last() as int, depth, fuel);
        let w = walk_list(children, is_gui, list, depth, fuel);
        assert(w.0 == a.0 + b.0);
        assert forall|i: int| 0 <= i < w.0.len() implies depth <= (#[trigger] w.0[i]).1 <= w.1 < depth + fuel by {
            if i >= a.0.len() {
                assert(w.0[i] == b.0[i - a.0.len()]);
            } else {
                assert(w.0[i] == a.0[i]);
            }
        }
        if w.0.len() > 0 {
            if b.1 > a.1 {
                let k = choose|k: int| 0 <= k < b.0.len() && (#[trigger] b.0[k]).1 == b.1;
                assert(w.0[a.0.len() + k] == b.0[k]);
            } else if a.0.len() > 0 {
                let k = choose|k: int| 0 <= k < a.0.len() && (#[trigger] a.0[k]).1 == a.1;
                assert(w.0[k] == a.0[k]);
            } else {
                assert(b.0.len() > 0);
                let k = choose|k: int| 0 <= k < b.0.len() && (#[trigger] b.0[k]).1 == b.1;
                assert(w.0[k] == b.0[k]);
            }
        }
    }
}

/// The depths a GUI root's tree gives: the root comes first, at depth zero;
/// every node of the tree has the same total depth, no smaller than its own
/// depth; and some node of the tree lies at the total depth.
pub proof fn law_tree_depths(children: Seq<Seq<usize>>, is_gui: Seq<bool>, root: usize)
    requires
        children.len() == is_gui.len(),
        is_gui.len() <= usize::MAX,
        is_gui_node(is_gui, root as int),
    ensures
        ({
            let t = tree_depths(walk_node(children, is_gui, root as int, 0, is_gui.len()));
            &&& t.len() >= 1
            &&& t[0].0 == root
            &&& t[0].1.depth == 0
            &&& forall|i: int|
                0 <= i < t.len() ==> (#[trigger] t[i]).1.total_depth == t[0].1.total_depth
                    && t[i].1.depth <= t[i].1.total_depth
            &&& exists|i: int| 0 <= i < t.len() && (#[trigger] t[i]).1.depth == t[i].1.total_depth
        }),
{
    let w = walk_node(children, is_gui, root as int, 0, is_gui.len());
    lemma_walk_node(children, is_gui, root as int, 0, is_gui.len());
    let t = tree_depths(w);
    assert forall|i: int| 0 <= i < t.len() implies (#[trigger] t[i]).1.total_depth == t[0].1.total_depth
        && t[i].1.depth <= t[i].1.total_depth by {
        assert(0 <= w.0[i].1 <= w.1 < is_gui.len());
    }
    let k = choose|k: int| 0 <= k < w.0.len() && (#[trigger] w.0[k]).1 == w.1;
    assert(t[k].1.depth == t[k].1.total_depth);
}

} // verus!
