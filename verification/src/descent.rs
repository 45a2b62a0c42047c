//! Deleting a node of a well-nested graph deletes what hangs below it, and
//! nothing else.

use crate::graph::{
    cascade, deleted, detached, has_node, holds, layer_of, lemma_node_found, node_of,
};
use crate::layer::{ids, lookup, without_node};
use crate::lookup::{first, lemma_first_exists, lemma_first_is, swap_removed};
use crate::node::NodeView;
use vstd::prelude::*;

verus! {

/// In a layer without a repeated id, the node at a place is the node that a
/// lookup of its id finds.
pub proof fn lemma_unique_lookup(nodes: Seq<NodeView>, j: int)
    requires
        ids(nodes).no_duplicates(),
        0 <= j < nodes.len(),
    ensures
        ids(nodes).contains(nodes[j].id),
        first(ids(nodes), nodes[j].id) == j,
        lookup(nodes, nodes[j].id) == nodes[j],
{
    let all = ids(nodes);
    assert(all[j] == nodes[j].id);
    lemma_first_is(all, nodes[j].id, j);
}

/// A lookup of an id that the layer has finds a node with that id.
pub proof fn lemma_lookup_in(nodes: Seq<NodeView>, x: usize)
    requires
        ids(nodes).contains(x),
    ensures
        0 <= first(ids(nodes), x) < nodes.len(),
        lookup(nodes, x).id == x,
        lookup(nodes, x) == nodes[first(ids(nodes), x)],
{
    lemma_first_exists(ids(nodes), x);
}

/// `after` is `before` without the nodes whose id is in `dead`: no id
/// occurs twice in it, and what stays has its parent and its children as
/// before.
pub open spec fn thinned(before: Seq<NodeView>, after: Seq<NodeView>, dead: Set<usize>) -> bool {
    &&& ids(after).no_duplicates()
    &&& forall|x: usize|
        #[trigger] ids(after).contains(x) <==> ids(before).contains(x) && !dead.contains(x)
    &&& forall|x: usize|
        ids(after).contains(x) ==> (#[trigger] lookup(after, x)).pid == lookup(before, x).pid
            && lookup(after, x).children == lookup(before, x).children
}

/// Taking one node out of a layer without a repeated id thins the layer by
/// that id.
pub proof fn lemma_without_node_thins(nodes: Seq<NodeView>, t: usize)
    requires
        ids(nodes).no_duplicates(),
        ids(nodes).contains(t),
    ensures
        thinned(nodes, without_node(nodes, t), set![t]),
{
    lemma_lookup_in(nodes, t);
    let at = first(ids(nodes), t);
    let after = without_node(nodes, t);
    assert(ids(after) =~= ids(nodes).remove(at));
    assert forall|x: usize| #[trigger]
        ids(after).contains(x) <==> ids(nodes).contains(x) && !set![t].contains(x) by {
        if ids(after).contains(x) {
            if x == t {
                assert(ids(nodes)[at] == t);
            }
        }
        if ids(nodes).contains(x) && x != t {
            let a = choose|a: int| 0 <= a < ids(nodes).len() && ids(nodes)[a] == x;
            let i = if a < at { a } else { a - 1 };
            assert(ids(after)[i] == x);
        }
    }
    assert forall|x: usize| ids(after).contains(x) implies (#[trigger] lookup(after, x)).pid
        == lookup(nodes, x).pid && lookup(after, x).children == lookup(nodes, x).children by {
        lemma_lookup_in(after, x);
        let i = first(ids(after), x);
        let a = if i < at { i } else { i + 1 };
        lemma_unique_lookup(nodes, a);
    }
}

/// The node of the layer `at` that the node `x` of the layer `l` hangs
/// below, through its parent, the parent of its parent and so on; none
/// where the chain of parents breaks off before it reaches that layer.
pub open spec fn ancestor(layers: Seq<Seq<NodeView>>, l: int, x: usize, at: int) -> Option<usize>
    decreases at - l,
{
    if l >= at {
        Some(x)
    } else if !ids(layers[l]).contains(x) {
        None
    } else {
        match lookup(layers[l], x).pid {
            Some(p) => ancestor(layers, l + 1, p, at),
            None => None,
        }
    }
}

/// The ids of the layer `l` that hang below one of `targets`, nodes of the
/// layer `at`.
pub open spec fn hanging(layers: Seq<Seq<NodeView>>, at: int, targets: Seq<usize>, l: int) -> Set<
    usize,
> {
    Set::new(
        |x: usize|
            match ancestor(layers, l, x, at) {
                Some(t) => targets.contains(t),
                None => false,
            },
    )
}

/// The children of the node `x` of the layer `l` are nodes of the layer
/// below that name `x` as their parent, and no child is listed twice.
pub open spec fn children_sound(layers: Seq<Seq<NodeView>>, l: int, x: usize) -> bool {
    let p = lookup(layers[l], x);
    &&& p.children.no_duplicates()
    &&& forall|c: usize|
        #[trigger] p.children.contains(c) ==> l > 0 && ids(layers[l - 1]).contains(c) && lookup(
            layers[l - 1],
            c,
        ).pid == Some(x)
}

/// The parent that the node `x` of the layer `l` names, if it names one, is
/// a node of the layer above that lists `x` among its children.
pub open spec fn parent_sound(layers: Seq<Seq<NodeView>>, l: int, x: usize) -> bool {
    match lookup(layers[l], x).pid {
        Some(p) => l + 1 < layers.len() && ids(layers[l + 1]).contains(p) && lookup(
            layers[l + 1],
            p,
        ).children.contains(x),
        None => true,
    }
}

/// The layers up to `at` form trees: no layer has an id twice, children are
/// sound, and below the layer `at` parents are.
pub open spec fn tree_below(layers: Seq<Seq<NodeView>>, at: int) -> bool {
    &&& forall|l: int| 0 <= l <= at ==> ids(#[trigger] layers[l]).no_duplicates()
    &&& forall|l: int, x: usize|
        0 <= l <= at && #[trigger] ids(layers[l]).contains(x) ==> children_sound(layers, l, x)
    &&& forall|l: int, x: usize|
        0 <= l < at && #[trigger] ids(layers[l]).contains(x) ==> parent_sound(layers, l, x)
}

/// The chain of parents is looked up below the layer it leads to: layers
/// that agree below `at` give the same ancestor.
pub proof fn lemma_ancestor_agrees(
    a: Seq<Seq<NodeView>>,
    b: Seq<Seq<NodeView>>,
    l: int,
    x: usize,
    at: int,
)
    requires
        0 <= l,
        forall|k: int| l <= k < at ==> #[trigger] a[k] == b[k],
    ensures
        ancestor(a, l, x, at) == ancestor(b, l, x, at),
    decreases at - l,
{
    if l < at {
        if ids(a[l]).contains(x) {
            match lookup(a[l], x).pid {
                Some(p) => {
                    lemma_ancestor_agrees(a, b, l + 1, p, at);
                },
                None => {},
            }
        }
    }
}

/// The chain of parents up to a layer goes through the layer below it.
pub proof fn lemma_ancestor_through(layers: Seq<Seq<NodeView>>, l: int, x: usize, at: int)
    requires
        0 <= l < at,
    ensures
        ancestor(layers, l, x, at) == match ancestor(layers, l, x, at - 1) {
            Some(c) => ancestor(layers, at - 1, c, at),
            None => None,
        },
    decreases at - l,
{
    if l < at - 1 {
        if ids(layers[l]).contains(x) {
            match lookup(layers[l], x).pid {
                Some(p) => {
                    lemma_ancestor_through(layers, l + 1, p, at);
                },
                None => {},
            }
        }
    }
}

/// A node hangs below the node `t` of the layer `at` exactly if it hangs
/// below one of the children of `t`.
pub proof fn lemma_hanging_one(layers: Seq<Seq<NodeView>>, at: int, t: usize, l: int, x: usize)
    requires
        tree_below(layers, at),
        0 <= l < at < layers.len(),
        ids(layers[at]).contains(t),
    ensures
        ancestor(layers, l, x, at) == Some(t) <==> match ancestor(layers, l, x, at - 1) {
            Some(c) => lookup(layers[at], t).children.contains(c),
            None => false,
        },
{
    lemma_ancestor_through(layers, l, x, at);
    match ancestor(layers, l, x, at - 1) {
        Some(c) => {
            if ids(layers[at - 1]).contains(c) {
                match lookup(layers[at - 1], c).pid {
                    Some(p) => {
                        assert(ancestor(layers, at, p, at) == Some(p));
                    },
                    None => {},
                }
            }
        },
        None => {},
    }
}

/// What does not hang below the node `t` has the same ancestors after what
/// hangs below `t` is gone.
pub proof fn lemma_ancestor_survives(
    layers: Seq<Seq<NodeView>>,
    below: Seq<Seq<NodeView>>,
    at: int,
    t: usize,
    l: int,
    x: usize,
)
    requires
        tree_below(layers, at),
        0 <= l <= at < layers.len(),
        forall|k: int|
            0 <= k <= at ==> thinned(layers[k], #[trigger] below[k], hanging(layers, at, seq![t], k)),
        ancestor(layers, l, x, at) != Some(t),
    ensures
        ancestor(below, l, x, at) == ancestor(layers, l, x, at),
    decreases at - l,
{
    if l < at {
        if ids(layers[l]).contains(x) {
            match lookup(layers[l], x).pid {
                Some(p) => {
                    lemma_ancestor_survives(layers, below, at, t, l + 1, p);
                },
                None => {},
            }
        }
    }
}

/// After the node `t` of the layer `at` and what hangs below its children
/// are gone, each layer is thinned by what hung below `t`.
pub proof fn lemma_below_one(
    layers: Seq<Seq<NodeView>>,
    below: Seq<Seq<NodeView>>,
    at: int,
    t: usize,
)
    requires
        tree_below(layers, at),
        0 <= at < layers.len(),
        ids(layers[at]).contains(t),
        below.len() == layers.len(),
        below[at] == without_node(layers[at], t),
        forall|l: int|
            0 <= l < at ==> thinned(
                layers[l],
                #[trigger] below[l],
                hanging(
                    layers.update(at, without_node(layers[at], t)),
                    at - 1,
                    lookup(layers[at], t).children,
                    l,
                ),
            ),
    ensures
        forall|l: int|
            0 <= l <= at ==> thinned(layers[l], #[trigger] below[l], hanging(layers, at, seq![t], l)),
{
    let one = seq![t];
    assert(one[0] == t);
    let next = layers.update(at, without_node(layers[at], t));
    let cs = lookup(layers[at], t).children;
    assert forall|l: int| 0 <= l <= at implies thinned(
        layers[l],
        #[trigger] below[l],
        hanging(layers, at, one, l),
    ) by {
        if l == at {
            lemma_without_node_thins(layers[at], t);
            assert(hanging(layers, at, one, at) =~= set![t]) by {
                assert forall|x: usize| hanging(layers, at, one, at).contains(x) <==> x == t by {
                    if one.contains(x) {
                        let w = choose|w: int| 0 <= w < one.len() && one[w] == x;
                    }
                }
            }
        } else {
            assert forall|x: usize| #[trigger] ids(layers[l]).contains(x) implies hanging(
                next,
                at - 1,
                cs,
                l,
            ).contains(x) == hanging(layers, at, one, l).contains(x) by {
                lemma_ancestor_agrees(next, layers, l, x, at - 1);
                lemma_hanging_one(layers, at, t, l, x);
                match ancestor(layers, l, x, at) {
                    Some(u) => {
                        if one.contains(u) {
                            let w = choose|w: int| 0 <= w < one.len() && one[w] == u;
                        }
                    },
                    None => {},
                }
            }
        }
    }
}

/// Thinning by what hangs below the first target and then by what hangs
/// below the others is thinning by what hangs below any of them.
pub proof fn lemma_thinned_by_all(
    layers: Seq<Seq<NodeView>>,
    below: Seq<Seq<NodeView>>,
    after: Seq<Seq<NodeView>>,
    at: int,
    targets: Seq<usize>,
)
    requires
        tree_below(layers, at),
        0 <= at < layers.len(),
        targets.len() > 0,
        forall|l: int|
            0 <= l <= at ==> thinned(
                layers[l],
                #[trigger] below[l],
                hanging(layers, at, seq![targets[0]], l),
            ),
        forall|l: int|
            0 <= l <= at ==> thinned(
                below[l],
                #[trigger] after[l],
                hanging(below, at, targets.drop_first(), l),
            ),
    ensures
        forall|l: int|
            0 <= l <= at ==> thinned(layers[l], #[trigger] after[l], hanging(layers, at, targets, l)),
{
    let t = targets[0];
    let one = seq![t];
    let rest = targets.drop_first();
    assert(one[0] == t);
    assert forall|l: int| 0 <= l <= at implies thinned(
        layers[l],
        #[trigger] after[l],
        hanging(layers, at, targets, l),
    ) by {
        let d1 = hanging(layers, at, one, l);
        let d2 = hanging(below, at, rest, l);
        let d = hanging(layers, at, targets, l);
        assert forall|x: usize| #[trigger] ids(layers[l]).contains(x) implies (d.contains(x) <==> (
        d1.contains(x) || d2.contains(x))) by {
            let up = ancestor(layers, l, x, at);
            if up != Some(t) {
                lemma_ancestor_survives(layers, below, at, t, l, x);
                match up {
                    Some(u) => {
                        if targets.contains(u) {
                            let w = choose|w: int| 0 <= w < targets.len() && targets[w] == u;
                            assert(rest[w - 1] == u);
                        }
                    },
                    None => {},
                }
            }
        }
    }
}

/// In layers that form trees, deleting nodes of one layer succeeds and takes
/// exactly what hangs below them, in every layer down to the bottom; the
/// layers above stay, and what is left still forms trees.
pub proof fn lemma_cascade_tree(layers: Seq<Seq<NodeView>>, at: int, targets: Seq<usize>)
    requires
        -1 <= at < layers.len(),
        tree_below(layers, at),
        targets.no_duplicates(),
        targets.len() > 0 ==> at >= 0,
        forall|k: int| 0 <= k < targets.len() ==> ids(layers[at]).contains(#[trigger] targets[k]),
    ensures
        cascade(layers, at, targets).1 is None,
        cascade(layers, at, targets).0.len() == layers.len(),
        forall|l: int|
            at < l < layers.len() ==> #[trigger] cascade(layers, at, targets).0[l] == layers[l],
        forall|l: int|
            0 <= l <= at ==> thinned(
                layers[l],
                #[trigger] cascade(layers, at, targets).0[l],
                hanging(layers, at, targets, l),
            ),
        tree_below(cascade(layers, at, targets).0, at),
    decreases at + 1, targets.len(),
{
    if targets.len() > 0 {
        let t = targets[0];
        let rest = targets.drop_first();
        let gone = lookup(layers[at], t);
        let next = layers.update(at, without_node(layers[at], t));
        let cs = gone.children;
        assert forall|k: int| 0 <= k < cs.len() implies at - 1 >= 0 && ids(next[at - 1]).contains(
            #[trigger] cs[k],
        ) by {
            assert(cs.contains(cs[k]));
        }
        if cs.len() > 0 {
            assert(cs.contains(cs[0]));
        }
        lemma_cascade_tree(next, at - 1, cs);
        let (below, failed) = cascade(next, at - 1, gone.children);
        lemma_below_one(layers, below, at, t);
        lemma_cascade_tree(below, at, rest);
        let (after, failed_later) = cascade(below, at, rest);
        lemma_thinned_by_all(layers, below, after, at, targets);
    }
}

/// The graph is well nested: no id occurs twice in it; the children of a
/// node are nodes of the layer below that name it as their parent, none
/// listed twice; and the parent that a node names is a node of the layer
/// above that lists it.
pub open spec fn well_nested(layers: Seq<Seq<NodeView>>) -> bool {
    &&& tree_below(layers, layers.len() - 1)
    &&& forall|x: usize|
        layers.len() > 0 && #[trigger] ids(layers[layers.len() - 1]).contains(x) ==> parent_sound(
            layers,
            layers.len() - 1,
            x,
        )
    &&& forall|a: int, b: int, x: usize|
        0 <= a < layers.len() && 0 <= b < layers.len() && #[trigger] ids(layers[a]).contains(x)
            && #[trigger] ids(layers[b]).contains(x) ==> a == b
}

/// The ids that are reached from `root` in `depth` steps, each from a node
/// to one of its children.
pub open spec fn reached(layers: Seq<Seq<NodeView>>, root: usize, depth: nat) -> Set<usize>
    decreases depth,
{
    if depth == 0 {
        set![root]
    } else {
        Set::new(
            |x: usize|
                exists|p: usize|
                    #[trigger] reached(layers, root, (depth - 1) as nat).contains(p) && has_node(
                        layers,
                        p,
                    ) && node_of(layers, p).children.contains(x),
        )
    }
}

/// Where no id occurs in two layers, a node is looked for and found in the
/// layer that has it.
pub proof fn lemma_layer_of_unique(layers: Seq<Seq<NodeView>>, l: int, x: usize)
    requires
        0 <= l < layers.len(),
        ids(layers[l]).contains(x),
        forall|k: int| 0 <= k < l ==> !ids(#[trigger] layers[k]).contains(x),
    ensures
        has_node(layers, x),
        layer_of(layers, x) == l,
        node_of(layers, x) == lookup(layers[l], x),
{
    let hs = holds(layers, x);
    assert forall|k: int| 0 <= k < l implies hs[k] != true by {
    }
    lemma_first_is(hs, true, l);
}

/// A list without a repeated entry no longer has the entry that was taken
/// out of it.
pub proof fn lemma_swap_removed_gone(s: Seq<usize>, x: usize)
    requires
        s.no_duplicates(),
        s.contains(x),
    ensures
        !swap_removed(s, first(s, x)).contains(x),
{
    lemma_first_exists(s, x);
}

/// What deleting the node `n` of a well-nested graph leaves of each layer:
/// the deletion succeeds; the layers up to that of `n` are thinned by what
/// hangs below `n`; and the layers above it keep their ids.
pub proof fn lemma_deleted_layers(layers: Seq<Seq<NodeView>>, n: usize)
    requires
        well_nested(layers),
        has_node(layers, n),
    ensures
        deleted(layers, n).1 is None,
        deleted(layers, n).0.len() == layers.len(),
        0 <= layer_of(layers, n) < layers.len(),
        ids(layers[layer_of(layers, n)]).contains(n),
        forall|l: int|
            0 <= l <= layer_of(layers, n) ==> thinned(
                layers[l],
                #[trigger] deleted(layers, n).0[l],
                hanging(layers, layer_of(layers, n), seq![n], l),
            ),
        forall|l: int|
            layer_of(layers, n) < l < layers.len() ==> ids(#[trigger] deleted(layers, n).0[l])
                == ids(layers[l]),
        forall|l: int|
            layer_of(layers, n) + 1 < l < layers.len() ==> #[trigger] deleted(layers, n).0[l]
                == layers[l],
        layer_of(layers, n) + 1 < layers.len() ==> deleted(layers, n).0[layer_of(layers, n) + 1]
            == detached(layers, layer_of(layers, n), n).0[layer_of(layers, n) + 1],
        detached(layers, layer_of(layers, n), n).1 is None,
        tree_below(deleted(layers, n).0, layer_of(layers, n)),
{
    lemma_node_found(layers, n);
    let at = layer_of(layers, n);
    let one = seq![n];
    let top = layers.len() - 1;
    let (loose, failed) = detached(layers, at, n);
    match lookup(layers[at], n).pid {
        Some(p) => {
            lemma_lookup_in(layers[at + 1], p);
        },
        None => {},
    }
    lemma_cascade_tree(loose, at, one);
    let (after, failed_later) = cascade(loose, at, one);
    assert forall|l: int| 0 <= l <= at implies thinned(
        layers[l],
        #[trigger] after[l],
        hanging(layers, at, one, l),
    ) by {
        assert(hanging(loose, at, one, l) =~= hanging(layers, at, one, l)) by {
            assert forall|x: usize| hanging(loose, at, one, l).contains(x) == hanging(
                layers,
                at,
                one,
                l,
            ).contains(x) by {
                lemma_ancestor_agrees(loose, layers, l, x, at);
            }
        }
    }
}

/// The node `x` hangs below the node `n`: following parents from `x` leads
/// to `n`. A node hangs below itself.
pub open spec fn hangs_below(layers: Seq<Seq<NodeView>>, x: usize, n: usize) -> bool {
    &&& has_node(layers, x)
    &&& has_node(layers, n)
    &&& layer_of(layers, x) <= layer_of(layers, n)
    &&& ancestor(layers, layer_of(layers, x), x, layer_of(layers, n)) == Some(n)
}

/// What hangs below the deleted node is in no layer afterwards.
pub proof fn lemma_hanging_gone(layers: Seq<Seq<NodeView>>, n: usize, l: int, x: usize)
    requires
        well_nested(layers),
        has_node(layers, n),
        0 <= l <= layer_of(layers, n),
        ids(layers[l]).contains(x),
        ancestor(layers, l, x, layer_of(layers, n)) == Some(n),
    ensures
        !has_node(deleted(layers, n).0, x),
{
    lemma_deleted_layers(layers, n);
    let at = layer_of(layers, n);
    let one = seq![n];
}

/// Deleting a node of a well-nested graph succeeds and takes the node out
/// of the graph: looking for it afterwards finds nothing. Its former parent
/// is still there and no longer has it among its children.
pub proof fn law_delete_takes_node(layers: Seq<Seq<NodeView>>, n: usize)
    requires
        well_nested(layers),
        has_node(layers, n),
    ensures
        deleted(layers, n).1 is None,
        !has_node(deleted(layers, n).0, n),
        match node_of(layers, n).pid {
            Some(p) => has_node(deleted(layers, n).0, p) && !node_of(
                deleted(layers, n).0,
                p,
            ).children.contains(n),
            None => true,
        },
{
    lemma_deleted_layers(layers, n);
    let at = layer_of(layers, n);
    let after = deleted(layers, n).0;
    let one = seq![n];
    match node_of(layers, n).pid {
        Some(p) => {
            let up = layers[at + 1];
            lemma_lookup_in(up, p);
            lemma_layer_of_unique(after, at + 1, p);
            lemma_swap_removed_gone(lookup(up, p).children, n);
        },
        None => {},
    }
}

/// Deleting a node of a well-nested graph takes all that descends from it:
/// a node that is reached from the deleted one, step by step from a node to
/// one of its children, is not found afterwards.
pub proof fn law_delete_takes_descendants(
    layers: Seq<Seq<NodeView>>,
    n: usize,
    depth: nat,
    x: usize,
)
    requires
        well_nested(layers),
        has_node(layers, n),
        reached(layers, n, depth).contains(x),
    ensures
        !has_node(deleted(layers, n).0, x),
{
    lemma_reached_hangs(layers, n, depth, x);
    lemma_hanging_gone(layers, n, layer_of(layers, n) - depth, x);
}

/// What is reached from `n` in `depth` steps is a node of the layer that
/// many layers below, and it hangs below `n`.
pub proof fn lemma_reached_hangs(layers: Seq<Seq<NodeView>>, n: usize, depth: nat, x: usize)
    requires
        well_nested(layers),
        has_node(layers, n),
        reached(layers, n, depth).contains(x),
    ensures
        depth <= layer_of(layers, n),
        ids(layers[layer_of(layers, n) - depth]).contains(x),
        ancestor(layers, layer_of(layers, n) - depth, x, layer_of(layers, n)) == Some(n),
    decreases depth,
{
    lemma_node_found(layers, n);
    let at = layer_of(layers, n);
    if depth > 0 {
        let p = choose|p: usize| #[trigger]
            reached(layers, n, (depth - 1) as nat).contains(p) && has_node(layers, p) && node_of(
                layers,
                p,
            ).children.contains(x);
        lemma_reached_hangs(layers, n, (depth - 1) as nat, p);
        let l = at - (depth - 1);
        lemma_layer_of_unique(layers, l, p);
    }
}

/// Deleting a node of a well-nested graph takes nothing else: a node that
/// does not hang below the deleted one is found afterwards as before; and no
/// node is found afterwards that was not there before.
pub proof fn law_delete_takes_no_other(layers: Seq<Seq<NodeView>>, n: usize, x: usize)
    requires
        well_nested(layers),
        has_node(layers, n),
    ensures
        has_node(deleted(layers, n).0, x) <==> has_node(layers, x) && !hangs_below(layers, x, n),
{
    lemma_deleted_layers(layers, n);
    let after = deleted(layers, n).0;
    if has_node(after, x) {
        lemma_node_found(after, x);
        let k = layer_of(after, x);
        assert(holds(layers, x)[k]);
        lemma_node_found(layers, x);
    }
    if has_node(layers, x) && !hangs_below(layers, x, n) {
        lemma_node_found(layers, x);
        let k = layer_of(layers, x);
        assert(holds(after, x)[k]);
    }
}

} // verus!
