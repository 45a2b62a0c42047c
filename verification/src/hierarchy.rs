//! The hierarchy stays sound: a graph that is well nested is so after a
//! layer was added, after a new node was placed, after a nesting and after
//! a deletion.

use crate::descent::{
    children_sound, lemma_deleted_layers, lemma_layer_of_unique, lemma_lookup_in, parent_sound,
    tree_below, well_nested,
};
use crate::graph::{
    deleted, has_node, holds, layer_of, lemma_node_found, lemma_with_node_keeps_ids, nested,
    node_of, with_node,
};
use crate::layer::{ids, lookup};
use crate::lookup::{first, lemma_first_exists, lemma_first_is, swap_removed};
use crate::node::NodeView;
use vstd::prelude::*;

verus! {

/// A list without a repeated entry, after one entry was taken out: it has
/// the other entries, each once.
pub proof fn lemma_swap_removed_members(s: Seq<usize>, a: usize)
    requires
        s.no_duplicates(),
        s.contains(a),
    ensures
        swap_removed(s, first(s, a)).no_duplicates(),
        forall|c: usize|
            #[trigger] swap_removed(s, first(s, a)).contains(c) <==> s.contains(c) && c != a,
{
    lemma_first_exists(s, a);
    let at = first(s, a);
    let after = swap_removed(s, at);
    let last = s.len() - 1;
    assert forall|i: int, j: int|
        0 <= i < after.len() && 0 <= j < after.len() && i != j implies after[i] != after[j] by {
    }
    assert forall|c: usize| #[trigger] after.contains(c) <==> s.contains(c) && c != a by {
        if after.contains(c) {
            let i = choose|i: int| 0 <= i < after.len() && after[i] == c;
        }
        if s.contains(c) && c != a {
            let x = choose|x: int| 0 <= x < s.len() && s[x] == c;
            if x == last {
                assert(after[at] == c);
            } else {
                assert(after[x] == c);
            }
        }
    }
}

/// A list without a repeated entry, after an entry was added that it did not
/// have: it has the entry and the others, each once.
pub proof fn lemma_pushed_members(s: Seq<usize>, a: usize)
    requires
        s.no_duplicates(),
        !s.contains(a),
    ensures
        s.push(a).no_duplicates(),
        forall|c: usize| #[trigger] s.push(a).contains(c) <==> s.contains(c) || c == a,
{
    let after = s.push(a);
    assert forall|c: usize| #[trigger] after.contains(c) <==> s.contains(c) || c == a by {
        if s.contains(c) {
            let i = choose|i: int| 0 <= i < s.len() && s[i] == c;
            assert(after[i] == c);
        }
        if c == a {
            assert(after[s.len() as int] == a);
        }
    }
}

/// No id occurs twice: not in one layer and not in two.
pub open spec fn unique_ids(layers: Seq<Seq<NodeView>>) -> bool {
    &&& forall|l: int| 0 <= l < layers.len() ==> ids(#[trigger] layers[l]).no_duplicates()
    &&& forall|a: int, b: int, x: usize|
        0 <= a < layers.len() && 0 <= b < layers.len() && #[trigger] ids(layers[a]).contains(x)
            && #[trigger] ids(layers[b]).contains(x) ==> a == b
}

/// In a well-nested graph no id occurs twice.
pub proof fn lemma_well_nested_unique(layers: Seq<Seq<NodeView>>)
    requires
        well_nested(layers),
    ensures
        unique_ids(layers),
{
}

/// Where no id occurs twice, a node that a layer has is the node that the
/// graph finds under its id.
pub proof fn lemma_found_in_its_layer(layers: Seq<Seq<NodeView>>, l: int, x: usize)
    requires
        unique_ids(layers),
        0 <= l < layers.len(),
        ids(layers[l]).contains(x),
    ensures
        has_node(layers, x),
        layer_of(layers, x) == l,
        node_of(layers, x) == lookup(layers[l], x),
{
    lemma_layer_of_unique(layers, l, x);
}

/// Where no id occurs twice, replacing the node under an id changes what is
/// found under that id and nothing else.
pub proof fn lemma_with_node_lookup(
    layers: Seq<Seq<NodeView>>,
    id: usize,
    node: NodeView,
    l: int,
    x: usize,
)
    requires
        unique_ids(layers),
        has_node(layers, id),
        node.id == id,
        0 <= l < layers.len(),
        ids(layers[l]).contains(x),
    ensures
        unique_ids(with_node(layers, id, node)),
        with_node(layers, id, node).len() == layers.len(),
        ids(with_node(layers, id, node)[l]) == ids(layers[l]),
        lookup(with_node(layers, id, node)[l], x) == if x == id {
            node
        } else {
            lookup(layers[l], x)
        },
{
    lemma_node_found(layers, id);
    lemma_with_node_keeps_ids(layers, id, node);
    lemma_lookup_in(layers[l], x);
}

/// What nesting `nestee` under `nester` makes of the node `x` of the layer
/// `l`: the nestee gets its new parent, the former parent loses the nestee,
/// the nester gains it, and every other node stays as it is.
pub open spec fn rewired(
    layers: Seq<Seq<NodeView>>,
    nestee: usize,
    nester: usize,
    l: int,
    x: usize,
) -> NodeView {
    let n = lookup(layers[l], x);
    let former = node_of(layers, nestee).pid;
    if x == nestee {
        n.with_parent(Some(nester))
    } else if x == nester {
        (if former == Some(nester) {
            n.without_child(nestee)
        } else {
            n
        }).with_child(nestee)
    } else if former == Some(x) {
        n.without_child(nestee)
    } else {
        n
    }
}

/// A nesting in a well-nested graph succeeds where the layers are adjacent,
/// moves no node, and rewires the three nodes it concerns: see [`rewired`].
pub proof fn lemma_nested_rewires(layers: Seq<Seq<NodeView>>, nestee: usize, nester: usize)
    requires
        well_nested(layers),
        has_node(layers, nestee),
        has_node(layers, nester),
        layer_of(layers, nester) == layer_of(layers, nestee) + 1,
    ensures
        nested(layers, nestee, nester).1 is None,
        unique_ids(nested(layers, nestee, nester).0),
        nested(layers, nestee, nester).0.len() == layers.len(),
        forall|l: int|
            0 <= l < layers.len() ==> ids(#[trigger] nested(layers, nestee, nester).0[l]) == ids(
                layers[l],
            ),
        forall|l: int, x: usize|
            0 <= l < layers.len() && ids(layers[l]).contains(x) ==> #[trigger] lookup(
                nested(layers, nestee, nester).0[l],
                x,
            ) == rewired(layers, nestee, nester, l, x),
{
    lemma_well_nested_unique(layers);
    lemma_node_found(layers, nestee);
    lemma_node_found(layers, nester);
    let la = layer_of(layers, nestee);
    let lb = layer_of(layers, nester);
    let top = layers.len() - 1;
    let former = node_of(layers, nestee).pid;
    let released = match former {
        Some(parent) => {
            lemma_found_in_its_layer(layers, la + 1, parent);
            let gave = node_of(layers, parent).without_child(nestee);
            lemma_lookup_in(layers[la + 1], parent);
            with_node(layers, parent, gave)
        },
        None => layers,
    };
    assert forall|l: int, x: usize| 0 <= l < layers.len() && ids(layers[l]).contains(
        x,
    ) implies unique_ids(released) && released.len() == layers.len() && ids(released[l]) == ids(
        layers[l],
    ) && #[trigger] lookup(released[l], x) == if former == Some(x) {
        lookup(layers[l], x).without_child(nestee)
    } else {
        lookup(layers[l], x)
    } by {
        match former {
            Some(parent) => {
                lemma_with_node_lookup(
                    layers,
                    parent,
                    node_of(layers, parent).without_child(nestee),
                    l,
                    x,
                );
            },
            None => {},
        }
    }
    match former {
        Some(parent) => {
            let gave = node_of(layers, parent).without_child(nestee);
            lemma_with_node_lookup(layers, parent, gave, la, nestee);
        },
        None => {},
    }
    lemma_found_in_its_layer(released, la, nestee);
    let claimed_child = node_of(released, nestee).with_parent(Some(nester));
    let claimed = with_node(released, nestee, claimed_child);
    assert forall|l: int, x: usize| 0 <= l < layers.len() && ids(layers[l]).contains(
        x,
    ) implies unique_ids(claimed) && claimed.len() == layers.len() && ids(claimed[l]) == ids(
        layers[l],
    ) && #[trigger] lookup(claimed[l], x) == if x == nestee {
        claimed_child
    } else {
        lookup(released[l], x)
    } by {
        lemma_with_node_lookup(released, nestee, claimed_child, l, x);
    }
    lemma_with_node_lookup(released, nestee, claimed_child, lb, nester);
    lemma_found_in_its_layer(claimed, lb, nester);
    let took = node_of(claimed, nester).with_child(nestee);
    let after = with_node(claimed, nester, took);
    assert forall|l: int, x: usize| 0 <= l < layers.len() && ids(layers[l]).contains(
        x,
    ) implies unique_ids(after) && after.len() == layers.len() && ids(after[l]) == ids(
        layers[l],
    ) && #[trigger] lookup(after[l], x) == rewired(layers, nestee, nester, l, x) by {
        lemma_with_node_lookup(claimed, nester, took, l, x);
    }
    assert forall|l: int| 0 <= l < layers.len() implies ids(#[trigger] after[l]) == ids(
        layers[l],
    ) by {
        if former is Some {
            lemma_with_node_keeps_ids(
                layers,
                former->0,
                node_of(layers, former->0).without_child(nestee),
            );
        }
    }
}

/// What a nesting in a well-nested graph leaves of a node: its id; its
/// parent, unless it is the nestee; and its children, but that the nestee
/// leaves its former parent and joins the nester. No child is listed twice.
pub proof fn lemma_rewired_members(
    layers: Seq<Seq<NodeView>>,
    nestee: usize,
    nester: usize,
    l: int,
    x: usize,
)
    requires
        well_nested(layers),
        has_node(layers, nestee),
        has_node(layers, nester),
        layer_of(layers, nester) == layer_of(layers, nestee) + 1,
        0 <= l < layers.len(),
        ids(layers[l]).contains(x),
    ensures
        rewired(layers, nestee, nester, l, x).id == x,
        rewired(layers, nestee, nester, l, x).pid == if x == nestee {
            Some(nester)
        } else {
            lookup(layers[l], x).pid
        },
        rewired(layers, nestee, nester, l, x).children.no_duplicates(),
        forall|c: usize|
            #[trigger] rewired(layers, nestee, nester, l, x).children.contains(c) <==> (lookup(
                layers[l],
                x,
            ).children.contains(c) && !(c == nestee && node_of(layers, nestee).pid == Some(x)))
                || (c == nestee && x == nester),
{
    lemma_node_found(layers, nestee);
    lemma_lookup_in(layers[l], x);
    let top = layers.len() - 1;
    let n = lookup(layers[l], x);
    let former = node_of(layers, nestee).pid;
    if former == Some(x) {
        lemma_swap_removed_members(n.children, nestee);
    }
    if x == nester && x != nestee {
        let base = if former == Some(nester) {
            n.without_child(nestee).children
        } else {
            n.children
        };
        lemma_pushed_members(base, nestee);
    }
}

/// Nesting keeps the graph well nested.
pub proof fn law_nesting_keeps_well_nested(
    layers: Seq<Seq<NodeView>>,
    nestee: usize,
    nester: usize,
)
    requires
        well_nested(layers),
    ensures
        well_nested(nested(layers, nestee, nester).0),
{
    if has_node(layers, nester) && has_node(layers, nestee) && layer_of(layers, nester)
        == layer_of(layers, nestee) + 1 {
        lemma_nested_rewires(layers, nestee, nester);
        lemma_well_nested_unique(layers);
        lemma_node_found(layers, nestee);
        lemma_node_found(layers, nester);
        let lb = layer_of(layers, nester);
        let top = layers.len() - 1;
        let after = nested(layers, nestee, nester).0;
        assert forall|l: int, x: usize| 0 <= l < layers.len() && #[trigger] ids(after[l]).contains(
            x,
        ) implies children_sound(after, l, x) && parent_sound(after, l, x) by {
            let was = lookup(layers[l], x);
            lemma_rewired_members(layers, nestee, nester, l, x);
            if x == nestee {
                lemma_rewired_members(layers, nestee, nester, lb, nester);
            } else {
                match was.pid {
                    Some(q) => {
                        lemma_rewired_members(layers, nestee, nester, l + 1, q);
                    },
                    None => {},
                }
            }
        }
        assert(tree_below(after, top)) by {
            assert forall|l: int| 0 <= l <= top implies ids(#[trigger] after[l]).no_duplicates() by {
            }
        }
    }
}

/// In a layer without a repeated id, replacing the node under an id changes
/// what is found under that id and nothing else.
pub proof fn lemma_update_lookup(nodes: Seq<NodeView>, id: usize, node: NodeView, x: usize)
    requires
        ids(nodes).no_duplicates(),
        ids(nodes).contains(id),
        node.id == id,
        ids(nodes).contains(x),
    ensures
        ids(nodes.update(first(ids(nodes), id), node)) == ids(nodes),
        lookup(nodes.update(first(ids(nodes), id), node), x) == if x == id {
            node
        } else {
            lookup(nodes, x)
        },
{
    lemma_lookup_in(nodes, id);
    lemma_lookup_in(nodes, x);
    let k = first(ids(nodes), id);
    let after = nodes.update(k, node);
    assert(ids(after) =~= ids(nodes));
}

/// Deleting a node keeps the graph well nested.
pub proof fn law_delete_keeps_well_nested(layers: Seq<Seq<NodeView>>, n: usize)
    requires
        well_nested(layers),
    ensures
        well_nested(deleted(layers, n).0),
{
    if has_node(layers, n) {
        lemma_deleted_layers(layers, n);
        let at = layer_of(layers, n);
        let top = layers.len() - 1;
        let after = deleted(layers, n).0;
        let gone = lookup(layers[at], n);
        // the layer above: as it was, but that the parent has given the node up
        assert forall|y: usize| at + 1 <= top && #[trigger] ids(layers[at + 1]).contains(
            y,
        ) implies ids(after[at + 1]) == ids(layers[at + 1]) && lookup(after[at + 1], y).pid
            == lookup(layers[at + 1], y).pid && lookup(after[at + 1], y).children.no_duplicates()
            && (forall|c: usize| #[trigger]
            lookup(after[at + 1], y).children.contains(c) <==> lookup(
                layers[at + 1],
                y,
            ).children.contains(c) && c != n) by {
            match gone.pid {
                Some(p) => {
                    let gave = lookup(layers[at + 1], p).without_child(n);
                    lemma_lookup_in(layers[at + 1], p);
                    lemma_update_lookup(layers[at + 1], p, gave, y);
                    lemma_swap_removed_members(lookup(layers[at + 1], p).children, n);
                },
                None => {},
            }
        }
        assert forall|l: int, x: usize| 0 <= l <= top && #[trigger] ids(after[l]).contains(
            x,
        ) implies children_sound(after, l, x) && parent_sound(after, l, x) && ids(
            layers[l],
        ).contains(x) by {
            if l == at + 1 {
                let now = lookup(after[l], x);
                assert forall|c: usize| #[trigger] now.children.contains(c) implies l > 0 && ids(
                    after[l - 1],
                ).contains(c) && lookup(after[l - 1], c).pid == Some(x) by {
                }
            }
        }
    }
}

/// A graph without layers is well nested.
pub proof fn law_empty_is_well_nested()
    ensures
        well_nested(Seq::<Seq<NodeView>>::empty()),
{
}

/// An empty layer on top keeps the graph well nested.
pub proof fn law_new_layer_keeps_well_nested(layers: Seq<Seq<NodeView>>)
    requires
        well_nested(layers),
    ensures
        well_nested(layers.push(Seq::empty())),
{
    let after = layers.push(Seq::<NodeView>::empty());
    assert forall|a: int, b: int, x: usize|
        0 <= a < after.len() && 0 <= b < after.len() && #[trigger] ids(after[a]).contains(x)
            && #[trigger] ids(after[b]).contains(x) implies a == b by {
    }
}

/// Placing a detached node under a fresh id keeps the graph well nested.
pub proof fn law_placing_keeps_well_nested(layers: Seq<Seq<NodeView>>, at: int, node: NodeView)
    requires
        well_nested(layers),
        0 <= at < layers.len(),
        !has_node(layers, node.id),
        node.pid is None,
        node.children.len() == 0,
    ensures
        well_nested(layers.update(at, layers[at].push(node))),
{
    let after = layers.update(at, layers[at].push(node));
    let top = layers.len() - 1;
    assert forall|l: int| 0 <= l < layers.len() implies !ids(#[trigger] layers[l]).contains(
        node.id,
    ) by {
        if ids(layers[l]).contains(node.id) {
            assert(holds(layers, node.id)[l]);
        }
    }
    let grown = layers[at].push(node);
    assert(ids(grown) =~= ids(layers[at]).push(node.id));
    lemma_pushed_members(ids(layers[at]), node.id);
    assert forall|l: int, x: usize| 0 <= l < layers.len() && x != node.id && #[trigger] ids(
        after[l],
    ).contains(x) implies ids(layers[l]).contains(x) && lookup(after[l], x) == lookup(
        layers[l],
        x,
    ) by {
        if l == at {
            lemma_lookup_in(layers[at], x);
            let j = first(ids(layers[at]), x);
            assert(ids(grown)[j] == x);
            lemma_first_is(ids(grown), x, j);
        }
    }
    assert(lookup(grown, node.id) == node) by {
        let k = layers[at].len() as int;
        lemma_first_is(ids(grown), node.id, k);
    }
    assert forall|l: int, x: usize| 0 <= l <= top && #[trigger] ids(after[l]).contains(
        x,
    ) implies children_sound(after, l, x) && parent_sound(after, l, x) by {
        if x == node.id {
            assert(!node.children.contains(x));
        } else {
            let was = lookup(layers[l], x);
            match was.pid {
                Some(q) => {
                    assert(q != node.id);
                },
                None => {},
            }
        }
    }
}

/// The layers `b` have at every place a node with the id, the parent and the
/// children of the node that `a` has there.
pub open spec fn same_nesting(a: Seq<Seq<NodeView>>, b: Seq<Seq<NodeView>>) -> bool {
    &&& b.len() == a.len()
    &&& forall|l: int| 0 <= l < a.len() ==> (#[trigger] b[l]).len() == a[l].len()
    &&& forall|l: int, i: int|
        0 <= l < a.len() && 0 <= i < a[l].len() ==> (#[trigger] b[l][i]).id == a[l][i].id
            && b[l][i].pid == a[l][i].pid && b[l][i].children == a[l][i].children
}

/// Whether a graph is well nested is a matter of ids, parents and children
/// alone: features, edges and positions have no part in it.
pub proof fn law_well_nested_by_nesting_alone(a: Seq<Seq<NodeView>>, b: Seq<Seq<NodeView>>)
    requires
        well_nested(a),
        same_nesting(a, b),
    ensures
        well_nested(b),
{
    assert forall|l: int| 0 <= l < a.len() implies ids(#[trigger] b[l]) == ids(a[l]) by {
    }
    assert forall|l: int, x: usize| 0 <= l < a.len() && ids(a[l]).contains(x) implies (
    #[trigger] lookup(b[l], x)).pid == lookup(a[l], x).pid && lookup(b[l], x).children == lookup(
        a[l],
        x,
    ).children by {
        lemma_lookup_in(a[l], x);
    }
}

} // verus!
