//! What stands at a path of a tree, and what an insertion does to it.

use vstd::prelude::*;
use crate::parser::node::{NodeView, NodeConfigView, insert_spec};

verus! {

/// The node that `path` leads to from `v`, if it leads to one.
pub open spec fn node_at(v: NodeView, path: Seq<Seq<char>>) -> Option<NodeView>
    decreases path.len(),
{
    if path.len() == 0 {
        Some(v)
    } else {
        match v {
            NodeView::Branch(m) => if m.contains_key(path[0]) {
                node_at(m[path[0]], path.skip(1))
            } else {
                None
            },
            NodeView::Leaf { .. } => None,
        }
    }
}

/// The leaf that `path` leads to from `v`, if it leads to a leaf.
pub open spec fn leaf_at(v: NodeView, path: Seq<Seq<char>>) -> Option<NodeView> {
    match node_at(v, path) {
        Some(n) => if n is Leaf {
            Some(n)
        } else {
            None
        },
        None => None,
    }
}

/// The paths of the leaves below `v`.
pub open spec fn leaf_paths(v: NodeView) -> Set<Seq<Seq<char>>> {
    Set::new(|p: Seq<Seq<char>>| leaf_at(v, p) is Some)
}

/// The leaf that the target `path` resolves to under `cfg`: the last segment
/// is resolved below those before it.
pub open spec fn resolved(path: Seq<Seq<char>>, cfg: NodeConfigView) -> NodeView
    recommends
        path.len() > 0,
{
    cfg.below(path.drop_last()).leaf(path.last())
}

/// No path leads anywhere from a leaf but the empty one.
pub proof fn lemma_nothing_below_leaf(v: NodeView, path: Seq<Seq<char>>)
    requires
        v is Leaf,
        path.len() > 0,
    ensures
        node_at(v, path) is None,
{
}

/// After a target is inserted its resolved leaf stands at its path, and at
/// every other path stands the leaf that stood there before, or none as before.
pub proof fn lemma_insert_lookup(
    v: NodeView,
    path: Seq<Seq<char>>,
    cfg: NodeConfigView,
    q: Seq<Seq<char>>,
)
    requires
        path.len() > 0,
        insert_spec(v, path, cfg) is Ok,
    ensures
        q == path ==> node_at(insert_spec(v, path, cfg)->Ok_0, q) == Some(resolved(path, cfg)),
        q != path ==> leaf_at(insert_spec(v, path, cfg)->Ok_0, q) == leaf_at(v, q),
    decreases path.len(),
{
    let v2 = insert_spec(v, path, cfg)->Ok_0;
    let m = v->Branch_0;
    let k = path[0];
    if path.len() == 1 {
        let leaf = cfg.leaf(k);
        assert(v2 == NodeView::Branch(m.insert(k, leaf)));
        if q == path {
            assert(path.drop_last() =~= Seq::empty());
            assert(cfg.parent_path + path.drop_last() =~= cfg.parent_path);
            assert(node_at(leaf, q.skip(1)) == Some(leaf));
        } else if q.len() > 0 && q[0] == k {
            if q.len() == 1 {
                assert(q =~= path);
            }
            lemma_nothing_below_leaf(leaf, q.skip(1));
        }
    } else {
        let child = if m.contains_key(k) {
            m[k]
        } else {
            NodeView::Branch(Map::empty())
        };
        let below = cfg.below(seq![k]);
        let rest = path.skip(1);
        let c = insert_spec(child, rest, below)->Ok_0;
        assert(v2 == NodeView::Branch(m.insert(k, c)));
        if q == path {
            lemma_insert_lookup(child, rest, below, rest);
            assert(below.parent_path + rest.drop_last() =~= cfg.parent_path + path.drop_last());
            assert(rest.last() == path.last());
        } else if q.len() > 0 && q[0] == k {
            if q.skip(1) == rest {
                assert(q =~= seq![k] + q.skip(1));
                assert(path =~= seq![k] + rest);
            }
            lemma_insert_lookup(child, rest, below, q.skip(1));
            if !m.contains_key(k) {
                lemma_nothing_below_empty(q.skip(1));
            }
        }
    }
}

/// Below a branch without children stands no leaf.
pub proof fn lemma_nothing_below_empty(path: Seq<Seq<char>>)
    ensures
        leaf_at(NodeView::Branch(Map::empty()), path) is None,
{
}

/// A branch without children takes every target.
pub proof fn lemma_insert_into_empty(path: Seq<Seq<char>>, cfg: NodeConfigView)
    ensures
        insert_spec(NodeView::Branch(Map::empty()), path, cfg) is Ok,
    decreases path.len(),
{
    if path.len() > 1 {
        lemma_insert_into_empty(path.skip(1), cfg.below(seq![path[0]]));
    }
}

} // verus!
