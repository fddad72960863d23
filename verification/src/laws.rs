//! What holds of every tree that insertions build.

use vstd::prelude::*;
use crate::config::base_dir::BaseDir;
use crate::config::TargetConfigView;
use crate::parser::node::{NodeView, NodeConfigView, insert_spec};
use crate::lookup::{node_at, leaf_at, leaf_paths, resolved, lemma_insert_lookup};
use crate::parser::tree::{root_config, targets_rooted, lemma_insert_keeps_targets};

verus! {

/// The leaf of an inserted target: its target is the source root, the
/// parent path and the target's own path; its link stands under the
/// resolved anchor, where the last segment gives way to the resolved name.
pub proof fn lemma_inserted_leaf(v: NodeView, path: Seq<Seq<char>>, cfg: NodeConfigView)
    requires
        path.len() > 0,
        insert_spec(v, path, cfg) is Ok,
    ensures
        leaf_at(insert_spec(v, path, cfg)->Ok_0, path) == Some(
            NodeView::Leaf {
                target: cfg.defaults.0 + cfg.parent_path + path,
                link: (
                    cfg.anchor(),
                    cfg.parent_path + path.drop_last() + cfg.link_name(path.last()),
                ),
            },
        ),
{
    lemma_insert_lookup(v, path, cfg, path);
    let leaf = resolved(path, cfg);
    assert(leaf->target =~= cfg.defaults.0 + cfg.parent_path + path);
    assert(leaf->link.1 =~= cfg.parent_path + path.drop_last() + cfg.link_name(path.last()));
}

/// A target with a link of its own is linked under that name below its
/// parent path, whatever its last segment is.
pub proof fn lemma_link_override(
    v: NodeView,
    path: Seq<Seq<char>>,
    cfg: NodeConfigView,
    link: Seq<Seq<char>>,
)
    requires
        path.len() > 0,
        cfg.target_config.link == Some(link),
        insert_spec(v, path, cfg) is Ok,
    ensures
        leaf_at(insert_spec(v, path, cfg)->Ok_0, path) is Some,
        leaf_at(insert_spec(v, path, cfg)->Ok_0, path)->Some_0->link.1 == cfg.parent_path
            + path.drop_last() + link,
{
    lemma_inserted_leaf(v, path, cfg);
}

/// A target with an anchor of its own is linked under it, and every other
/// target under the default anchor.
pub proof fn lemma_anchor_override(v: NodeView, path: Seq<Seq<char>>, cfg: NodeConfigView)
    requires
        path.len() > 0,
        insert_spec(v, path, cfg) is Ok,
    ensures
        leaf_at(insert_spec(v, path, cfg)->Ok_0, path) is Some,
        leaf_at(insert_spec(v, path, cfg)->Ok_0, path)->Some_0->link.0 == (
        match cfg.target_config.base_dir {
            Some(a) => a,
            None => cfg.defaults.1,
        }),
{
    lemma_inserted_leaf(v, path, cfg);
}

/// A target inserted again takes the place of the first insertion whole:
/// the tree is the one that the second insertion alone gives.
pub proof fn lemma_reinsert_replaces(
    v: NodeView,
    path: Seq<Seq<char>>,
    first: NodeConfigView,
    second: NodeConfigView,
)
    requires
        insert_spec(v, path, first) is Ok,
    ensures
        insert_spec(v, path, second) is Ok,
        insert_spec(insert_spec(v, path, first)->Ok_0, path, second) == insert_spec(
            v,
            path,
            second,
        ),
    decreases path.len(),
{
    let m = v->Branch_0;
    if path.len() == 1 {
        let k = path[0];
        assert(m.insert(k, first.leaf(k)).insert(k, second.leaf(k)) =~= m.insert(
            k,
            second.leaf(k),
        ));
    } else if path.len() > 1 {
        let k = path[0];
        let child = if m.contains_key(k) {
            m[k]
        } else {
            NodeView::Branch(Map::empty())
        };
        let rest = path.skip(1);
        lemma_reinsert_replaces(child, rest, first.below(seq![k]), second.below(seq![k]));
        let c1 = insert_spec(child, rest, first.below(seq![k]))->Ok_0;
        let c2 = insert_spec(child, rest, second.below(seq![k]))->Ok_0;
        assert(m.insert(k, c1).insert(k, c2) =~= m.insert(k, c2));
    }
}

/// The tree after the targets are inserted one after the other into `v`,
/// or the first conflict.
pub open spec fn insert_all(
    v: NodeView,
    defaults: (Seq<Seq<char>>, BaseDir),
    targets: Seq<(Seq<Seq<char>>, TargetConfigView)>,
) -> Result<NodeView, Seq<Seq<char>>>
    decreases targets.len(),
{
    if targets.len() == 0 {
        Ok(v)
    } else {
        match insert_all(v, defaults, targets.drop_last()) {
            Ok(u) => insert_spec(u, targets.last().0, root_config(defaults, targets.last().1)),
            Err(e) => Err(e),
        }
    }
}

/// The paths of the targets.
pub open spec fn inserted_paths(targets: Seq<(Seq<Seq<char>>, TargetConfigView)>) -> Set<
    Seq<Seq<char>>,
> {
    Set::new(
        |p: Seq<Seq<char>>| exists|i: int| 0 <= i < targets.len() && (#[trigger] targets[i]).0 == p,
    )
}

/// Where targets are inserted into an empty tree without a conflict, the
/// leaves stand at the inserted paths and nowhere else, so that there are as
/// many leaves as different paths, and every leaf's target is the source
/// root followed by its path.
pub proof fn lemma_leaves_are_the_inserted_paths(
    defaults: (Seq<Seq<char>>, BaseDir),
    targets: Seq<(Seq<Seq<char>>, TargetConfigView)>,
)
    requires
        forall|i: int| 0 <= i < targets.len() ==> (#[trigger] targets[i]).0.len() > 0,
        insert_all(NodeView::Branch(Map::empty()), defaults, targets) is Ok,
    ensures
        leaf_paths(insert_all(NodeView::Branch(Map::empty()), defaults, targets)->Ok_0)
            == inserted_paths(targets),
        inserted_paths(targets).finite(),
        inserted_paths(targets).len() <= targets.len(),
        (forall|i: int, j: int|
            0 <= i < j < targets.len() ==> (#[trigger] targets[i]).0 != (#[trigger] targets[j]).0)
            ==> inserted_paths(targets).len() == targets.len(),
        targets_rooted(
            insert_all(NodeView::Branch(Map::empty()), defaults, targets)->Ok_0,
            defaults.0,
        ),
    decreases targets.len(),
{
    let empty = NodeView::Branch(Map::empty());
    let t = insert_all(empty, defaults, targets)->Ok_0;
    if targets.len() == 0 {
        assert(leaf_paths(t) =~= Set::empty()) by {
            assert forall|p: Seq<Seq<char>>| leaf_at(empty, p) is None by {
                crate::lookup::lemma_nothing_below_empty(p);
            }
        }
        assert(inserted_paths(targets) =~= Set::empty());
    } else {
        let before = targets.drop_last();
        let u = insert_all(empty, defaults, before)->Ok_0;
        let p = targets.last().0;
        let cfg = root_config(defaults, targets.last().1);
        assert forall|i: int| 0 <= i < before.len() implies (#[trigger] before[i]).0.len() > 0 by {
            assert(before[i] == targets[i]);
        }
        lemma_leaves_are_the_inserted_paths(defaults, before);
        lemma_insert_keeps_targets(u, p, defaults, targets.last().1);
        assert(leaf_paths(t) =~= leaf_paths(u).insert(p)) by {
            assert forall|q: Seq<Seq<char>>|
                leaf_paths(t).contains(q) <==> leaf_paths(u).insert(p).contains(q) by {
                lemma_insert_lookup(u, p, cfg, q);
            }
        }
        assert(inserted_paths(targets) =~= inserted_paths(before).insert(p)) by {
            assert forall|q: Seq<Seq<char>>|
                inserted_paths(targets).contains(q) <==> inserted_paths(before).insert(p).contains(
                    q,
                ) by {
                if inserted_paths(targets).contains(q) {
                    let i = choose|i: int| 0 <= i < targets.len() && (#[trigger] targets[i]).0 == q;
                    if i < before.len() {
                        assert(before[i].0 == q);
                    }
                }
                if inserted_paths(before).contains(q) {
                    let i = choose|i: int| 0 <= i < before.len() && (#[trigger] before[i]).0 == q;
                    assert(targets[i].0 == q);
                }
                if q == p {
                    assert(targets[targets.len() - 1].0 == q);
                }
            }
        }
        if forall|i: int, j: int|
            0 <= i < j < targets.len() ==> (#[trigger] targets[i]).0 != (#[trigger] targets[j]).0 {
            assert forall|i: int, j: int| 0 <= i < j < before.len() implies (#[trigger] before[i]).0
                != (#[trigger] before[j]).0 by {
                assert(before[i] == targets[i] && before[j] == targets[j]);
            }
            if inserted_paths(before).contains(p) {
                let i = choose|i: int| 0 <= i < before.len() && (#[trigger] before[i]).0 == p;
                assert(targets[i].0 == targets[targets.len() - 1].0);
            }
        }
    }
}

/// The node `n` segments down `path` stands in the way of the target
/// `path`: it is a leaf above the target's place, or a branch at that place.
pub open spec fn stands_in_way(v: NodeView, path: Seq<Seq<char>>, n: int) -> bool {
    &&& 0 < n <= path.len()
    &&& match node_at(v, path.take(n)) {
        Some(x) => if n < path.len() {
            x is Leaf
        } else {
            x is Branch
        },
        None => false,
    }
}

/// Where a node stands in the way of a target, the insertion fails and
/// names that node's path.
pub proof fn lemma_conflict_names_the_node(
    v: NodeView,
    path: Seq<Seq<char>>,
    cfg: NodeConfigView,
    n: int,
)
    requires
        stands_in_way(v, path, n),
    ensures
        insert_spec(v, path, cfg) == Err::<NodeView, Seq<Seq<char>>>(
            cfg.parent_path + path.take(n),
        ),
    decreases path.len(),
{
    let k = path[0];
    assert(path.take(n)[0] == k);
    let m = v->Branch_0;
    let below = cfg.below(seq![k]);
    let rest = path.skip(1);
    assert(m.contains_key(k));
    if n == 1 {
        assert(path.take(n).skip(1) =~= Seq::empty());
        assert(node_at(m[k], path.take(n).skip(1)) == Some(m[k]));
        assert(cfg.parent_path.push(k) =~= cfg.parent_path + path.take(n));
        assert(below.parent_path =~= cfg.parent_path + path.take(n));
        if path.len() > 1 {
            assert(insert_spec(m[k], rest, below) == Err::<NodeView, Seq<Seq<char>>>(
                below.parent_path,
            ));
        }
    } else {
        assert(path.take(n).skip(1) =~= rest.take(n - 1));
        assert(stands_in_way(m[k], rest, n - 1));
        lemma_conflict_names_the_node(m[k], rest, below, n - 1);
        assert(below.parent_path + rest.take(n - 1) =~= cfg.parent_path + path.take(n));
    }
}

/// An insertion into a branch fails only where a node stands in the way.
pub proof fn lemma_conflict_has_a_node(v: NodeView, path: Seq<Seq<char>>, cfg: NodeConfigView)
    requires
        v is Branch,
        insert_spec(v, path, cfg) is Err,
    ensures
        exists|n: int| stands_in_way(v, path, n),
    decreases path.len(),
{
    let k = path[0];
    let m = v->Branch_0;
    let rest = path.skip(1);
    assert(path.take(1)[0] == k);
    assert(path.take(1).skip(1) =~= Seq::empty());
    if m.contains_key(k) {
        assert(node_at(m[k], path.take(1).skip(1)) == Some(m[k]));
        assert(node_at(v, path.take(1)) == Some(m[k]));
    }
    if path.len() == 1 {
        assert(stands_in_way(v, path, 1));
    } else if !m.contains_key(k) {
        crate::lookup::lemma_insert_into_empty(rest, cfg.below(seq![k]));
    } else if m[k] is Leaf {
        assert(stands_in_way(v, path, 1));
    } else {
        lemma_conflict_has_a_node(m[k], rest, cfg.below(seq![k]));
        let j = choose|j: int| stands_in_way(m[k], rest, j);
        assert(path.take(j + 1)[0] == k);
        assert(path.take(j + 1).skip(1) =~= rest.take(j));
        assert(stands_in_way(v, path, j + 1));
    }
}

/// Two different targets may be inserted in either order: where one order
/// succeeds the other does, and the tree is the same.
pub proof fn lemma_insert_commutes(
    v: NodeView,
    p: Seq<Seq<char>>,
    cp: NodeConfigView,
    q: Seq<Seq<char>>,
    cq: NodeConfigView,
)
    requires
        p != q,
        insert_spec(v, p, cp) is Ok,
        insert_spec(insert_spec(v, p, cp)->Ok_0, q, cq) is Ok,
    ensures
        insert_spec(v, q, cq) is Ok,
        insert_spec(insert_spec(v, q, cq)->Ok_0, p, cp) == insert_spec(
            insert_spec(v, p, cp)->Ok_0,
            q,
            cq,
        ),
    decreases p.len(),
{
    let m = v->Branch_0;
    let v1 = insert_spec(v, p, cp)->Ok_0;
    let v12 = insert_spec(v1, q, cq)->Ok_0;
    if p.len() == 0 {
        assert(v1 == v);
        assert(v12 is Branch);
    } else if q.len() == 0 {
        assert(v1 is Branch);
        assert(v12 == v1);
    } else if p[0] != q[0] {
        let a = if p.len() == 1 {
            cp.leaf(p[0])
        } else {
            insert_spec(
                if m.contains_key(p[0]) {
                    m[p[0]]
                } else {
                    NodeView::Branch(Map::empty())
                },
                p.skip(1),
                cp.below(seq![p[0]]),
            )->Ok_0
        };
        let b = if q.len() == 1 {
            cq.leaf(q[0])
        } else {
            insert_spec(
                if m.contains_key(q[0]) {
                    m[q[0]]
                } else {
                    NodeView::Branch(Map::empty())
                },
                q.skip(1),
                cq.below(seq![q[0]]),
            )->Ok_0
        };
        let m1 = m.insert(p[0], a);
        let m2 = m.insert(q[0], b);
        assert(v1 == NodeView::Branch(m1));
        assert(m1.contains_key(q[0]) == m.contains_key(q[0]));
        assert(m.contains_key(q[0]) ==> m1[q[0]] == m[q[0]]);
        assert(v12 == NodeView::Branch(m1.insert(q[0], b)));
        assert(insert_spec(v, q, cq) == Ok::<NodeView, Seq<Seq<char>>>(NodeView::Branch(m2)));
        assert(m2.contains_key(p[0]) == m.contains_key(p[0]));
        assert(m.contains_key(p[0]) ==> m2[p[0]] == m[p[0]]);
        assert(insert_spec(NodeView::Branch(m2), p, cp) == Ok::<NodeView, Seq<Seq<char>>>(
            NodeView::Branch(m2.insert(p[0], a)),
        ));
        assert(m2.insert(p[0], a) =~= m1.insert(q[0], b));
    } else {
        let k = p[0];
        let child = if m.contains_key(k) {
            m[k]
        } else {
            NodeView::Branch(Map::empty())
        };
        if p.len() == 1 && q.len() == 1 {
            assert(p =~= q);
        } else if p.len() == 1 {
            let leaf = cp.leaf(k);
            assert(v1 == NodeView::Branch(m.insert(k, leaf)));
            assert(insert_spec(leaf, q.skip(1), cq.below(seq![k])) is Err);
        } else if q.len() == 1 {
            let c1 = insert_spec(child, p.skip(1), cp.below(seq![k]))->Ok_0;
            assert(c1 is Branch);
            assert(v1 == NodeView::Branch(m.insert(k, c1)));
        } else if p.len() > 1 && q.len() > 1 {
            let rp = p.skip(1);
            let rq = q.skip(1);
            if rp == rq {
                assert(p =~= seq![k] + rp);
                assert(q =~= seq![k] + rq);
            }
            let bp = cp.below(seq![k]);
            let bq = cq.below(seq![k]);
            lemma_insert_commutes(child, rp, bp, rq, bq);
            let c1 = insert_spec(child, rp, bp)->Ok_0;
            let c12 = insert_spec(c1, rq, bq)->Ok_0;
            let c2 = insert_spec(child, rq, bq)->Ok_0;
            assert(v1 == NodeView::Branch(m.insert(k, c1)));
            assert(v12 == NodeView::Branch(m.insert(k, c1).insert(k, c12)));
            assert(insert_spec(v, q, cq) == Ok::<NodeView, Seq<Seq<char>>>(
                NodeView::Branch(m.insert(k, c2)),
            ));
            assert(insert_spec(NodeView::Branch(m.insert(k, c2)), p, cp) == Ok::<
                NodeView,
                Seq<Seq<char>>,
            >(NodeView::Branch(m.insert(k, c2).insert(k, c12))));
            assert(m.insert(k, c1).insert(k, c12) =~= m.insert(k, c12));
            assert(m.insert(k, c2).insert(k, c12) =~= m.insert(k, c12));
        }
    }
}

} // verus!
