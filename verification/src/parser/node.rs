//! One level of the tree of targets, and how a target gets into it.

use vstd::prelude::*;
use crate::config::base_dir::BaseDir;
use crate::config::{TargetConfig, TargetConfigView, path_view};
use crate::order::{seg_lt, Rank, compare_segments};

verus! {

/// A node is either a branch, which holds named children in the order of
/// their names, or a leaf, which says what is linked and from where.
#[derive(Debug, PartialEq, Eq)]
pub enum Node {
    /// The children with their names, in the order of the names.
    Branch(Vec<(String, Node)>),
    Leaf {
        /// The source path: the source root, then the path from the tree's root.
        target: Vec<String>,
        /// The anchor, and the link's path below it.
        link: (BaseDir, Vec<String>),
    },
}

/// What a node holds: a branch is a map from segments to children.
pub enum NodeView {
    Branch(Map<Seq<char>, NodeView>),
    Leaf { target: Seq<Seq<char>>, link: (BaseDir, Seq<Seq<char>>) },
}

/// Whether one of the children is named `k`.
pub open spec fn has_child(cs: Seq<(String, Node)>, k: Seq<char>) -> bool {
    exists|i: int| 0 <= i < cs.len() && (#[trigger] cs[i]).0@ == k
}

/// The place of a child named `k`, where there is one.
pub open spec fn child_index(cs: Seq<(String, Node)>, k: Seq<char>) -> int {
    choose|i: int| 0 <= i < cs.len() && (#[trigger] cs[i]).0@ == k
}

/// The children's names rise strictly, so that no name occurs twice.
pub open spec fn names_rise(cs: Seq<(String, Node)>) -> bool {
    forall|i: int, j: int|
        0 <= i < j < cs.len() ==> seg_lt((#[trigger] cs[i]).0@, (#[trigger] cs[j]).0@)
}

/// The children as a map from their names.
pub open spec fn children_view(cs: Seq<(String, Node)>) -> Map<Seq<char>, NodeView>
    decreases cs,
{
    Map::new(
        |k: Seq<char>| has_child(cs, k),
        |k: Seq<char>|
            {
                let i = child_index(cs, k);
                if 0 <= i < cs.len() {
                    cs[i].1.view()
                } else {
                    NodeView::Branch(Map::empty())
                }
            },
    )
}

impl View for Node {
    type V = NodeView;

    open spec fn view(&self) -> NodeView
        decreases self,
    {
        match self {
            Node::Branch(children) => NodeView::Branch(children_view(children@)),
            Node::Leaf { target, link } => NodeView::Leaf {
                target: path_view(target@),
                link: (link.0, path_view(link.1@)),
            },
        }
    }
}

/// What an insertion resolves a target against.
pub struct NodeConfig<'a> {
    /// The target's own settings.
    pub target_config: TargetConfig,
    /// The source root and the anchor of targets that name none.
    pub defaults: (&'a Vec<String>, BaseDir),
    /// The path from the tree's root to the node that is inserted into.
    pub parent_path: Vec<String>,
}

/// A `NodeConfig` over sequences.
pub struct NodeConfigView {
    pub target_config: TargetConfigView,
    pub defaults: (Seq<Seq<char>>, BaseDir),
    pub parent_path: Seq<Seq<char>>,
}

impl<'a> View for NodeConfig<'a> {
    type V = NodeConfigView;

    open spec fn view(&self) -> NodeConfigView {
        NodeConfigView {
            target_config: self.target_config@,
            defaults: (path_view(self.defaults.0@), self.defaults.1),
            parent_path: path_view(self.parent_path@),
        }
    }
}

impl NodeConfigView {
    /// The same settings, seen from `path` further down.
    pub open spec fn below(self, path: Seq<Seq<char>>) -> NodeConfigView {
        NodeConfigView { parent_path: self.parent_path + path, ..self }
    }

    /// The anchor of the link: the target's own if it names one.
    pub open spec fn anchor(self) -> BaseDir {
        match self.target_config.base_dir {
            Some(a) => a,
            None => self.defaults.1,
        }
    }

    /// The link's last part: the target's own if it names one, else `key`.
    pub open spec fn link_name(self, key: Seq<char>) -> Seq<Seq<char>> {
        match self.target_config.link {
            Some(l) => l,
            None => seq![key],
        }
    }

    /// The leaf that a target whose last segment is `key` resolves to.
    pub open spec fn leaf(self, key: Seq<char>) -> NodeView {
        NodeView::Leaf {
            target: self.defaults.0 + self.parent_path + seq![key],
            link: (self.anchor(), self.parent_path + self.link_name(key)),
        }
    }
}

/// Two targets of which one lies below the other: `path` leads to the node
/// that stands in the way.
#[derive(Clone, Debug, PartialEq, Eq)]
pub struct PathConflict {
    pub path: Vec<String>,
}

/// The node after `path` is inserted below it, or the path of the node that
/// stands in the way: a leaf on the way down, or a branch where the leaf
/// would go.
pub open spec fn insert_spec(v: NodeView, path: Seq<Seq<char>>, cfg: NodeConfigView) -> Result<
    NodeView,
    Seq<Seq<char>>,
>
    decreases path.len(),
{
    match v {
        NodeView::Leaf { .. } => Err(cfg.parent_path),
        NodeView::Branch(m) => if path.len() == 0 {
            Ok(v)
        } else if path.len() == 1 {
            if m.contains_key(path[0]) && m[path[0]] is Branch {
                Err(cfg.parent_path.push(path[0]))
            } else {
                Ok(NodeView::Branch(m.insert(path[0], cfg.leaf(path[0]))))
            }
        } else {
            let child = if m.contains_key(path[0]) {
                m[path[0]]
            } else {
                NodeView::Branch(Map::empty())
            };
            match insert_spec(child, path.skip(1), cfg.below(seq![path[0]])) {
                Ok(c) => Ok(NodeView::Branch(m.insert(path[0], c))),
                Err(e) => Err(e),
            }
        },
    }
}

/// A child is found under its name, and under no other place.
pub proof fn lemma_child_found(cs: Seq<(String, Node)>, i: int)
    requires
        names_rise(cs),
        0 <= i < cs.len(),
    ensures
        has_child(cs, cs[i].0@),
        child_index(cs, cs[i].0@) == i,
        children_view(cs).contains_key(cs[i].0@),
        children_view(cs)[cs[i].0@] == cs[i].1@,
{
    let k = cs[i].0@;
    let j = child_index(cs, k);
    crate::order::lemma_seg_lt_irreflexive(k);
    assert(j == i);
}

/// A name that falls between two neighbours is the name of no child.
pub proof fn lemma_child_absent(cs: Seq<(String, Node)>, pos: int, k: Seq<char>)
    requires
        0 <= pos <= cs.len(),
        forall|j: int| 0 <= j < pos ==> seg_lt((#[trigger] cs[j]).0@, k),
        forall|j: int| pos <= j < cs.len() ==> seg_lt(k, (#[trigger] cs[j]).0@),
    ensures
        !has_child(cs, k),
        !children_view(cs).contains_key(k),
{
    crate::order::lemma_seg_lt_irreflexive(k);
}

/// A new child put in its place is one more entry of the map.
pub proof fn lemma_child_added(cs: Seq<(String, Node)>, pos: int, e: (String, Node))
    requires
        names_rise(cs),
        0 <= pos <= cs.len(),
        forall|j: int| 0 <= j < pos ==> seg_lt((#[trigger] cs[j]).0@, e.0@),
        forall|j: int| pos <= j < cs.len() ==> seg_lt(e.0@, (#[trigger] cs[j]).0@),
    ensures
        names_rise(cs.insert(pos, e)),
        children_view(cs.insert(pos, e)) == children_view(cs).insert(e.0@, e.1@),
{
    let t = cs.insert(pos, e);
    assert forall|i: int, j: int| 0 <= i < j < t.len() implies seg_lt(
        (#[trigger] t[i]).0@,
        (#[trigger] t[j]).0@,
    ) by {
        let a = if i < pos { i } else { i - 1 };
        let b = if j < pos { j } else { j - 1 };
        if i != pos && j != pos {
            assert(seg_lt(cs[a].0@, cs[b].0@));
        } else if i == pos {
            assert(seg_lt(e.0@, cs[b].0@));
        } else {
            assert(seg_lt(cs[a].0@, e.0@));
        }
    }
    lemma_child_absent(cs, pos, e.0@);
    lemma_child_found(t, pos);
    let want = children_view(cs).insert(e.0@, e.1@);
    assert forall|k: Seq<char>| children_view(t).contains_key(k) <==> want.contains_key(k) by {
        if has_child(t, k) {
            let i = child_index(t, k);
            if i != pos {
                let a = if i < pos { i } else { i - 1 };
                assert(cs[a].0@ == k);
            }
        }
        if has_child(cs, k) {
            let a = child_index(cs, k);
            let i = if a < pos { a } else { a + 1 };
            assert(t[i].0@ == k);
        }
    }
    assert forall|k: Seq<char>| children_view(t).contains_key(k) implies children_view(t)[k]
        == want[k] by {
        let i = child_index(t, k);
        lemma_child_found(t, i);
        if i != pos {
            let a = if i < pos { i } else { i - 1 };
            lemma_child_found(cs, a);
        }
    }
    assert(children_view(t) =~= want);
}

/// A child put in the place of one of its name takes that entry of the map.
pub proof fn lemma_child_replaced(cs: Seq<(String, Node)>, pos: int, e: (String, Node))
    requires
        names_rise(cs),
        0 <= pos < cs.len(),
        cs[pos].0@ == e.0@,
    ensures
        names_rise(cs.update(pos, e)),
        children_view(cs.update(pos, e)) == children_view(cs).insert(e.0@, e.1@),
{
    let t = cs.update(pos, e);
    assert forall|i: int, j: int| 0 <= i < j < t.len() implies seg_lt(
        (#[trigger] t[i]).0@,
        (#[trigger] t[j]).0@,
    ) by {
        assert(seg_lt(cs[i].0@, cs[j].0@));
    }
    lemma_child_found(t, pos);
    lemma_child_found(cs, pos);
    let want = children_view(cs).insert(e.0@, e.1@);
    assert forall|k: Seq<char>| children_view(t).contains_key(k) <==> want.contains_key(k) by {
        if has_child(t, k) {
            let i = child_index(t, k);
            assert(cs[i].0@ == k);
        }
        if has_child(cs, k) {
            let a = child_index(cs, k);
            assert(t[a].0@ == k);
        }
    }
    assert forall|k: Seq<char>| children_view(t).contains_key(k) implies children_view(t)[k]
        == want[k] by {
        let i = child_index(t, k);
        lemma_child_found(t, i);
        if i != pos {
            lemma_child_found(cs, i);
        }
    }
    assert(children_view(t) =~= want);
}

/// The order leaves no choice: two branches in order that hold the same
/// children under the same names hold them at the same places.
pub proof fn lemma_places_determined(a: Seq<(String, Node)>, b: Seq<(String, Node)>)
    requires
        names_rise(a),
        names_rise(b),
        children_view(a) == children_view(b),
    ensures
        a.len() == b.len(),
        forall|i: int| 0 <= i < a.len() ==> (#[trigger] a[i]).0@ == b[i].0@ && a[i].1@ == b[i].1@,
    decreases a.len(),
{
    if a.len() == 0 {
        if b.len() > 0 {
            lemma_child_found(b, 0);
            assert(children_view(a).contains_key(b[0].0@));
        }
    } else {
        let la = a.len() - 1;
        let ka = a[la].0@;
        lemma_child_found(a, la);
        assert(children_view(b).contains_key(ka));
        let lb = b.len() - 1;
        let kb = b[lb].0@;
        lemma_child_found(b, lb);
        assert(children_view(a).contains_key(kb));
        let i = child_index(a, kb);
        let j = child_index(b, ka);
        assert(ka == kb) by {
            if ka != kb {
                assert(seg_lt(a[i].0@, a[la].0@));
                assert(seg_lt(b[j].0@, b[lb].0@));
                crate::order::lemma_seg_lt_transitive(ka, kb, ka);
                crate::order::lemma_seg_lt_irreflexive(ka);
            }
        }
        let a0 = a.drop_last();
        let b0 = b.drop_last();
        assert(names_rise(a0)) by {
            assert forall|x: int, y: int| 0 <= x < y < a0.len() implies seg_lt(
                (#[trigger] a0[x]).0@,
                (#[trigger] a0[y]).0@,
            ) by {
                assert(seg_lt(a[x].0@, a[y].0@));
            }
        }
        assert(names_rise(b0)) by {
            assert forall|x: int, y: int| 0 <= x < y < b0.len() implies seg_lt(
                (#[trigger] b0[x]).0@,
                (#[trigger] b0[y]).0@,
            ) by {
                assert(seg_lt(b[x].0@, b[y].0@));
            }
        }
        crate::order::lemma_seg_lt_irreflexive(ka);
        assert forall|k: Seq<char>| children_view(a0).contains_key(k) <==> children_view(
            b0,
        ).contains_key(k) by {
            if has_child(a0, k) {
                let x = child_index(a0, k);
                assert(a[x].0@ == k);
                assert(seg_lt(a[x].0@, a[la].0@));
                assert(children_view(b).contains_key(k));
                let y = child_index(b, k);
                assert(b0[y].0@ == k);
            }
            if has_child(b0, k) {
                let y = child_index(b0, k);
                assert(b[y].0@ == k);
                assert(seg_lt(b[y].0@, b[lb].0@));
                assert(children_view(a).contains_key(k));
                let x = child_index(a, k);
                assert(a0[x].0@ == k);
            }
        }
        assert forall|k: Seq<char>| children_view(a0).contains_key(k) implies children_view(a0)[k]
            == children_view(b0)[k] by {
            let x = child_index(a0, k);
            let y = child_index(b0, k);
            lemma_child_found(a0, x);
            lemma_child_found(b0, y);
            lemma_child_found(a, x);
            lemma_child_found(b, y);
        }
        assert(children_view(a0) =~= children_view(b0));
        lemma_places_determined(a0, b0);
        assert forall|x: int| 0 <= x < a.len() implies (#[trigger] a[x]).0@ == b[x].0@ && a[x].1@
            == b[x].1@ by {
            if x < la {
                assert(a0[x] == a[x] && b0[x] == b[x]);
            }
        }
    }
}

/// Appends copies of the first `upto` segments of `src` to `dst`.
fn extend_cloned(dst: &mut Vec<String>, src: &Vec<String>, upto: usize)
    requires
        upto <= src@.len(),
    ensures
        final(dst)@ == old(dst)@ + src@.subrange(0, upto as int),
{
    let mut i: usize = 0;
    while i < upto
        invariant
            i <= upto <= src@.len(),
            dst@ == old(dst)@ + src@.subrange(0, i as int),
        decreases upto - i,
    {
        dst.push(src[i].clone());
        i = i + 1;
        assert(dst@ =~= old(dst)@ + src@.subrange(0, i as int));
    }
}

/// The first `upto` segments of `path` behind `parent`.
fn joined(parent: &Vec<String>, path: &Vec<String>, upto: usize) -> (r: Vec<String>)
    requires
        upto <= path@.len(),
    ensures
        r@ == parent@ + path@.subrange(0, upto as int),
        path_view(r@) == path_view(parent@) + path_view(path@).subrange(0, upto as int),
{
    let mut r: Vec<String> = Vec::new();
    extend_cloned(&mut r, parent, parent.len());
    extend_cloned(&mut r, path, upto);
    proof {
        assert(parent@.subrange(0, parent@.len() as int) =~= parent@);
        assert(r@ =~= parent@ + path@.subrange(0, upto as int));
        assert(path_view(r@) =~= path_view(parent@) + path_view(path@).subrange(0, upto as int));
    }
    r
}

/// Where among the children the name `key` belongs, and whether a child of
/// that name is there.
fn locate(children: &Vec<(String, Node)>, key: &String) -> (r: (usize, bool))
    requires
        names_rise(children@),
    ensures
        r.0 <= children@.len(),
        forall|j: int| 0 <= j < r.0 ==> seg_lt((#[trigger] children@[j]).0@, key@),
        r.1 ==> r.0 < children@.len() && children@[r.0 as int].0@ == key@,
        !r.1 ==> forall|j: int| r.0 <= j < children@.len() ==> seg_lt(key@, (#[trigger] children@[j]).0@),
{
    let mut i: usize = 0;
    while i < children.len()
        invariant
            i <= children@.len(),
            names_rise(children@),
            forall|j: int| 0 <= j < i ==> seg_lt((#[trigger] children@[j]).0@, key@),
        decreases children@.len() - i,
    {
        match compare_segments(children[i].0.as_str(), key.as_str()) {
            Rank::Before => {},
            Rank::Same => {
                return (i, true);
            },
            Rank::After => {
                proof {
                    assert forall|j: int| i <= j < children@.len() implies seg_lt(
                        key@,
                        (#[trigger] children@[j]).0@,
                    ) by {
                        if j > i {
                            crate::order::lemma_seg_lt_transitive(
                                key@,
                                children@[i as int].0@,
                                children@[j].0@,
                            );
                        }
                    }
                }
                return (i, false);
            },
        }
        i = i + 1;
    }
    (i, false)
}

impl Node {
    /// In every branch of the node the children stand in the order of their names.
    pub open spec fn well_formed(&self) -> bool
        decreases self,
    {
        match self {
            Node::Branch(children) => {
                &&& names_rise(children@)
                &&& forall|i: int| 0 <= i < children@.len() ==> (#[trigger] children@[i]).1.well_formed()
            },
            Node::Leaf { .. } => true,
        }
    }

    /// A leaf for the target `target` below `parent_path`, linked as `link`
    /// below the same path under `dest_dir`.
    pub fn new_leaf(
        src_dir: &Vec<String>,
        dest_dir: BaseDir,
        parent_path: &Vec<String>,
        target: &String,
        link: &Vec<String>,
    ) -> (r: Node)
        ensures
            r@ == (NodeView::Leaf {
                target: path_view(src_dir@) + path_view(parent_path@) + seq![target@],
                link: (dest_dir, path_view(parent_path@) + path_view(link@)),
            }),
            r.well_formed(),
    {
        let mut t: Vec<String> = Vec::new();
        extend_cloned(&mut t, src_dir, src_dir.len());
        extend_cloned(&mut t, parent_path, parent_path.len());
        t.push(target.clone());
        let mut l: Vec<String> = Vec::new();
        extend_cloned(&mut l, parent_path, parent_path.len());
        extend_cloned(&mut l, link, link.len());
        proof {
            assert(src_dir@.subrange(0, src_dir@.len() as int) =~= src_dir@);
            assert(parent_path@.subrange(0, parent_path@.len() as int) =~= parent_path@);
            assert(link@.subrange(0, link@.len() as int) =~= link@);
            assert(path_view(t@) =~= path_view(src_dir@) + path_view(parent_path@) + seq![
                target@,
            ]);
            assert(path_view(l@) =~= path_view(parent_path@) + path_view(link@));
        }
        Node::Leaf { target: t, link: (dest_dir, l) }
    }

    /// The leaf that the target ending at `path[depth]` resolves to.
    fn resolved_leaf(path: &Vec<String>, depth: usize, config: &NodeConfig) -> (r: Node)
        requires
            depth < path@.len(),
        ensures
            r@ == config@.below(path_view(path@).subrange(0, depth as int)).leaf(
                path@[depth as int]@,
            ),
            r.well_formed(),
    {
        let parent = joined(&config.parent_path, path, depth);
        let dest_dir = match config.target_config.base_dir {
            Some(a) => a,
            None => config.defaults.1,
        };
        match &config.target_config.link {
            Some(l) => Node::new_leaf(config.defaults.0, dest_dir, &parent, &path[depth], l),
            None => {
                let mut l: Vec<String> = Vec::new();
                l.push(path[depth].clone());
                assert(path_view(l@) =~= seq![path@[depth as int]@]);
                Node::new_leaf(config.defaults.0, dest_dir, &parent, &path[depth], &l)
            },
        }
    }

    /// A branch that holds the target `path` and nothing else.
    pub fn new_branch(path: Vec<String>, config: NodeConfig) -> (r: Node)
        ensures
            r.well_formed(),
            insert_spec(NodeView::Branch(Map::empty()), path_view(path@), config@) == Ok::<
                NodeView,
                Seq<Seq<char>>,
            >(r@),
    {
        let mut node = Node::Branch(Vec::new());
        proof {
            assert(children_view(Seq::<(String, Node)>::empty()) =~= Map::empty());
            crate::lookup::lemma_insert_into_empty(path_view(path@), config@);
        }
        let _ = node.insert(path, config);
        node
    }

    /// Inserts what is left of `path` from `depth` on below this node, which
    /// stands `depth` segments below the node that `config` speaks of.
    fn insert_from(&mut self, path: &Vec<String>, depth: usize, config: &NodeConfig) -> (r: Result<
        (),
        PathConflict,
    >)
        requires
            depth <= path@.len(),
            old(self).well_formed(),
        ensures
            final(self).well_formed(),
            match insert_spec(
                old(self)@,
                path_view(path@).skip(depth as int),
                config@.below(path_view(path@).subrange(0, depth as int)),
            ) {
                Ok(v) => r is Ok && final(self)@ == v,
                Err(e) => r is Err && path_view(r->Err_0.path@) == e && final(self)@ == old(self)@,
            },
        decreases path@.len() - depth,
    {
        let ghost p = path_view(path@);
        let ghost cfg = config@.below(p.subrange(0, depth as int));
        match self {
            Node::Leaf { .. } => Err(PathConflict { path: joined(&config.parent_path, path, depth) }),
            Node::Branch(children) => {
                if depth == path.len() {
                    return Ok(());
                }
                let ghost cs = children@;
                let ghost key = path@[depth as int]@;
                proof {
                    assert(p.skip(depth as int)[0] == key);
                    assert(p.skip(depth as int).skip(1) =~= p.skip(depth + 1));
                    assert(cfg.below(seq![key]).parent_path =~= config@.below(
                        p.subrange(0, depth + 1),
                    ).parent_path);
                    assert(cfg.parent_path.push(key) =~= config@.parent_path + p.subrange(
                        0,
                        depth + 1,
                    ));
                }
                let (pos, found) = locate(children, &path[depth]);
                proof {
                    if found {
                        lemma_child_found(cs, pos as int);
                    } else {
                        lemma_child_absent(cs, pos as int, key);
                    }
                }
                if depth + 1 == path.len() {
                    if found {
                        match &children[pos].1 {
                            Node::Branch(_) => {
                                return Err(
                                    PathConflict {
                                        path: joined(&config.parent_path, path, depth + 1),
                                    },
                                );
                            },
                            Node::Leaf { .. } => {},
                        }
                        let leaf = Node::resolved_leaf(path, depth, config);
                        let entry = (path[depth].clone(), leaf);
                        proof {
                            lemma_child_replaced(cs, pos as int, entry);
                        }
                        children.set(pos, entry);
                    } else {
                        let leaf = Node::resolved_leaf(path, depth, config);
                        let entry = (path[depth].clone(), leaf);
                        proof {
                            lemma_child_added(cs, pos as int, entry);
                        }
                        children.insert(pos, entry);
                    }
                    Ok(())
                } else if found {
                    let mut entry = children.remove(pos);
                    let r = entry.1.insert_from(path, depth + 1, config);
                    proof {
                        lemma_child_replaced(cs, pos as int, entry);
                        assert(cs.remove(pos as int).insert(pos as int, entry) =~= cs.update(
                            pos as int,
                            entry,
                        ));
                        if r is Err {
                            assert(children_view(cs).insert(key, entry.1@) =~= children_view(cs));
                        }
                    }
                    children.insert(pos, entry);
                    r
                } else {
                    let mut child = Node::Branch(Vec::new());
                    proof {
                        assert(children_view(Seq::<(String, Node)>::empty()) =~= Map::empty());
                    }
                    let r = child.insert_from(path, depth + 1, config);
                    if r.is_ok() {
                        let entry = (path[depth].clone(), child);
                        proof {
                            lemma_child_added(cs, pos as int, entry);
                        }
                        children.insert(pos, entry);
                    }
                    r
                }
            },
        }
    }

    /// Inserts the target `path` below this node. A leaf takes the place of
    /// a leaf of the same path; an empty path changes nothing.
    ///
    /// Fails, and changes nothing, where a leaf stands on the way or a branch
    /// stands where the leaf would go.
    pub fn insert(&mut self, path: Vec<String>, config: NodeConfig) -> (r: Result<(), PathConflict>)
        requires
            old(self).well_formed(),
        ensures
            final(self).well_formed(),
            match insert_spec(old(self)@, path_view(path@), config@) {
                Ok(v) => r is Ok && final(self)@ == v,
                Err(e) => r is Err && path_view(r->Err_0.path@) == e && final(self)@ == old(self)@,
            },
    {
        proof {
            assert(path_view(path@).skip(0) =~= path_view(path@));
            assert(config@.below(path_view(path@).subrange(0, 0)).parent_path
                =~= config@.parent_path);
        }
        self.insert_from(&path, 0, &config)
    }
}

} // verus!
