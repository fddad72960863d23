//! The tree of all targets, with the defaults that every target is resolved against.

use vstd::prelude::*;
use crate::config::base_dir::BaseDir;
use crate::config::{TargetConfig, TargetConfigView, path_view};
use crate::parser::node::{Node, NodeView, NodeConfig, NodeConfigView, PathConflict, insert_spec, children_view};
use crate::lookup::{leaf_at, lemma_insert_lookup};

verus! {

/// What a target at the root of a tree is resolved against.
pub open spec fn root_config(
    defaults: (Seq<Seq<char>>, BaseDir),
    target_config: TargetConfigView,
) -> NodeConfigView {
    NodeConfigView { target_config, defaults, parent_path: Seq::empty() }
}

/// Every leaf's target is the source root followed by the leaf's path.
pub open spec fn targets_rooted(v: NodeView, source_root: Seq<Seq<char>>) -> bool {
    forall|p: Seq<Seq<char>>| (#[trigger] leaf_at(v, p)) is Some ==> leaf_at(v, p)->Some_0->target
        == source_root + p
}

/// An insertion at the root keeps every leaf's target rooted.
pub proof fn lemma_insert_keeps_targets(
    v: NodeView,
    path: Seq<Seq<char>>,
    defaults: (Seq<Seq<char>>, BaseDir),
    target_config: TargetConfigView,
)
    requires
        targets_rooted(v, defaults.0),
        insert_spec(v, path, root_config(defaults, target_config)) is Ok,
    ensures
        targets_rooted(insert_spec(v, path, root_config(defaults, target_config))->Ok_0, defaults.0),
{
    let cfg = root_config(defaults, target_config);
    let v2 = insert_spec(v, path, cfg)->Ok_0;
    if path.len() > 0 {
        assert forall|p: Seq<Seq<char>>| (#[trigger] leaf_at(v2, p)) is Some implies leaf_at(
            v2,
            p,
        )->Some_0->target == defaults.0 + p by {
            lemma_insert_lookup(v, path, cfg, p);
            if p == path {
                assert(defaults.0 + (cfg.parent_path + path.drop_last()) + seq![path.last()]
                    =~= defaults.0 + path);
            }
        }
    }
}

/// The targets of a repository, as a tree whose leaves say what to link.
#[derive(Debug, PartialEq, Eq)]
pub struct Tree {
    root: Node,
    source_root: Vec<String>,
    default_anchor: BaseDir,
}

impl View for Tree {
    type V = NodeView;

    /// The root node.
    closed spec fn view(&self) -> NodeView {
        self.root@
    }
}

impl Tree {
    /// The source root and the anchor of targets that name none.
    pub closed spec fn defaults(&self) -> (Seq<Seq<char>>, BaseDir) {
        (path_view(self.source_root@), self.default_anchor)
    }

    /// The root is a branch, every branch is in order, and every leaf's
    /// target is the source root followed by the leaf's path.
    pub closed spec fn well_formed(&self) -> bool {
        &&& self.root.well_formed()
        &&& self.root@ is Branch
        &&& targets_rooted(self.root@, path_view(self.source_root@))
    }

    /// In a tree every leaf's target is rooted, and the root is a branch.
    pub proof fn lemma_well_formed(&self)
        requires
            self.well_formed(),
        ensures
            self@ is Branch,
            targets_rooted(self@, self.defaults().0),
    {
    }

    /// A tree without targets.
    pub fn new(source_root: Vec<String>, default_anchor: BaseDir) -> (r: Tree)
        ensures
            r.well_formed(),
            r@ == NodeView::Branch(Map::empty()),
            r.defaults() == (path_view(source_root@), default_anchor),
    {
        let r = Tree { root: Node::Branch(Vec::new()), source_root, default_anchor };
        proof {
            assert(children_view(Seq::<(String, Node)>::empty()) =~= Map::empty());
        }
        r
    }

    /// Inserts the target `path` with its settings. A target that was
    /// inserted before is replaced; an empty path changes nothing.
    ///
    /// Fails, and changes nothing, where the target lies below another
    /// target or another lies below it.
    pub fn insert(&mut self, path: Vec<String>, target_config: TargetConfig) -> (r: Result<
        (),
        PathConflict,
    >)
        requires
            old(self).well_formed(),
        ensures
            final(self).well_formed(),
            final(self).defaults() == old(self).defaults(),
            match insert_spec(
                old(self)@,
                path_view(path@),
                root_config(old(self).defaults(), target_config@),
            ) {
                Ok(v) => r is Ok && final(self)@ == v,
                Err(e) => r is Err && path_view(r->Err_0.path@) == e && final(self)@ == old(self)@,
            },
    {
        let config = NodeConfig {
            target_config,
            defaults: (&self.source_root, self.default_anchor),
            parent_path: Vec::new(),
        };
        proof {
            assert(config@.parent_path =~= Seq::empty());
            assert(config@ == root_config(old(self).defaults(), target_config@));
            if insert_spec(old(self)@, path_view(path@), config@) is Ok {
                lemma_insert_keeps_targets(
                    old(self)@,
                    path_view(path@),
                    old(self).defaults(),
                    target_config@,
                );
            }
        }
        self.root.insert(path, config)
    }

    /// The tree with the target `path` inserted, as `insert` does it.
    pub fn with(self, path: Vec<String>, target_config: TargetConfig) -> (r: Result<
        Tree,
        PathConflict,
    >)
        requires
            self.well_formed(),
        ensures
            match insert_spec(self@, path_view(path@), root_config(self.defaults(), target_config@)) {
                Ok(v) => r is Ok && r->Ok_0@ == v && r->Ok_0.well_formed() && r->Ok_0.defaults()
                    == self.defaults(),
                Err(e) => r is Err && path_view(r->Err_0.path@) == e,
            },
    {
        let mut tree = self;
        match tree.insert(path, target_config) {
            Ok(()) => Ok(tree),
            Err(e) => Err(e),
        }
    }

    /// The root node, which is a branch.
    pub fn root(&self) -> (r: &Node)
        ensures
            r@ == self@,
            self.well_formed() ==> r.well_formed() && r@ is Branch,
    {
        &self.root
    }

    /// The source root that every target is joined to.
    pub fn source_root(&self) -> (r: &Vec<String>)
        ensures
            path_view(r@) == self.defaults().0,
    {
        &self.source_root
    }

    /// The anchor of targets that name none.
    pub fn default_anchor(&self) -> (r: BaseDir)
        ensures
            r == self.defaults().1,
    {
        self.default_anchor
    }
}

} // verus!
