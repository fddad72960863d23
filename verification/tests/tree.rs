use pilgo::config::base_dir::BaseDir;
use pilgo::config::TargetConfig;
use pilgo::parser::node::{Node, NodeConfig, PathConflict};
use pilgo::order::{compare_segments, Rank};
use pilgo::parser::tree::Tree;

fn path(segments: &[&str]) -> Vec<String> {
    segments.iter().map(|s| s.to_string()).collect()
}

fn leaf(target: &[&str], anchor: BaseDir, link: &[&str]) -> Node {
    Node::Leaf { target: path(target), link: (anchor, path(link)) }
}

fn branch(children: Vec<(&str, Node)>) -> Node {
    Node::Branch(children.into_iter().map(|(k, n)| (k.to_string(), n)).collect())
}

fn link_as(link: &[&str]) -> TargetConfig {
    TargetConfig { link: Some(path(link)), ..TargetConfig::default() }
}

fn under(anchor: BaseDir) -> TargetConfig {
    TargetConfig { base_dir: Some(anchor), ..TargetConfig::default() }
}

fn count_leaves(node: &Node) -> usize {
    match node {
        Node::Leaf { .. } => 1,
        Node::Branch(children) => children.iter().map(|(_, n)| count_leaves(n)).sum(),
    }
}

fn src_config() -> Tree {
    Tree::new(path(&["src"]), BaseDir::Config)
}

#[test]
fn inserts_single_item() {
    let want = branch(vec![("foo", leaf(&["src", "foo"], BaseDir::Config, &["foo"]))]);

    let got = src_config().with(path(&["foo"]), TargetConfig::default()).unwrap();

    assert_eq!(got.root(), &want);
}

#[test]
fn inserts_nested_item() {
    let want = branch(vec![(
        "foo",
        branch(vec![("bar", leaf(&["src", "foo", "bar"], BaseDir::Config, &["foo", "bar"]))]),
    )]);

    let got = src_config().with(path(&["foo", "bar"]), TargetConfig::default()).unwrap();

    assert_eq!(got.root(), &want);
}

#[test]
fn override_link() {
    let want = branch(vec![("foo", leaf(&["src", "foo"], BaseDir::Config, &["custom"]))]);

    let got = src_config().with(path(&["foo"]), link_as(&["custom"])).unwrap();

    assert_eq!(got.root(), &want);
}

#[test]
fn override_base_dir() {
    let want = branch(vec![("foo", leaf(&["src", "foo"], BaseDir::Home, &["foo"]))]);

    let got = src_config().with(path(&["foo"]), under(BaseDir::Home)).unwrap();

    assert_eq!(got.root(), &want);
}

#[test]
fn new_tree_is_an_empty_branch_with_its_defaults() {
    let tree = Tree::new(path(&["dots", "src"]), BaseDir::Home);
    assert_eq!(tree.root(), &Node::Branch(vec![]));
    assert_eq!(tree.source_root(), &path(&["dots", "src"]));
    assert_eq!(tree.default_anchor(), BaseDir::Home);
}

#[test]
fn default_target_config_overrides_nothing() {
    let config = TargetConfig::default();
    assert_eq!(config.link, None);
    assert_eq!(config.base_dir, None);
}

#[test]
fn siblings_share_their_branch() {
    let mut tree = src_config();
    tree.insert(path(&["a", "b"]), TargetConfig::default()).unwrap();
    tree.insert(path(&["a", "c"]), TargetConfig::default()).unwrap();

    let want = branch(vec![(
        "a",
        branch(vec![
            ("b", leaf(&["src", "a", "b"], BaseDir::Config, &["a", "b"])),
            ("c", leaf(&["src", "a", "c"], BaseDir::Config, &["a", "c"])),
        ]),
    )]);
    assert_eq!(tree.root(), &want);
}

#[test]
fn file_after_directory_conflicts() {
    let mut tree = src_config();
    tree.insert(path(&["a", "b"]), TargetConfig::default()).unwrap();
    let before = src_config().with(path(&["a", "b"]), TargetConfig::default()).unwrap();

    let got = tree.insert(path(&["a"]), TargetConfig::default());

    assert_eq!(got, Err(PathConflict { path: path(&["a"]) }));
    assert_eq!(tree, before);
}

#[test]
fn directory_after_file_conflicts() {
    let mut tree = src_config();
    tree.insert(path(&["a"]), TargetConfig::default()).unwrap();
    let before = src_config().with(path(&["a"]), TargetConfig::default()).unwrap();

    let got = tree.insert(path(&["a", "b"]), TargetConfig::default());

    assert_eq!(got, Err(PathConflict { path: path(&["a"]) }));
    assert_eq!(tree, before);
}

#[test]
fn conflict_deep_below_a_leaf_names_the_leaf() {
    let mut tree = src_config();
    tree.insert(path(&["a", "b"]), TargetConfig::default()).unwrap();
    tree.insert(path(&["a", "x"]), TargetConfig::default()).unwrap();

    let got = tree.insert(path(&["a", "b", "c", "d"]), link_as(&["z"]));

    assert_eq!(got, Err(PathConflict { path: path(&["a", "b"]) }));
    assert_eq!(count_leaves(tree.root()), 2);
}

#[test]
fn with_reports_a_conflict() {
    let tree = src_config().with(path(&["a", "b", "c"]), TargetConfig::default()).unwrap();
    let got = tree.with(path(&["a", "b"]), TargetConfig::default());
    assert_eq!(got, Err(PathConflict { path: path(&["a", "b"]) }));
}

#[test]
fn same_path_again_replaces_the_leaf() {
    let mut tree = src_config();
    tree.insert(
        path(&["foo"]),
        TargetConfig { link: Some(path(&["custom"])), base_dir: Some(BaseDir::Home) },
    )
    .unwrap();
    tree.insert(path(&["foo"]), TargetConfig::default()).unwrap();

    let want = branch(vec![("foo", leaf(&["src", "foo"], BaseDir::Config, &["foo"]))]);
    assert_eq!(tree.root(), &want);

    tree.insert(path(&["foo"]), link_as(&["other"])).unwrap();
    let want = branch(vec![("foo", leaf(&["src", "foo"], BaseDir::Config, &["other"]))]);
    assert_eq!(tree.root(), &want);
}

#[test]
fn same_nested_path_again_keeps_the_siblings() {
    let mut tree = src_config();
    tree.insert(path(&["a", "b"]), under(BaseDir::Home)).unwrap();
    tree.insert(path(&["a", "c"]), TargetConfig::default()).unwrap();
    tree.insert(path(&["a", "b"]), link_as(&["bee"])).unwrap();

    let want = branch(vec![(
        "a",
        branch(vec![
            ("b", leaf(&["src", "a", "b"], BaseDir::Config, &["a", "bee"])),
            ("c", leaf(&["src", "a", "c"], BaseDir::Config, &["a", "c"])),
        ]),
    )]);
    assert_eq!(tree.root(), &want);
}

#[test]
fn parent_path_is_kept_in_the_order_of_the_path() {
    let got = src_config().with(path(&["a", "b", "c"]), TargetConfig::default()).unwrap();

    let want = branch(vec![(
        "a",
        branch(vec![(
            "b",
            branch(vec![("c", leaf(&["src", "a", "b", "c"], BaseDir::Config, &["a", "b", "c"]))]),
        )]),
    )]);
    assert_eq!(got.root(), &want);
}

#[test]
fn link_override_replaces_only_the_last_segment() {
    let got = src_config()
        .with(
            path(&["a", "b", "c", "d"]),
            TargetConfig { link: Some(path(&["x"])), base_dir: Some(BaseDir::Home) },
        )
        .unwrap();

    let want = branch(vec![(
        "a",
        branch(vec![(
            "b",
            branch(vec![(
                "c",
                branch(vec![("d", leaf(&["src", "a", "b", "c", "d"], BaseDir::Home, &["a", "b", "c", "x"]))]),
            )]),
        )]),
    )]);
    assert_eq!(got.root(), &want);
}

#[test]
fn link_override_may_have_several_segments() {
    let got = src_config().with(path(&["shell", "bashrc"]), link_as(&["etc", ".bashrc"])).unwrap();

    let want = branch(vec![(
        "shell",
        branch(vec![(
            "bashrc",
            leaf(&["src", "shell", "bashrc"], BaseDir::Config, &["shell", "etc", ".bashrc"]),
        )]),
    )]);
    assert_eq!(got.root(), &want);
}

#[test]
fn source_root_of_several_segments_is_joined_whole() {
    let got = Tree::new(path(&["home", "me", "dots"]), BaseDir::Home)
        .with(path(&["vim", "vimrc"]), TargetConfig::default())
        .unwrap();

    let want = branch(vec![(
        "vim",
        branch(vec![(
            "vimrc",
            leaf(&["home", "me", "dots", "vim", "vimrc"], BaseDir::Home, &["vim", "vimrc"]),
        )]),
    )]);
    assert_eq!(got.root(), &want);
}

#[test]
fn children_stand_in_the_order_of_their_names() {
    let mut tree = src_config();
    for name in ["m", "b", "zz", "a", "ab", "Z", "z"] {
        tree.insert(path(&[name]), TargetConfig::default()).unwrap();
    }

    match tree.root() {
        Node::Branch(children) => {
            let names: Vec<&str> = children.iter().map(|(k, _)| k.as_str()).collect();
            assert_eq!(names, vec!["Z", "a", "ab", "b", "m", "z", "zz"]);
        }
        Node::Leaf { .. } => panic!("the root is a branch"),
    }
}

#[test]
fn order_of_insertion_does_not_show() {
    let targets: Vec<(Vec<String>, TargetConfig)> = vec![
        (path(&["shell", "bashrc"]), link_as(&[".bashrc"])),
        (path(&["vim"]), under(BaseDir::Home)),
        (path(&["shell", "zshrc"]), TargetConfig::default()),
        (path(&["git", "config"]), TargetConfig::default()),
    ];

    let mut forward = src_config();
    for (p, c) in targets.iter() {
        forward.insert(p.clone(), c.clone()).unwrap();
    }
    let mut backward = src_config();
    for (p, c) in targets.iter().rev() {
        backward.insert(p.clone(), c.clone()).unwrap();
    }

    assert_eq!(forward, backward);
}

#[test]
fn leaves_are_as_many_as_distinct_paths() {
    let mut tree = src_config();
    let paths = [
        path(&["a"]),
        path(&["b", "c"]),
        path(&["b", "d"]),
        path(&["b", "e", "f"]),
        path(&["a"]),
        path(&["b", "c"]),
        path(&["g"]),
    ];
    for p in paths.iter() {
        tree.insert(p.clone(), TargetConfig::default()).unwrap();
    }

    assert_eq!(count_leaves(tree.root()), 5);
    let want = branch(vec![
        ("a", leaf(&["src", "a"], BaseDir::Config, &["a"])),
        (
            "b",
            branch(vec![
                ("c", leaf(&["src", "b", "c"], BaseDir::Config, &["b", "c"])),
                ("d", leaf(&["src", "b", "d"], BaseDir::Config, &["b", "d"])),
                ("e", branch(vec![("f", leaf(&["src", "b", "e", "f"], BaseDir::Config, &["b", "e", "f"]))])),
            ]),
        ),
        ("g", leaf(&["src", "g"], BaseDir::Config, &["g"])),
    ]);
    assert_eq!(tree.root(), &want);
}

#[test]
fn empty_path_changes_nothing() {
    let mut tree = src_config();
    tree.insert(path(&["a"]), TargetConfig::default()).unwrap();

    assert_eq!(tree.insert(vec![], link_as(&["x"])), Ok(()));

    let want = branch(vec![("a", leaf(&["src", "a"], BaseDir::Config, &["a"]))]);
    assert_eq!(tree.root(), &want);
}

#[test]
fn node_insert_resolves_below_the_parent_path() {
    let source_root = path(&["src"]);
    let mut node = Node::Branch(vec![]);

    let got = node.insert(
        path(&["c", "d"]),
        NodeConfig {
            target_config: link_as(&["dee"]),
            defaults: (&source_root, BaseDir::Config),
            parent_path: path(&["a", "b"]),
        },
    );

    assert_eq!(got, Ok(()));
    let want = branch(vec![(
        "c",
        branch(vec![(
            "d",
            leaf(&["src", "a", "b", "c", "d"], BaseDir::Config, &["a", "b", "c", "dee"]),
        )]),
    )]);
    assert_eq!(node, want);
}

#[test]
fn node_insert_into_a_leaf_conflicts_at_the_leaf() {
    let source_root = path(&["src"]);
    let mut node = leaf(&["src", "a"], BaseDir::Config, &["a"]);

    let got = node.insert(
        path(&["b"]),
        NodeConfig {
            target_config: TargetConfig::default(),
            defaults: (&source_root, BaseDir::Config),
            parent_path: path(&["a"]),
        },
    );

    assert_eq!(got, Err(PathConflict { path: path(&["a"]) }));
    assert_eq!(node, leaf(&["src", "a"], BaseDir::Config, &["a"]));
}

#[test]
fn new_leaf_joins_its_parts() {
    let got = Node::new_leaf(
        &path(&["src"]),
        BaseDir::Home,
        &path(&["a", "b"]),
        &"c".to_string(),
        &path(&["see"]),
    );
    assert_eq!(got, leaf(&["src", "a", "b", "c"], BaseDir::Home, &["a", "b", "see"]));
}

#[test]
fn new_branch_holds_the_one_target() {
    let source_root = path(&["src"]);
    let got = Node::new_branch(
        path(&["b", "c"]),
        NodeConfig {
            target_config: under(BaseDir::Home),
            defaults: (&source_root, BaseDir::Config),
            parent_path: path(&["a"]),
        },
    );
    let want = branch(vec![(
        "b",
        branch(vec![("c", leaf(&["src", "a", "b", "c"], BaseDir::Home, &["a", "b", "c"]))]),
    )]);
    assert_eq!(got, want);
}

#[test]
fn segments_compare_by_their_bytes() {
    assert_eq!(compare_segments("a", "b"), Rank::Before);
    assert_eq!(compare_segments("b", "a"), Rank::After);
    assert_eq!(compare_segments("abc", "abc"), Rank::Same);
    assert_eq!(compare_segments("", ""), Rank::Same);
    assert_eq!(compare_segments("", "a"), Rank::Before);
    assert_eq!(compare_segments("ab", "a"), Rank::After);
    assert_eq!(compare_segments("a", "ab"), Rank::Before);
    assert_eq!(compare_segments("Z", "a"), Rank::Before);
    assert_eq!(compare_segments("z", "\u{e9}"), Rank::Before);
    assert_eq!(compare_segments("\u{20ac}", "\u{e9}"), Rank::After);
}
