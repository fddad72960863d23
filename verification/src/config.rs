//! Targets and their individual settings.

use vstd::prelude::*;
use self::base_dir::BaseDir;

pub mod base_dir;

verus! {

/// Optional, individual target configuration.
#[derive(Clone, Debug, PartialEq, Eq)]
pub struct TargetConfig {
    /// Custom link name: the segments that stand in place of the target's last one.
    pub link: Option<Vec<String>>,
    /// Custom base directory for the link.
    pub base_dir: Option<BaseDir>,
}

/// What a `TargetConfig` says, over sequences.
pub struct TargetConfigView {
    pub link: Option<Seq<Seq<char>>>,
    pub base_dir: Option<BaseDir>,
}

/// The segments of a path, each as a sequence of characters.
pub open spec fn path_view(p: Seq<String>) -> Seq<Seq<char>> {
    p.map_values(|s: String| s@)
}

impl View for TargetConfig {
    type V = TargetConfigView;

    open spec fn view(&self) -> TargetConfigView {
        TargetConfigView {
            link: match self.link {
                Some(l) => Some(path_view(l@)),
                None => None,
            },
            base_dir: self.base_dir,
        }
    }
}

impl Default for TargetConfig {
    fn default() -> (r: TargetConfig)
        ensures
            r.link is None,
            r.base_dir is None,
    {
        TargetConfig { link: None, base_dir: None }
    }
}

/// The source of truth: the targets, and the settings of those that have any.
pub struct Config {
    /// All targets to operate on, each a path of segments.
    pub targets: Vec<Vec<String>>,
    /// Individual options of targets, by path.
    pub options: Vec<(Vec<String>, TargetConfig)>,
}

impl Config {
    /// No target has its options twice.
    pub open spec fn well_formed(&self) -> bool {
        forall|i: int, j: int|
            0 <= i < j < self.options@.len() ==> path_view((#[trigger] self.options@[i]).0@)
                != path_view((#[trigger] self.options@[j]).0@)
    }
}

} // verus!
