use vstd::prelude::*;
use crate::color::ColorValue;
use crate::color::parse_color;
use crate::color::spec_parse_color;

verus! {

/// Everything the presentation layer needs: which root to draw, whether to
/// prefix pids, the three colors, and the depth cutoff (none meaning
/// unlimited).
pub struct PsTreePrintConfig {
    pub show_pid: bool,
    pub root_pid: u32,
    pub node_color: Option<ColorValue>,
    pub background: Option<ColorValue>,
    pub branch_color: Option<ColorValue>,
    pub depth: Option<u32>,
}

impl PsTreePrintConfig {
    pub fn new() -> (c: PsTreePrintConfig)
        ensures
            !c.show_pid,
            c.root_pid == 0,
            c.node_color is None,
            c.background is None,
            c.branch_color is None,
            c.depth is None,
    {
        PsTreePrintConfig {
            show_pid: false,
            root_pid: 0,
            node_color: None,
            background: None,
            branch_color: None,
            depth: None,
        }
    }
}

/// The color an optional user-supplied token resolves to.
pub open spec fn spec_resolve_color(opt: Option<String>) -> Option<ColorValue> {
    match opt {
        Some(s) => spec_parse_color(s@),
        None => None,
    }
}

/// Resolves the user-facing options into renderer parameters: each color
/// token through the color parser (an unusable token turning into no
/// color), the rest passed through.
pub fn parse_config(
    node_color: &Option<String>,
    branch_color: &Option<String>,
    background: &Option<String>,
    show_pid: bool,
    root_pid: u32,
    depth: Option<u32>,
) -> (c: PsTreePrintConfig)
    ensures
        c.show_pid == show_pid,
        c.root_pid == root_pid,
        c.depth == depth,
        c.node_color == spec_resolve_color(*node_color),
        c.branch_color == spec_resolve_color(*branch_color),
        c.background == spec_resolve_color(*background),
{
    let mut config = PsTreePrintConfig::new();
    config.node_color = match node_color {
        Some(s) => parse_color(s.as_str()),
        None => None,
    };
    config.branch_color = match branch_color {
        Some(s) => parse_color(s.as_str()),
        None => None,
    };
    config.background = match background {
        Some(s) => parse_color(s.as_str()),
        None => None,
    };
    config.show_pid = show_pid;
    config.root_pid = root_pid;
    config.depth = depth;
    config
}

} // verus!
