//! Small vocabulary shared by the layout computations.
use vstd::prelude::*;

verus! {

/// Node type categories, which decide a leaf's base radius in the codebase
/// layout (repository largest, then directory, file, symbol).
#[derive(Debug, Clone, Copy, PartialEq, Eq, Structural)]
pub enum NodeCategory {
    Repository,
    Directory,
    File,
    Symbol,
    Other,
}

/// The category a raw code stands for: 0 repository, 1 directory, 2 file,
/// 3 symbol, anything else other.
pub open spec fn category_of(v: u8) -> NodeCategory {
    if v == 0 {
        NodeCategory::Repository
    } else if v == 1 {
        NodeCategory::Directory
    } else if v == 2 {
        NodeCategory::File
    } else if v == 3 {
        NodeCategory::Symbol
    } else {
        NodeCategory::Other
    }
}

impl From<u8> for NodeCategory {
    fn from(v: u8) -> (r: NodeCategory)
        ensures
            r == category_of(v),
    {
        match v {
            0 => NodeCategory::Repository,
            1 => NodeCategory::Directory,
            2 => NodeCategory::File,
            3 => NodeCategory::Symbol,
            _ => NodeCategory::Other,
        }
    }
}

impl vstd::std_specs::convert::FromSpecImpl<u8> for NodeCategory {
    open spec fn obeys_from_spec() -> bool {
        true
    }

    open spec fn from_spec(v: u8) -> NodeCategory {
        category_of(v)
    }
}

/// How tree coordinates are placed: top-down rows, or rings around the root.
#[derive(Debug, Clone, Copy, PartialEq, Eq, Structural)]
pub enum CoordinateMode {
    /// x across, y = depth times the level spacing.
    Linear,
    /// Angle from x, radius from depth.
    Radial,
}

} // verus!
