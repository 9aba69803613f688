//! Settings of one compilation.
use vstd::prelude::*;

verus! {

/// Which passes run: `Off` parses verbatim, `Normal` accumulates runs while
/// parsing, `Max` also rewrites the folded tree.
#[derive(Debug, Clone, Copy, PartialEq, Eq, Structural)]
pub enum OptimisationLevel {
    Off,
    Normal,
    Max,
}

/// Width and signedness of one tape cell.
#[derive(Debug, Clone, Copy, PartialEq, Eq, Structural)]
pub enum CellSize {
    I8,
    I16,
    I32,
    I64,
    U8,
    U16,
    U32,
    U64,
}

/// Settings of one compilation.
#[derive(Debug)]
pub struct Config {
    pub input_file: String,
    pub output_file: String,
    pub optimisation_level: OptimisationLevel,
    pub cell_size: CellSize,
}

/// A configuration value that names no known setting.
#[derive(Debug, Clone, Copy, PartialEq, Eq, Structural)]
pub enum ConfigError {
    /// Legal levels are `Off`, `Normal` and `Max`.
    UnknownOptimisationLevel,
    /// Legal sizes are `I8`, `I16`, `I32`, `I64`, `U8`, `U16`, `U32` and `U64`.
    UnknownCellSize,
}

/// The ASCII name of an optimisation level.
pub open spec fn level_name(l: OptimisationLevel) -> Seq<u8> {
    match l {
        OptimisationLevel::Off => seq![79u8, 102, 102],
        OptimisationLevel::Normal => seq![78u8, 111, 114, 109, 97, 108],
        OptimisationLevel::Max => seq![77u8, 97, 120],
    }
}

/// The ASCII name of a cell size: `I` or `U`, then the width in bits.
pub open spec fn cell_size_name(c: CellSize) -> Seq<u8> {
    match c {
        CellSize::I8 => seq![73u8, 56],
        CellSize::I16 => seq![73u8, 49, 54],
        CellSize::I32 => seq![73u8, 51, 50],
        CellSize::I64 => seq![73u8, 54, 52],
        CellSize::U8 => seq![85u8, 56],
        CellSize::U16 => seq![85u8, 49, 54],
        CellSize::U32 => seq![85u8, 51, 50],
        CellSize::U64 => seq![85u8, 54, 52],
    }
}

/// Whether two byte strings are equal.
fn same_bytes(a: &[u8], b: &Vec<u8>) -> (r: bool)
    ensures
        r == (a@ == b@),
{
    if a.len() != b.len() {
        return false;
    }
    let mut i: usize = 0;
    while i < a.len()
        invariant
            0 <= i <= a.len(),
            a@.len() == b@.len(),
            forall|k: int| 0 <= k < i ==> a@[k] == b@[k],
        decreases a.len() - i,
    {
        if a[i] != b[i] {
            return false;
        }
        i += 1;
    }
    assert(a@ =~= b@);
    true
}

impl OptimisationLevel {
    /// The level with this name.
    pub fn from_name(name: &[u8]) -> (r: Result<OptimisationLevel, ConfigError>)
        ensures
            match r {
                Ok(l) => name@ == level_name(l),
                Err(e) => e == ConfigError::UnknownOptimisationLevel && forall|l: OptimisationLevel|
                    name@ != #[trigger] level_name(l),
            },
    {
        if same_bytes(name, &vec![79u8, 102, 102]) {
            Ok(OptimisationLevel::Off)
        } else if same_bytes(name, &vec![78u8, 111, 114, 109, 97, 108]) {
            Ok(OptimisationLevel::Normal)
        } else if same_bytes(name, &vec![77u8, 97, 120]) {
            Ok(OptimisationLevel::Max)
        } else {
            assert forall|l: OptimisationLevel| name@ != #[trigger] level_name(l) by {
                match l {
                    OptimisationLevel::Off => assert(level_name(l) =~= seq![79u8, 102, 102]),
                    OptimisationLevel::Normal => assert(level_name(l) =~= seq![78u8, 111, 114, 109, 97, 108]),
                    OptimisationLevel::Max => assert(level_name(l) =~= seq![77u8, 97, 120]),
                }
            }
            Err(ConfigError::UnknownOptimisationLevel)
        }
    }
}

impl CellSize {
    /// The cell size with this name.
    pub fn from_name(name: &[u8]) -> (r: Result<CellSize, ConfigError>)
        ensures
            match r {
                Ok(c) => name@ == cell_size_name(c),
                Err(e) => e == ConfigError::UnknownCellSize && forall|c: CellSize|
                    name@ != #[trigger] cell_size_name(c),
            },
    {
        if same_bytes(name, &vec![73u8, 56]) {
            Ok(CellSize::I8)
        } else if same_bytes(name, &vec![73u8, 49, 54]) {
            Ok(CellSize::I16)
        } else if same_bytes(name, &vec![73u8, 51, 50]) {
            Ok(CellSize::I32)
        } else if same_bytes(name, &vec![73u8, 54, 52]) {
            Ok(CellSize::I64)
        } else if same_bytes(name, &vec![85u8, 56]) {
            Ok(CellSize::U8)
        } else if same_bytes(name, &vec![85u8, 49, 54]) {
            Ok(CellSize::U16)
        } else if same_bytes(name, &vec![85u8, 51, 50]) {
            Ok(CellSize::U32)
        } else if same_bytes(name, &vec![85u8, 54, 52]) {
            Ok(CellSize::U64)
        } else {
            assert forall|c: CellSize| name@ != #[trigger] cell_size_name(c) by {
                match c {
                    CellSize::I8 => assert(cell_size_name(c) =~= seq![73u8, 56]),
                    CellSize::I16 => assert(cell_size_name(c) =~= seq![73u8, 49, 54]),
                    CellSize::I32 => assert(cell_size_name(c) =~= seq![73u8, 51, 50]),
                    CellSize::I64 => assert(cell_size_name(c) =~= seq![73u8, 54, 52]),
                    CellSize::U8 => assert(cell_size_name(c) =~= seq![85u8, 56]),
                    CellSize::U16 => assert(cell_size_name(c) =~= seq![85u8, 49, 54]),
                    CellSize::U32 => assert(cell_size_name(c) =~= seq![85u8, 51, 50]),
                    CellSize::U64 => assert(cell_size_name(c) =~= seq![85u8, 54, 52]),
                }
            }
            Err(ConfigError::UnknownCellSize)
        }
    }
}

} // verus!
