use bfc::config::{CellSize, ConfigError, OptimisationLevel};

#[test]
fn optimisation_levels_by_name() {
    assert_eq!(OptimisationLevel::from_name(b"Off"), Ok(OptimisationLevel::Off));
    assert_eq!(OptimisationLevel::from_name(b"Normal"), Ok(OptimisationLevel::Normal));
    assert_eq!(OptimisationLevel::from_name(b"Max"), Ok(OptimisationLevel::Max));
}

#[test]
fn unknown_optimisation_level_is_rejected() {
    assert_eq!(OptimisationLevel::from_name(b"max"), Err(ConfigError::UnknownOptimisationLevel));
    assert_eq!(OptimisationLevel::from_name(b""), Err(ConfigError::UnknownOptimisationLevel));
    assert_eq!(OptimisationLevel::from_name(b"Maximum"), Err(ConfigError::UnknownOptimisationLevel));
}

#[test]
fn cell_sizes_by_name() {
    let names: [(&[u8], CellSize); 8] = [
        (b"I8", CellSize::I8),
        (b"I16", CellSize::I16),
        (b"I32", CellSize::I32),
        (b"I64", CellSize::I64),
        (b"U8", CellSize::U8),
        (b"U16", CellSize::U16),
        (b"U32", CellSize::U32),
        (b"U64", CellSize::U64),
    ];
    for (name, size) in names {
        assert_eq!(CellSize::from_name(name), Ok(size));
    }
}

#[test]
fn unknown_cell_size_is_rejected() {
    assert_eq!(CellSize::from_name(b"I128"), Err(ConfigError::UnknownCellSize));
    assert_eq!(CellSize::from_name(b"u8"), Err(ConfigError::UnknownCellSize));
}
