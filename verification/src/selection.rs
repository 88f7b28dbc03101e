//! The decisions behind the converter's form: which paths it accepts and
//! whether only half of the frames is converted.
use vstd::prelude::*;

verus! {

/// A path of the form that was left empty.
#[derive(Debug, Clone, Copy, PartialEq, Eq, Structural)]
pub enum PathError {
    /// "PAL path is empty"
    PalPathEmpty,
    /// "SHP path is empty"
    ShpPathEmpty,
    /// "Extraction path is empty"
    ExtractionPathEmpty,
}

/// Checks that the palette, SHP and output paths are all given, in that
/// order: the first empty one is reported.
pub fn validate_paths(pal: &str, shp: &str, extraction: &str) -> (r: Result<(), PathError>)
    ensures
        pal@.len() == 0 ==> r == Err::<(), PathError>(PathError::PalPathEmpty),
        pal@.len() != 0 && shp@.len() == 0 ==> r == Err::<(), PathError>(PathError::ShpPathEmpty),
        pal@.len() != 0 && shp@.len() != 0 && extraction@.len() == 0 ==> r == Err::<
            (),
            PathError,
        >(PathError::ExtractionPathEmpty),
        pal@.len() != 0 && shp@.len() != 0 && extraction@.len() != 0 ==> r is Ok,
{
    if pal.is_empty() {
        return Err(PathError::PalPathEmpty);
    }
    if shp.is_empty() {
        return Err(PathError::ShpPathEmpty);
    }
    if extraction.is_empty() {
        return Err(PathError::ExtractionPathEmpty);
    }
    Ok(())
}

/// The "Half shp" choice offers "true" (row 0) and "false" (row 1): only the
/// first half of the frames is converted when row 0 is selected, and also
/// when nothing is.
pub fn is_half_selected(selected_row: Option<usize>) -> (r: bool)
    ensures
        r == match selected_row {
            Some(row) => row == 0,
            None => true,
        },
{
    match selected_row {
        Some(row) => row == 0,
        None => true,
    }
}

} // verus!
