//! The settings that the program keeps between runs.
use vstd::prelude::*;

verus! {

/// The paths last used and the "half" choice, as saved between runs.
pub struct AppConfig {
    pub pal_path: String,
    pub shp_path: String,
    pub output_path: String,
    pub half_index: usize,
}

impl Clone for AppConfig {
    fn clone(&self) -> (r: AppConfig)
        ensures
            r.pal_path@ == self.pal_path@,
            r.shp_path@ == self.shp_path@,
            r.output_path@ == self.output_path@,
            r.half_index == self.half_index,
    {
        AppConfig {
            pal_path: self.pal_path.clone(),
            shp_path: self.shp_path.clone(),
            output_path: self.output_path.clone(),
            half_index: self.half_index,
        }
    }
}

impl Default for AppConfig {
    /// Empty paths, and the first "half" choice selected.
    fn default() -> (r: AppConfig)
        ensures
            r.pal_path@ == Seq::<char>::empty(),
            r.shp_path@ == Seq::<char>::empty(),
            r.output_path@ == Seq::<char>::empty(),
            r.half_index == 0,
    {
        AppConfig {
            pal_path: String::new(),
            shp_path: String::new(),
            output_path: String::new(),
            half_index: 0,
        }
    }
}

} // verus!
