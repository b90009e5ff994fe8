//! The USDA FoodData Central catalog: where the full archive comes from,
//! what a build is asked for and reports, and when the starter catalog must
//! still be replaced by a full import.

use vstd::prelude::*;
use crate::syntax::text::str_eq;

verus! {

/// The full CSV archive of the FoodData Central release this build targets.
pub const DEFAULT_FULL_DOWNLOAD_URL: &'static str =
    "https://fdc.nal.usda.gov/fdc-datasets/FoodData_Central_csv_2026-04-30.zip";

/// The release name written by the starter catalog seeded on first launch.
pub const STARTER_RELEASE: &'static str = "starter";

/// What a catalog build is asked to do.
#[derive(Debug, Clone)]
pub struct BuildOptions {
    /// The downloaded archive or extracted directory.
    pub source: String,
    /// The catalog database to write.
    pub destination: String,
    pub release: String,
    /// Delete an existing catalog first.
    pub replace: bool,
}

/// How many rows a build imported.
#[derive(Debug, Clone, Default, PartialEq, Eq, Structural)]
pub struct BuildReport {
    pub foods: u64,
    pub nutrients: u64,
    pub food_nutrients: u64,
}

/// Builds a searchable catalog from the USDA archive.
pub struct FdcDatabaseBuilder;

/// The full catalog is still needed when no release is recorded, when the
/// recorded release is the starter one, or when the import of the recorded
/// release never completed.
pub open spec fn spec_needs_full_catalog(release: Option<Seq<char>>, import_complete: Option<Seq<char>>) -> bool {
    match release {
        None => true,
        Some(r) => r == STARTER_RELEASE@ || import_complete != Some("true"@),
    }
}

pub open spec fn opt_str_view(o: Option<&str>) -> Option<Seq<char>> {
    match o {
        Some(s) => Some(s@),
        None => None,
    }
}

/// Decide from the catalog's recorded `fdc_release` and `import_complete`
/// metadata whether the full USDA import must still run.
pub fn needs_full_catalog(release: Option<&str>, import_complete: Option<&str>) -> (r: bool)
    ensures
        r == spec_needs_full_catalog(opt_str_view(release), opt_str_view(import_complete)),
{
    match release {
        None => true,
        Some(r) => {
            if str_eq(r, STARTER_RELEASE) {
                true
            } else {
                match import_complete {
                    Some(v) => !str_eq(v, "true"),
                    None => true,
                }
            }
        },
    }
}

} // verus!
