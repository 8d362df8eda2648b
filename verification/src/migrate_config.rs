//! The pre-2.0 flat packing options and their conversion into the current
//! mode-based form. Reading and rewriting configuration files around this
//! conversion is the caller's concern.

use vstd::prelude::*;

use crate::config::{
    OutputOptions, PackAlgorithm, PackMode, PackOptions, PackSort, StaticOptions,
};

verus! {

/// Old flat pack configuration structure (pre-2.0): the static fields used
/// to sit at the top level of the packing table.
#[derive(Debug, Clone, Copy)]
pub struct OldPackOptions {
    pub enabled: bool,
    pub max_size: (u32, u32),
    pub power_of_two: bool,
    pub padding: u32,
    pub extrude: u32,
    pub allow_trim: bool,
    pub algorithm: PackAlgorithm,
    pub page_limit: Option<u32>,
    pub sort: PackSort,
    pub dedupe: bool,
}

impl OldPackOptions {
    pub open spec fn spec_default() -> OldPackOptions {
        OldPackOptions {
            enabled: false,
            max_size: (2048u32, 2048u32),
            power_of_two: true,
            padding: 2u32,
            extrude: 1u32,
            allow_trim: false,
            algorithm: PackAlgorithm::MaxRects,
            page_limit: None,
            sort: PackSort::Area,
            dedupe: false,
        }
    }

    /// The options that `to_new_format` produces: the flat fields moved into
    /// `PackMode::Static`, with default output settings.
    pub open spec fn spec_to_new_format(self) -> PackOptions {
        PackOptions {
            enabled: self.enabled,
            output: OutputOptions { name: None, overwrite: false },
            mode: PackMode::Static(
                StaticOptions {
                    max_size: self.max_size,
                    power_of_two: self.power_of_two,
                    padding: self.padding,
                    extrude: self.extrude,
                    allow_trim: self.allow_trim,
                    algorithm: self.algorithm,
                    page_limit: self.page_limit,
                    sort: self.sort,
                    dedupe: self.dedupe,
                },
            ),
        }
    }

    /// Convert the old flat structure to the new mode-based structure.
    pub fn to_new_format(&self) -> (r: PackOptions)
        ensures
            r == self.spec_to_new_format(),
    {
        PackOptions {
            enabled: self.enabled,
            output: OutputOptions { name: None, overwrite: false },
            mode: PackMode::Static(
                StaticOptions {
                    max_size: self.max_size,
                    power_of_two: self.power_of_two,
                    padding: self.padding,
                    extrude: self.extrude,
                    allow_trim: self.allow_trim,
                    algorithm: self.algorithm,
                    page_limit: self.page_limit,
                    sort: self.sort,
                    dedupe: self.dedupe,
                },
            ),
        }
    }
}

impl Default for OldPackOptions {
    fn default() -> (d: Self)
        ensures
            d == OldPackOptions::spec_default(),
    {
        OldPackOptions {
            enabled: false,
            max_size: (2048, 2048),
            power_of_two: true,
            padding: 2,
            extrude: 1,
            allow_trim: false,
            algorithm: PackAlgorithm::MaxRects,
            page_limit: None,
            sort: PackSort::Area,
            dedupe: false,
        }
    }
}

} // verus!
