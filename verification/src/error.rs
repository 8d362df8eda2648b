//! The packing failure taxonomy. One invocation of the packer surfaces at
//! most one of these; no partial result ever accompanies an error.

use vstd::prelude::*;
use vstd::string::*;

use crate::text::spec_decimal;
use crate::text::u64_to_decimal;

verus! {

/// Why a packing call failed.
#[derive(Debug, Clone, PartialEq, Eq)]
pub enum PackError {
    /// Packing was requested for an input that does not enable it.
    PackingDisabled { input_name: String },
    /// The animated-mode frame pattern does not compile.
    InvalidFramePattern { pattern: String, error: String },
    /// An item's sprite exceeds the page bounds on some axis, measured
    /// before any trim.
    OversizeSprite { name: String, width: u32, height: u32, max_width: u32, max_height: u32 },
    /// Geometry requires more pages than the configured limit.
    PageLimitExceeded { required: u64, allowed: u32 },
    /// A source image could not be decoded.
    ImageDecodeFailure { name: String },
    /// A composed image could not be encoded.
    ImageEncodeFailure { name: String },
    /// Defensive guard: a fresh page accepted no item at all.
    NoProgress { page_index: u64 },
    /// Defensive guard: an empty frame list reached strip synthesis.
    EmptyAnimation { name: String },
}

impl PackError {
    /// The descriptive text `message` renders for this error.
    pub open spec fn spec_message(self) -> Seq<char> {
        match self {
            PackError::PackingDisabled { input_name } => "Packing is not enabled for input '"@
                + input_name@ + "'"@,
            PackError::InvalidFramePattern { pattern, error } => "Invalid frame_pattern regex '"@
                + pattern@ + "': "@ + error@,
            PackError::OversizeSprite { name, width, height, max_width, max_height } => "Sprite '"@
                + name@ + "' ("@ + spec_decimal(width as nat) + "x"@ + spec_decimal(height as nat)
                + ") exceeds maximum atlas size ("@ + spec_decimal(max_width as nat) + "x"@
                + spec_decimal(max_height as nat)
                + "). Consider increasing max_size or excluding this sprite from packing."@,
            PackError::PageLimitExceeded { required, allowed } => "Packing would require "@
                + spec_decimal(required as nat) + " pages but limit is "@ + spec_decimal(
                allowed as nat,
            ) + ". Consider increasing max_size or page_limit."@,
            PackError::ImageDecodeFailure { name } => "Failed to load image: "@ + name@,
            PackError::ImageEncodeFailure { name } => "Failed to encode image: "@ + name@,
            PackError::NoProgress { page_index } => "No item fits on fresh page "@ + spec_decimal(
                page_index as nat,
            ) + "; padding or extrusion may exceed the page size"@,
            PackError::EmptyAnimation { name } => "Cannot combine empty animation frames for '"@
                + name@ + "'"@,
        }
    }

    /// A descriptive, single-line account of the failure.
    pub fn message(&self) -> (r: String)
        ensures
            r@ == self.spec_message(),
    {
        match self {
            PackError::PackingDisabled { input_name } => {
                let mut s = ("Packing is not enabled for input '").to_owned();
                s.append(input_name.as_str());
                s.append("'");
                s
            },
            PackError::InvalidFramePattern { pattern, error } => {
                let mut s = ("Invalid frame_pattern regex '").to_owned();
                s.append(pattern.as_str());
                s.append("': ");
                s.append(error.as_str());
                s
            },
            PackError::OversizeSprite { name, width, height, max_width, max_height } => {
                let mut s = ("Sprite '").to_owned();
                s.append(name.as_str());
                s.append("' (");
                s.append(u64_to_decimal(*width as u64).as_str());
                s.append("x");
                s.append(u64_to_decimal(*height as u64).as_str());
                s.append(") exceeds maximum atlas size (");
                s.append(u64_to_decimal(*max_width as u64).as_str());
                s.append("x");
                s.append(u64_to_decimal(*max_height as u64).as_str());
                s.append("). Consider increasing max_size or excluding this sprite from packing.");
                s
            },
            PackError::PageLimitExceeded { required, allowed } => {
                let mut s = ("Packing would require ").to_owned();
                s.append(u64_to_decimal(*required).as_str());
                s.append(" pages but limit is ");
                s.append(u64_to_decimal(*allowed as u64).as_str());
                s.append(". Consider increasing max_size or page_limit.");
                s
            },
            PackError::ImageDecodeFailure { name } => {
                let mut s = ("Failed to load image: ").to_owned();
                s.append(name.as_str());
                s
            },
            PackError::ImageEncodeFailure { name } => {
                let mut s = ("Failed to encode image: ").to_owned();
                s.append(name.as_str());
                s
            },
            PackError::NoProgress { page_index } => {
                let mut s = ("No item fits on fresh page ").to_owned();
                s.append(u64_to_decimal(*page_index).as_str());
                s.append("; padding or extrusion may exceed the page size");
                s
            },
            PackError::EmptyAnimation { name } => {
                let mut s = ("Cannot combine empty animation frames for '").to_owned();
                s.append(name.as_str());
                s.append("'");
                s
            },
        }
    }
}

} // verus!
