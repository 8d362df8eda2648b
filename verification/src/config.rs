//! Configuration data model: creator identity, code-generation settings and,
//! centrally, the packing options consumed by the packer. Loading these
//! values from a configuration file is the caller's concern; this module
//! holds the plain values and their defaults, plus validation of the
//! animated-mode frame pattern.

use vstd::prelude::*;
use vstd::string::*;

use crate::pattern::{compile_check, regex_compile_error, regex_valid};

verus! {

/// Type of creator an upload is attributed to.
#[derive(Debug, Clone, Copy, PartialEq, Eq, Structural)]
pub enum CreatorType {
    User,
    Group,
}

/// Creator identity: a user or a group, with its numeric id.
#[derive(Debug, Clone, Copy, PartialEq, Eq, Structural)]
pub struct Creator {
    pub ty: CreatorType,
    pub id: u64,
}

/// Code generation style for asset references.
#[derive(Debug, Clone, Copy, PartialEq, Eq, Structural)]
pub enum CodegenStyle {
    Flat,
    Nested,
}

/// Naming convention applied to input module names.
#[derive(Debug, Clone, Copy, PartialEq, Eq, Structural)]
pub enum InputNamingConvention {
    SnakeCase,
    CamelCase,
    PascalCase,
    ScreamingSnakeCase,
}

/// Naming convention applied to asset keys in generated code.
#[derive(Debug, Clone, Copy, PartialEq, Eq, Structural)]
pub enum AssetNamingConvention {
    SnakeCase,
    CamelCase,
    PascalCase,
    ScreamingSnakeCase,
    KebabCase,
    Preserve,
}

/// Code generation settings.
#[derive(Debug, Clone, Copy, PartialEq, Eq, Structural)]
pub struct Codegen {
    pub style: CodegenStyle,
    pub typescript: bool,
    pub strip_extensions: bool,
    pub content: bool,
    pub input_naming_convention: InputNamingConvention,
    pub asset_naming_convention: AssetNamingConvention,
}

/// A web asset already uploaded, identified by its asset id.
#[derive(Debug, Clone, Copy, PartialEq, Eq, Structural)]
pub struct WebAsset {
    pub id: u64,
}

/// One asset input: where its files come from, where generated code goes,
/// and how (whether) it is packed.
#[derive(Debug, Clone)]
pub struct Input {
    /// Glob pattern matching this input's asset files.
    pub path: String,
    /// Directory where generated code and packed assets are written.
    pub output_path: String,
    pub pack: Option<PackOptions>,
    pub bleed: bool,
    /// Already-uploaded web assets, keyed by path.
    pub web: Vec<(String, WebAsset)>,
    pub warn_each_duplicate: bool,
}

/// Whole configuration: creator, code generation and the named inputs.
/// Inputs keep their order so every walk over them is deterministic.
#[derive(Debug, Clone)]
pub struct Config {
    pub creator: Creator,
    pub codegen: Codegen,
    pub inputs: Vec<(String, Input)>,
}

/// Output settings for generated atlases.
#[derive(Debug, Clone)]
pub struct OutputOptions {
    /// Base name for output files; `None` means the input's name.
    pub name: Option<String>,
    pub overwrite: bool,
}

/// How the frames of a detected animation are arranged in its strip image.
#[derive(Debug, Clone, PartialEq, Eq)]
pub enum AnimationLayout {
    /// All frames in a single row.
    HorizontalStrip,
    /// All frames in a single column.
    VerticalStrip,
    /// Frames in a grid; `None` lets the packer choose a column count.
    Grid { columns: Option<u32> },
}

/// Rectangle-packing strategy.
#[derive(Debug, Clone, Copy, PartialEq, Eq, Structural)]
pub enum PackAlgorithm {
    MaxRects,
    Guillotine,
}

/// Primary sort key used to order items before packing.
#[derive(Debug, Clone, Copy, PartialEq, Eq, Structural)]
pub enum PackSort {
    Area,
    MaxSide,
    Name,
}

/// Options for packing independent static sprites.
#[derive(Debug, Clone, Copy)]
pub struct StaticOptions {
    pub max_size: (u32, u32),
    pub power_of_two: bool,
    pub padding: u32,
    pub extrude: u32,
    pub allow_trim: bool,
    pub algorithm: PackAlgorithm,
    pub page_limit: Option<u32>,
    pub sort: PackSort,
    pub dedupe: bool,
}

/// Options for detecting animation frames and packing synthesized strips.
#[derive(Debug, Clone)]
pub struct AnimatedOptions {
    /// Pattern an animation frame's file stem must match. It must expose a
    /// named capture group `name` and a second capture group holding the
    /// frame index.
    pub frame_pattern: String,
    pub min_frames: u32,
    pub layout: AnimationLayout,
    pub default_frame_duration_ms: u32,
    pub default_loop: bool,
    pub padding: u32,
    pub extrude: u32,
}

/// Packing mode: independent sprites, or animation detection.
#[derive(Debug, Clone)]
pub enum PackMode {
    Static(StaticOptions),
    Animated(AnimatedOptions),
}

/// Packing configuration for one input.
#[derive(Debug, Clone)]
pub struct PackOptions {
    pub enabled: bool,
    pub output: OutputOptions,
    pub mode: PackMode,
}

/// The animated frame pattern of `inp`, when it packs in animated mode.
pub open spec fn input_frame_pattern(inp: Input) -> Option<Seq<char>> {
    match inp.pack {
        Some(p) => match p.mode {
            PackMode::Animated(a) => Some(a.frame_pattern@),
            PackMode::Static(_) => None,
        },
        None => None,
    }
}

/// The input either does not pack in animated mode, or its frame pattern
/// compiles.
pub open spec fn input_pattern_ok(inp: Input) -> bool {
    match input_frame_pattern(inp) {
        Some(pat) => regex_valid(pat),
        None => true,
    }
}

/// The message `validate` reports for one offending input.
pub open spec fn invalid_pattern_msg(name: Seq<char>, pattern: Seq<char>, error: Seq<char>) -> Seq<
    char,
> {
    "Invalid animation frame regex in config (inputs."@ + name
        + ".pack.mode.animated.frame_pattern): '"@ + pattern + "' - regex error: "@ + error
        + ". Fix the pattern or disable animated packing for '"@ + name + "'."@
}

impl Config {
    /// Every animated input's frame pattern compiles.
    pub open spec fn spec_inputs_valid(self) -> bool {
        forall|i: int|
            0 <= i < self.inputs@.len() ==> input_pattern_ok((#[trigger] self.inputs@[i]).1)
    }

    /// Check every input's packing configuration up front: an invalid
    /// animated frame pattern is reported, naming the first offending
    /// input, before any asset is touched.
    pub fn validate(&self) -> (r: Result<(), String>)
        ensures
            r is Ok <==> self.spec_inputs_valid(),
            r is Err ==> exists|i: int|
                0 <= i < self.inputs@.len() && !input_pattern_ok((#[trigger] self.inputs@[i]).1)
                    && (forall|j: int| 0 <= j < i ==> input_pattern_ok((#[trigger] self.inputs@[j]).1))
                    && r->Err_0@ == invalid_pattern_msg(
                    self.inputs@[i].0@,
                    input_frame_pattern(self.inputs@[i].1)->0,
                    regex_compile_error(input_frame_pattern(self.inputs@[i].1)->0)->0,
                ),
    {
        let n = self.inputs.len();
        let mut i: usize = 0;
        while i < n
            invariant
                n == self.inputs@.len(),
                i <= n,
                forall|j: int| 0 <= j < i ==> input_pattern_ok((#[trigger] self.inputs@[j]).1),
            decreases n - i,
        {
            let (input_name, input) = &self.inputs[i];
            if let Some(pack) = &input.pack {
                if let PackMode::Animated(opts) = &pack.mode {
                    if let Some(err) = compile_check(opts.frame_pattern.as_str()) {
                        let mut msg = ("Invalid animation frame regex in config (inputs.").to_owned();
                        msg.append(input_name.as_str());
                        msg.append(".pack.mode.animated.frame_pattern): '");
                        msg.append(opts.frame_pattern.as_str());
                        msg.append("' - regex error: ");
                        msg.append(err.as_str());
                        msg.append(". Fix the pattern or disable animated packing for '");
                        msg.append(input_name.as_str());
                        msg.append("'.");
                        return Err(msg);
                    }
                }
            }
            i += 1;
        }
        Ok(())
    }
}

pub fn default_input_naming_convention() -> (r: InputNamingConvention)
    ensures
        r == InputNamingConvention::CamelCase,
{
    InputNamingConvention::CamelCase
}

pub fn default_asset_naming_convention() -> (r: AssetNamingConvention)
    ensures
        r == AssetNamingConvention::Preserve,
{
    AssetNamingConvention::Preserve
}

pub fn default_true() -> (r: bool)
    ensures
        r,
{
    true
}

pub fn default_pack_max_size() -> (r: (u32, u32))
    ensures
        r == (2048u32, 2048u32),
{
    (2048, 2048)
}

pub fn default_pack_power_of_two() -> (r: bool)
    ensures
        r,
{
    true
}

pub fn default_pack_padding() -> (r: u32)
    ensures
        r == 2u32,
{
    2
}

pub fn default_pack_extrude() -> (r: u32)
    ensures
        r == 1u32,
{
    1
}

pub fn default_pack_algorithm() -> (r: PackAlgorithm)
    ensures
        r == PackAlgorithm::MaxRects,
{
    PackAlgorithm::MaxRects
}

pub fn default_pack_sort() -> (r: PackSort)
    ensures
        r == PackSort::Area,
{
    PackSort::Area
}

/// The pattern value that `default_frame_pattern` returns.
pub open spec fn spec_default_frame_pattern() -> Seq<char> {
    "(?P<name>.+)_(\\d+)"@
}

pub fn default_frame_pattern() -> (r: String)
    ensures
        r@ == spec_default_frame_pattern(),
{
    String::from_str("(?P<name>.+)_(\\d+)")
}

pub fn default_min_frames() -> (r: u32)
    ensures
        r == 2u32,
{
    2
}

pub fn default_frame_duration_ms() -> (r: u32)
    ensures
        r == 100u32,
{
    100
}

pub fn default_loop() -> (r: bool)
    ensures
        r,
{
    true
}

impl OutputOptions {
    pub open spec fn spec_default() -> OutputOptions {
        OutputOptions { name: None, overwrite: false }
    }
}

impl Default for OutputOptions {
    fn default() -> (d: Self)
        ensures
            d == OutputOptions::spec_default(),
    {
        OutputOptions { name: None, overwrite: false }
    }
}

impl AnimationLayout {
    pub open spec fn spec_default() -> AnimationLayout {
        AnimationLayout::HorizontalStrip
    }
}

impl Default for AnimationLayout {
    fn default() -> (d: Self)
        ensures
            d == AnimationLayout::spec_default(),
    {
        AnimationLayout::HorizontalStrip
    }
}

impl StaticOptions {
    pub open spec fn spec_default() -> StaticOptions {
        StaticOptions {
            max_size: (2048u32, 2048u32),
            power_of_two: true,
            padding: 2u32,
            extrude: 1u32,
            allow_trim: false,
            algorithm: PackAlgorithm::MaxRects,
            page_limit: None,
            sort: PackSort::Area,
            dedupe: false,
        }
    }
}

impl Default for StaticOptions {
    fn default() -> (d: Self)
        ensures
            d == StaticOptions::spec_default(),
    {
        StaticOptions {
            max_size: default_pack_max_size(),
            power_of_two: default_pack_power_of_two(),
            padding: default_pack_padding(),
            extrude: default_pack_extrude(),
            allow_trim: false,
            algorithm: default_pack_algorithm(),
            page_limit: None,
            sort: default_pack_sort(),
            dedupe: false,
        }
    }
}

impl Default for AnimatedOptions {
    fn default() -> (d: Self)
        ensures
            d.frame_pattern@ == spec_default_frame_pattern(),
            d.min_frames == 2u32,
            d.layout == AnimationLayout::HorizontalStrip,
            d.default_frame_duration_ms == 100u32,
            d.default_loop,
            d.padding == 2u32,
            d.extrude == 1u32,
    {
        AnimatedOptions {
            frame_pattern: default_frame_pattern(),
            min_frames: default_min_frames(),
            layout: AnimationLayout::default(),
            default_frame_duration_ms: default_frame_duration_ms(),
            default_loop: default_loop(),
            padding: default_pack_padding(),
            extrude: default_pack_extrude(),
        }
    }
}

impl PackMode {
    pub open spec fn spec_default() -> PackMode {
        PackMode::Static(StaticOptions::spec_default())
    }
}

impl Default for PackMode {
    fn default() -> (d: Self)
        ensures
            d == PackMode::spec_default(),
    {
        PackMode::Static(StaticOptions::default())
    }
}

impl PackOptions {
    /// Padding between placed items, from the current mode.
    pub open spec fn spec_padding(self) -> u32 {
        match self.mode {
            PackMode::Static(opts) => opts.padding,
            PackMode::Animated(opts) => opts.padding,
        }
    }

    pub fn padding(&self) -> (r: u32)
        ensures
            r == self.spec_padding(),
    {
        match &self.mode {
            PackMode::Static(opts) => opts.padding,
            PackMode::Animated(opts) => opts.padding,
        }
    }

    /// Edge extrusion width, from the current mode.
    pub open spec fn spec_extrude(self) -> u32 {
        match self.mode {
            PackMode::Static(opts) => opts.extrude,
            PackMode::Animated(opts) => opts.extrude,
        }
    }

    pub fn extrude(&self) -> (r: u32)
        ensures
            r == self.spec_extrude(),
    {
        match &self.mode {
            PackMode::Static(opts) => opts.extrude,
            PackMode::Animated(opts) => opts.extrude,
        }
    }

    /// Maximum page size; animated mode uses a fixed default.
    pub open spec fn spec_max_size(self) -> (u32, u32) {
        match self.mode {
            PackMode::Static(opts) => opts.max_size,
            PackMode::Animated(_) => (2048u32, 2048u32),
        }
    }

    pub fn max_size(&self) -> (r: (u32, u32))
        ensures
            r == self.spec_max_size(),
    {
        match &self.mode {
            PackMode::Static(opts) => opts.max_size,
            PackMode::Animated(_) => (2048, 2048),
        }
    }

    /// Power-of-two page sizing; only static mode enables it.
    pub open spec fn spec_power_of_two(self) -> bool {
        match self.mode {
            PackMode::Static(opts) => opts.power_of_two,
            PackMode::Animated(_) => false,
        }
    }

    pub fn power_of_two(&self) -> (r: bool)
        ensures
            r == self.spec_power_of_two(),
    {
        match &self.mode {
            PackMode::Static(opts) => opts.power_of_two,
            PackMode::Animated(_) => false,
        }
    }

    /// Page-count limit; only static mode can set one.
    pub open spec fn spec_page_limit(self) -> Option<u32> {
        match self.mode {
            PackMode::Static(opts) => opts.page_limit,
            PackMode::Animated(_) => None,
        }
    }

    pub fn page_limit(&self) -> (r: Option<u32>)
        ensures
            r == self.spec_page_limit(),
    {
        match &self.mode {
            PackMode::Static(opts) => opts.page_limit,
            PackMode::Animated(_) => None,
        }
    }

    /// Sort key; animated mode always sorts by area.
    pub open spec fn spec_sort(self) -> PackSort {
        match self.mode {
            PackMode::Static(opts) => opts.sort,
            PackMode::Animated(_) => PackSort::Area,
        }
    }

    pub fn sort(&self) -> (r: PackSort)
        ensures
            r == self.spec_sort(),
    {
        match &self.mode {
            PackMode::Static(opts) => opts.sort,
            PackMode::Animated(_) => PackSort::Area,
        }
    }

    /// Packing strategy; animated mode uses the default strategy.
    pub open spec fn spec_algorithm(self) -> PackAlgorithm {
        match self.mode {
            PackMode::Static(opts) => opts.algorithm,
            PackMode::Animated(_) => PackAlgorithm::MaxRects,
        }
    }

    pub fn algorithm(&self) -> (r: PackAlgorithm)
        ensures
            r == self.spec_algorithm(),
    {
        match &self.mode {
            PackMode::Static(opts) => opts.algorithm,
            PackMode::Animated(_) => PackAlgorithm::MaxRects,
        }
    }

    /// Deduplication flag; only static mode deduplicates.
    pub open spec fn spec_dedupe(self) -> bool {
        match self.mode {
            PackMode::Static(opts) => opts.dedupe,
            PackMode::Animated(_) => false,
        }
    }

    pub fn dedupe(&self) -> (r: bool)
        ensures
            r == self.spec_dedupe(),
    {
        match &self.mode {
            PackMode::Static(opts) => opts.dedupe,
            PackMode::Animated(_) => false,
        }
    }

    /// Trim flag; only static mode trims.
    pub open spec fn spec_allow_trim(self) -> bool {
        match self.mode {
            PackMode::Static(opts) => opts.allow_trim,
            PackMode::Animated(_) => false,
        }
    }

    pub fn allow_trim(&self) -> (r: bool)
        ensures
            r == self.spec_allow_trim(),
    {
        match &self.mode {
            PackMode::Static(opts) => opts.allow_trim,
            PackMode::Animated(_) => false,
        }
    }
}

} // verus!
