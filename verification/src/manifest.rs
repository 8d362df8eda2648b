//! The exported atlas manifest: one entry per placed sprite, carrying its
//! placement, pre-trim geometry, page index and, for animations, playback
//! metadata. Entries keep placement order, so equal inputs yield equal
//! manifests; a name repeated across pages is not deduplicated, and lookup
//! by name returns the latest entry.

use vstd::prelude::*;

use crate::geom::{Rect, Size};
use crate::text::str_eq;

verus! {

/// Resolved layout of an animation strip, with the computed column count
/// for grids.
#[derive(Debug, Clone, Copy, PartialEq, Eq, Structural)]
pub enum AnimationLayoutInfo {
    HorizontalStrip,
    VerticalStrip,
    Grid { columns: u32 },
}

/// Playback metadata recorded for an animated item.
#[derive(Debug, Clone, Copy, PartialEq, Eq, Structural)]
pub struct AnimationInfo {
    pub frame_count: u32,
    pub frame_size: Size,
    pub layout: AnimationLayoutInfo,
    pub frame_duration_ms: u32,
    pub loops: bool,
}

/// One manifest entry: a sprite's placement and provenance.
#[derive(Debug, Clone, PartialEq)]
pub struct SpriteInfo {
    pub name: String,
    /// Where the (possibly trimmed) sprite sits on its page.
    pub rect: Rect,
    /// The sprite's stored size, after any trim.
    pub source_size: Size,
    pub trimmed: bool,
    /// The untrimmed bounding box, when the sprite was trimmed.
    pub sprite_source_size: Option<Rect>,
    pub page_index: usize,
    /// Playback metadata; `None` for static sprites.
    pub animation: Option<AnimationInfo>,
}

/// The manifest for one input: its name and every placed sprite, in
/// placement order.
#[derive(Debug, Clone, PartialEq)]
pub struct AtlasManifest {
    pub name: String,
    pub sprites: Vec<SpriteInfo>,
}

impl AtlasManifest {
    /// An empty manifest for the named input.
    pub fn new(name: String) -> (m: AtlasManifest)
        ensures
            m.name == name,
            m.sprites@ =~= Seq::<SpriteInfo>::empty(),
    {
        AtlasManifest { name, sprites: Vec::new() }
    }

    /// Record one placed sprite.
    pub fn add_sprite(&mut self, info: SpriteInfo)
        ensures
            final(self).name == old(self).name,
            final(self).sprites@ =~= old(self).sprites@.push(info),
    {
        self.sprites.push(info);
    }

    /// Index of the latest entry under `name`, mirroring how a map keyed by
    /// name would overwrite earlier entries.
    pub open spec fn spec_index_of(self, name: Seq<char>) -> Option<int> {
        if exists|i: int| 0 <= i < self.sprites@.len() && (#[trigger] self.sprites@[i]).name@
            == name {
            Some(
                choose|i: int|
                    0 <= i < self.sprites@.len() && (#[trigger] self.sprites@[i]).name@ == name
                        && forall|j: int|
                        i < j < self.sprites@.len() ==> (#[trigger] self.sprites@[j]).name@
                            != name,
            )
        } else {
            None
        }
    }

    /// Look up the latest entry under `name`.
    pub fn lookup(&self, name: &str) -> (r: Option<&SpriteInfo>)
        ensures
            match r {
                Some(info) => {
                    &&& self.spec_index_of(name@) is Some
                    &&& exists|i: int|
                        0 <= i < self.sprites@.len() && *info == #[trigger] self.sprites@[i]
                    &&& info.name@ == name@
                },
                None => self.spec_index_of(name@) is None,
            },
    {
        let n = self.sprites.len();
        let mut found: Option<usize> = None;
        let mut i: usize = 0;
        while i < n
            invariant
                n == self.sprites@.len(),
                i <= n,
                match found {
                    Some(fi) => fi < i && self.sprites@[fi as int].name@ == name@ && forall|j: int|
                        fi < j < i ==> (#[trigger] self.sprites@[j]).name@ != name@,
                    None => forall|j: int| 0 <= j < i ==> (#[trigger] self.sprites@[j]).name@ != name@,
                },
            decreases n - i,
        {
            if str_eq(self.sprites[i].name.as_str(), name) {
                found = Some(i);
            }
            i += 1;
        }
        match found {
            Some(fi) => {
                proof {
                    assert(0 <= fi < self.sprites@.len() && self.sprites@[fi as int].name@ == name@
                        && forall|j: int|
                        fi < j < self.sprites@.len() ==> (#[trigger] self.sprites@[j]).name@
                            != name@);
                }
                Some(&self.sprites[fi])
            },
            None => None,
        }
    }
}

} // verus!
