//! The packable item model and the packing orchestrator's result types: a
//! sprite, a synthesized animation strip, the tagged union over the two,
//! placements, finished pages and the orchestrator itself.

use vstd::prelude::*;
use vstd::string::*;

use crate::asset::Asset;
use crate::config::{AnimationLayout, PackMode, PackOptions};
use crate::error::PackError;
use crate::geom::{rect_contains, rect_in_page, rects_disjoint, Rect, Size};
use crate::image_io::{decode_image, decoded_image, encode_png, png_encoding};
use crate::manifest::AtlasManifest;
use crate::pattern::regex_valid;
use vstd::multiset::Multiset;
use crate::animation::{grid_cols_ok, item_mode_ok, kept_indices, static_item_from};
use crate::binpack::{is_pow2, next_pow2, BinPacker};
use crate::manifest::{AnimationInfo, AnimationLayoutInfo, SpriteInfo};
use crate::pixels::{blank_samples, bleed_channel, bleed_pass, bleed_samples, blit_channel, blit_onto, blit_samples, crop_of, crop_samples, extrude_channel, extrude_pass, extrude_samples, lemma_sample_decompose, new_canvas, opaque_bounds, sample_opaque};

verus! {

/// A sprite to be packed into an atlas.
#[derive(Debug, Clone)]
pub struct Sprite {
    pub name: String,
    /// Encoded image bytes.
    pub data: Vec<u8>,
    pub size: Size,
    /// Content hash; for a strip, the first frame's hash (a documented
    /// approximation, not a full-content fingerprint).
    pub hash: String,
}

/// An animation strip combined from multiple frames, plus its playback
/// metadata.
#[derive(Debug, Clone)]
pub struct AnimationStrip {
    /// The combined strip image.
    pub strip_sprite: Sprite,
    pub frame_count: u32,
    /// Size of a single frame (the first frame's size).
    pub frame_size: Size,
    pub layout: AnimationLayout,
    pub frame_duration_ms: u32,
    pub loops: bool,
}

/// An item that can be packed: an independent sprite or an animation strip.
/// Sorting, validation and placement all look at the representative sprite.
#[derive(Debug, Clone)]
pub enum PackableItem {
    Static(Sprite),
    Animated(AnimationStrip),
}

impl PackableItem {
    /// The representative sprite: the sprite itself, or the strip image.
    pub open spec fn spec_sprite(self) -> Sprite {
        match self {
            PackableItem::Static(sprite) => sprite,
            PackableItem::Animated(anim) => anim.strip_sprite,
        }
    }

    /// This item with its representative sprite replaced by `s`.
    pub open spec fn spec_with_sprite(self, s: Sprite) -> PackableItem {
        match self {
            PackableItem::Static(_) => PackableItem::Static(s),
            PackableItem::Animated(anim) => PackableItem::Animated(
                AnimationStrip { strip_sprite: s, ..anim },
            ),
        }
    }

    /// Get the representative sprite.
    pub fn sprite(&self) -> (r: &Sprite)
        ensures
            *r == self.spec_sprite(),
    {
        match self {
            PackableItem::Static(sprite) => sprite,
            PackableItem::Animated(anim) => &anim.strip_sprite,
        }
    }

    /// Get a mutable reference to the representative sprite.
    pub fn sprite_mut(&mut self) -> (r: &mut Sprite)
        ensures
            *r == old(self).spec_sprite(),
            *final(self) == old(self).spec_with_sprite(*final(r)),
    {
        match self {
            PackableItem::Static(sprite) => sprite,
            PackableItem::Animated(anim) => &mut anim.strip_sprite,
        }
    }
}

/// A sprite that has been placed in an atlas.
#[derive(Debug, Clone)]
pub struct PackedSprite {
    pub item: PackableItem,
    /// The visible rectangle on the page, padding already stripped.
    pub rect: Rect,
    pub trimmed: bool,
    /// The untrimmed bounding box, when the sprite was trimmed.
    pub sprite_source_size: Option<Rect>,
}

/// A single atlas page containing packed sprites.
#[derive(Debug, Clone)]
pub struct Atlas {
    pub page_index: usize,
    /// The rendered page, encoded.
    pub image_data: Vec<u8>,
    pub size: Size,
    pub sprites: Vec<PackedSprite>,
}

/// Result of packing a collection of assets: the rendered pages and the
/// manifest describing every placement.
#[derive(Debug, Clone)]
pub struct PackResult {
    pub atlases: Vec<Atlas>,
    pub manifest: AtlasManifest,
}

/// Main packing orchestrator: holds the options one packing call runs
/// under.
pub struct Packer {
    pub options: PackOptions,
}

impl Packer {
    pub fn new(options: PackOptions) -> (p: Self)
        ensures
            p.options == options,
    {
        Self { options }
    }
}

/// The item's representative sprite fits a page of the given bounds,
/// measured before any trim.
pub open spec fn item_fits(item: PackableItem, max_w: u32, max_h: u32) -> bool {
    item.spec_sprite().size.width <= max_w && item.spec_sprite().size.height <= max_h
}

/// The geometric guarantee of a finished page: every placed rectangle lies
/// fully inside the page and no two of them share a pixel.
pub open spec fn atlas_ok(a: Atlas) -> bool {
    &&& forall|i: int|
        0 <= i < a.sprites@.len() ==> rect_in_page((#[trigger] a.sprites@[i]).rect, a.size)
    &&& forall|i: int, j: int|
        0 <= i < j < a.sprites@.len() ==> rects_disjoint(
            (#[trigger] a.sprites@[i]).rect,
            (#[trigger] a.sprites@[j]).rect,
        )
}

/// How many items all the pages together hold.
pub open spec fn total_placed(atlases: Seq<Atlas>) -> int
    decreases atlases.len(),
{
    if atlases.len() == 0 {
        0
    } else {
        total_placed(atlases.drop_last()) + atlases.last().sprites@.len()
    }
}

/// (`bx`, `by`)..(`ex`, `ey`) is the tight bounding box of the opaque
/// pixels of a decoded image of width `w` and height `h`: every opaque
/// pixel lies inside it and every one of its four edges touches one.
pub open spec fn trim_box_at(
    samples: Seq<u8>,
    w: int,
    h: int,
    bx: int,
    by: int,
    ex: int,
    ey: int,
) -> bool {
    &&& 0 <= bx <= ex < w
    &&& 0 <= by <= ey < h
    &&& (forall|x: int, y: int|
        0 <= x < w && 0 <= y < h && #[trigger] sample_opaque(samples, w, x, y) ==> bx <= x <= ex
            && by <= y <= ey)
    &&& (exists|y: int| by <= y <= ey && #[trigger] sample_opaque(samples, w, bx, y))
    &&& (exists|y: int| by <= y <= ey && #[trigger] sample_opaque(samples, w, ex, y))
    &&& (exists|x: int| bx <= x <= ex && #[trigger] sample_opaque(samples, w, x, by))
    &&& (exists|x: int| bx <= x <= ex && #[trigger] sample_opaque(samples, w, x, ey))
}

/// There is only one tight bounding box.
proof fn lemma_trim_box_unique(
    samples: Seq<u8>,
    w: int,
    h: int,
    bx1: int,
    by1: int,
    ex1: int,
    ey1: int,
    bx2: int,
    by2: int,
    ex2: int,
    ey2: int,
)
    requires
        trim_box_at(samples, w, h, bx1, by1, ex1, ey1),
        trim_box_at(samples, w, h, bx2, by2, ex2, ey2),
    ensures
        bx1 == bx2 && by1 == by2 && ex1 == ex2 && ey1 == ey2,
{
    let ya = choose|y: int| by1 <= y <= ey1 && #[trigger] sample_opaque(samples, w, bx1, y);
    let yb = choose|y: int| by2 <= y <= ey2 && #[trigger] sample_opaque(samples, w, bx2, y);
    let yc = choose|y: int| by1 <= y <= ey1 && #[trigger] sample_opaque(samples, w, ex1, y);
    let yd = choose|y: int| by2 <= y <= ey2 && #[trigger] sample_opaque(samples, w, ex2, y);
    let xa = choose|x: int| bx1 <= x <= ex1 && #[trigger] sample_opaque(samples, w, x, by1);
    let xb = choose|x: int| bx2 <= x <= ex2 && #[trigger] sample_opaque(samples, w, x, by2);
    let xc = choose|x: int| bx1 <= x <= ex1 && #[trigger] sample_opaque(samples, w, x, ey1);
    let xd = choose|x: int| bx2 <= x <= ex2 && #[trigger] sample_opaque(samples, w, x, ey2);
    assert(bx2 <= bx1 && bx1 <= ex2 && by2 <= by1 && by1 <= ey2);
    assert(bx1 <= bx2 && bx2 <= ex1 && by1 <= by2 && by2 <= ey1);
    assert(ex1 <= ex2 && ex2 <= ex1);
    assert(ey1 <= ey2 && ey2 <= ey1);
}

/// What a performed trim did: (`bx`, `by`)..(`ex`, `ey`) is the tight
/// bounding box of the decoded image's opaque pixels, strictly smaller
/// than the image, and the sprite now holds the PNG encoding of exactly
/// that box, its name and hash untouched.
pub open spec fn trim_result_ok(
    before: Sprite,
    after: Sprite,
    bx: int,
    by: int,
    ex: int,
    ey: int,
) -> bool {
    let dec = decoded_image(before.data@)->0;
    let w = dec.0 as int;
    let h = dec.1 as int;
    let samples = dec.2;
    let tw = ex - bx + 1;
    let th = ey - by + 1;
    &&& decoded_image(before.data@) is Some
    &&& trim_box_at(samples, w, h, bx, by, ex, ey)
    &&& !(tw == w && th == h)
    &&& after.name@ == before.name@
    &&& after.hash@ == before.hash@
    &&& after.size.width == tw
    &&& after.size.height == th
    &&& png_encoding(tw as nat, th as nat, crop_samples(samples, w, bx, by, tw, th)) is Some
    &&& after.data@ == png_encoding(tw as nat, th as nat, crop_samples(samples, w, bx, by, tw, th))->0
}

/// Trimming this sprite surely shrinks it: trimming is on, the bytes
/// decode, the opaque bounding box exists and is strictly smaller than the
/// image, and the cropped box encodes.
pub open spec fn trim_will_shrink(before: Sprite, options: PackOptions) -> bool {
    let dec = decoded_image(before.data@)->0;
    &&& options.spec_allow_trim()
    &&& decoded_image(before.data@) is Some
    &&& exists|bx: int, by: int, ex: int, ey: int|
        #![trigger trim_box_at(dec.2, dec.0 as int, dec.1 as int, bx, by, ex, ey)]
        trim_box_at(dec.2, dec.0 as int, dec.1 as int, bx, by, ex, ey) && !(ex - bx + 1
            == dec.0 && ey - by + 1 == dec.1) && png_encoding(
            (ex - bx + 1) as nat,
            (ey - by + 1) as nat,
            crop_samples(dec.2, dec.0 as int, bx, by, ex - bx + 1, ey - by + 1),
        ) is Some
}

/// The page canvas after the first `k` placed sprites are drawn: each
/// sprite's decoded pixels at its rectangle, then its edges extruded when
/// extrusion is on and the rectangle sits fully on the page.
pub open spec fn render_samples(
    sprites: Seq<PackedSprite>,
    size: Size,
    extrude: int,
    k: int,
) -> Seq<u8>
    decreases k,
{
    if k <= 0 {
        blank_samples(size.width as int, size.height as int)
    } else {
        let prev = render_samples(sprites, size, extrude, k - 1);
        let ps = sprites[k - 1];
        let dec = decoded_image(ps.item.spec_sprite().data@)->0;
        let blitted = blit_samples(
            prev,
            size.width as int,
            dec.2,
            dec.0 as int,
            dec.1 as int,
            ps.rect.x as int,
            ps.rect.y as int,
        );
        if extrude > 0 && ps.rect.width >= 1 && ps.rect.height >= 1 && ps.rect.x + ps.rect.width
            <= size.width && ps.rect.y + ps.rect.height <= size.height {
            extrude_samples(blitted, size.width as int, ps.rect, extrude)
        } else {
            blitted
        }
    }
}

/// The finished page: every sprite drawn and extruded, then one alpha
/// bleed over the whole canvas.
pub open spec fn page_samples(sprites: Seq<PackedSprite>, size: Size, extrude: int) -> Seq<u8> {
    bleed_samples(
        render_samples(sprites, size, extrude, sprites.len() as int),
        size.width as int,
        size.height as int,
    )
}

/// The page's stored bytes are the PNG encoding of exactly its composed
/// canvas.
pub open spec fn atlas_image_ok(a: Atlas, extrude: int) -> bool {
    a.image_data@ == png_encoding(
        a.size.width as nat,
        a.size.height as nat,
        page_samples(a.sprites@, a.size, extrude),
    )->0
}

/// `r` is `n` rounded up to a power of two where one exists in 32 bits,
/// and `n` itself beyond that.
pub open spec fn pow2_resolved(n: int, r: int) -> bool {
    if n <= 1 {
        r == 1
    } else if n <= 0x8000_0000 {
        is_pow2(r) && r >= n && r / 2 < n
    } else {
        r == n
    }
}

/// The page a packing run uses: the configured maximum size, each
/// dimension rounded up to the next power of two when that is asked for.
pub open spec fn resolved_page_ok(options: PackOptions, page: Size) -> bool {
    if options.spec_power_of_two() {
        pow2_resolved(options.spec_max_size().0 as int, page.width as int) && pow2_resolved(
            options.spec_max_size().1 as int,
            page.height as int,
        )
    } else {
        page.width == options.spec_max_size().0 && page.height == options.spec_max_size().1
    }
}

/// The item's sprite, padded on all sides, fits the configured page size.
pub open spec fn item_padded_fits(item: PackableItem, options: PackOptions) -> bool {
    let s = item.spec_sprite().size;
    let p = options.spec_padding() as int;
    s.width + 2 * p <= options.spec_max_size().0 && s.height + 2 * p
        <= options.spec_max_size().1
}

/// With trimming off, every item's padded sprite fits a fresh page, so no
/// page can stall.
pub open spec fn items_surely_place(items: Seq<PackableItem>, options: PackOptions) -> bool {
    &&& !options.spec_allow_trim()
    &&& forall|i: int| 0 <= i < items.len() ==> item_padded_fits(#[trigger] items[i], options)
}

/// Packing these assets surely places everything: static mode without
/// trimming, and every image asset decodes to dimensions that, padded,
/// fit the configured page. Only an encoding failure or the page limit
/// can then stop a run.
pub open spec fn assets_surely_pack(assets: Seq<Asset>, options: PackOptions) -> bool {
    &&& options.mode is Static
    &&& !options.spec_allow_trim()
    &&& forall|i: int|
        0 <= i < assets.len() ==> ((#[trigger] assets[i]).kind is Image ==> ({
            let dec = decoded_image(assets[i].data@)->0;
            let p = options.spec_padding() as int;
            &&& decoded_image(assets[i].data@) is Some
            &&& dec.0 + 2 * p <= options.spec_max_size().0
            &&& dec.1 + 2 * p <= options.spec_max_size().1
        }))
}

/// A page's first item surely lands on it: padded it fits the page, and
/// should trimming shrink it first, the trimmed size (never larger than
/// the decoded image) still fits padded.
pub open spec fn first_item_placeable(item: PackableItem, options: PackOptions) -> bool {
    &&& item_padded_fits(item, options)
    &&& (options.spec_allow_trim() && decoded_image(item.spec_sprite().data@) is Some ==> ({
        let dec = decoded_image(item.spec_sprite().data@)->0;
        let p = options.spec_padding() as int;
        dec.0 + 2 * p <= options.spec_max_size().0 && dec.1 + 2 * p
            <= options.spec_max_size().1
    }))
}

/// One placement: the rectangle is exactly the (possibly trimmed)
/// sprite's own size and keeps the configured padding to every page edge.
pub open spec fn placed_sprite_ok(ps: PackedSprite, page: Size, p: int) -> bool {
    &&& ps.rect.width == ps.item.spec_sprite().size.width
    &&& ps.rect.height == ps.item.spec_sprite().size.height
    &&& ps.rect.x >= p
    &&& ps.rect.y >= p
    &&& ps.rect.x + ps.rect.width + p <= page.width
    &&& ps.rect.y + ps.rect.height + p <= page.height
}

/// The items a page's placements carry, in placement order.
pub open spec fn packed_items(sprites: Seq<PackedSprite>) -> Seq<PackableItem> {
    sprites.map_values(|ps: PackedSprite| ps.item)
}

/// The items all the pages' placements carry, page by page.
pub open spec fn placed_items_all(atlases: Seq<Atlas>) -> Seq<PackableItem>
    decreases atlases.len(),
{
    if atlases.len() == 0 {
        Seq::empty()
    } else {
        placed_items_all(atlases.drop_last()) + packed_items(atlases.last().sprites@)
    }
}

/// The resolved page itself is too large for a pixel buffer in memory.
pub open spec fn page_area_overflow(options: PackOptions) -> bool {
    exists|page: Size|
        #![trigger resolved_page_ok(options, page)]
        resolved_page_ok(options, page) && page.width * page.height > (usize::MAX as int) / 4
}

/// A page composed of well-placed sprites whose canvas the PNG encoder
/// refuses.
pub open spec fn failed_page(
    options: PackOptions,
    sprites: Seq<PackedSprite>,
    page: Size,
) -> bool {
    &&& resolved_page_ok(options, page)
    &&& (forall|k: int|
        0 <= k < sprites.len() ==> placed_sprite_ok(
            #[trigger] sprites[k],
            page,
            options.spec_padding() as int,
        ))
    &&& png_encoding(
        page.width as nat,
        page.height as nat,
        page_samples(sprites, page, options.spec_extrude() as int),
    ) is None
}

/// `sub` appears inside `sup` in order, possibly with gaps.
pub open spec fn is_subsequence(sub: Seq<PackableItem>, sup: Seq<PackableItem>) -> bool
    decreases sub.len() + sup.len(),
{
    if sub.len() == 0 {
        true
    } else if sup.len() == 0 {
        false
    } else if sub[0] == sup[0] {
        is_subsequence(sub.drop_first(), sup.drop_first())
    } else {
        is_subsequence(sub, sup.drop_first())
    }
}

/// A subsequence stays one when the larger side grows at the end.
proof fn lemma_subseq_extend(sub: Seq<PackableItem>, sup: Seq<PackableItem>, x: PackableItem)
    requires
        is_subsequence(sub, sup),
    ensures
        is_subsequence(sub, sup.push(x)),
    decreases sub.len() + sup.len(),
{
    if sub.len() == 0 {
    } else if sup.len() == 0 {
    } else {
        assert(sup.push(x)[0] == sup[0]);
        assert(sup.push(x).drop_first() =~= sup.drop_first().push(x));
        if sub[0] == sup[0] {
            lemma_subseq_extend(sub.drop_first(), sup.drop_first(), x);
        } else {
            lemma_subseq_extend(sub, sup.drop_first(), x);
        }
    }
}

/// Appending the same element to both sides keeps a subsequence.
proof fn lemma_subseq_push(sub: Seq<PackableItem>, sup: Seq<PackableItem>, x: PackableItem)
    requires
        is_subsequence(sub, sup),
    ensures
        is_subsequence(sub.push(x), sup.push(x)),
    decreases sub.len() + sup.len(),
{
    if sub.len() == 0 {
        lemma_subseq_singleton(sup, x);
        assert(sub.push(x) =~= seq![x]);
    } else {
        assert(sub.push(x)[0] == sub[0]);
        assert(sup.push(x)[0] == sup[0]);
        assert(sub.push(x).drop_first() =~= sub.drop_first().push(x));
        assert(sup.push(x).drop_first() =~= sup.drop_first().push(x));
        if sub[0] == sup[0] {
            lemma_subseq_push(sub.drop_first(), sup.drop_first(), x);
        } else {
            lemma_subseq_push(sub, sup.drop_first(), x);
        }
    }
}

proof fn lemma_subseq_singleton(sup: Seq<PackableItem>, x: PackableItem)
    ensures
        is_subsequence(seq![x], sup.push(x)),
    decreases sup.len(),
{
    if sup.len() == 0 {
        assert(sup.push(x)[0] == x);
        assert(seq![x].drop_first() =~= Seq::<PackableItem>::empty());
        assert(sup.push(x).drop_first() =~= Seq::<PackableItem>::empty());
        assert(is_subsequence(
            Seq::<PackableItem>::empty(),
            Seq::<PackableItem>::empty(),
        ));
        assert(is_subsequence(seq![x], sup.push(x)));
    } else {
        assert(sup.push(x)[0] == sup[0]);
        assert(sup.push(x).drop_first() =~= sup.drop_first().push(x));
        lemma_subseq_singleton(sup.drop_first(), x);
        if seq![x][0] == sup.push(x)[0] {
            assert(seq![x].drop_first() =~= Seq::<PackableItem>::empty());
            assert(is_subsequence(
                Seq::<PackableItem>::empty(),
                sup.push(x).drop_first(),
            ));
        } else {
            assert(is_subsequence(seq![x], sup.drop_first().push(x)));
            assert(sup.push(x).drop_first() == sup.drop_first().push(x));
        }
        assert(is_subsequence(seq![x], sup.push(x)));
    }
}

/// The two placements' padded allocations share no pixel.
pub open spec fn padded_disjoint(a: Rect, b: Rect, p: int) -> bool {
    ||| a.x + a.width + p <= b.x - p
    ||| b.x + b.width + p <= a.x - p
    ||| a.y + a.height + p <= b.y - p
    ||| b.y + b.height + p <= a.y - p
}

impl Packer {
    /// Crop the transparent border from a sprite, when trimming is allowed.
    /// `None` means the sprite is unchanged: trimming is off, the bytes do
    /// not decode, the sprite is fully transparent, or the opaque box is
    /// already tight. Otherwise the sprite's bytes and size become the
    /// cropped image, and the returned rectangle preserves the original
    /// size for downstream offset reconstruction.
    pub fn trim_sprite(&self, sprite: &mut Sprite) -> (r: Option<Rect>)
        ensures
            !self.options.spec_allow_trim() ==> r is None,
            trim_will_shrink(*old(sprite), self.options) ==> r is Some,
            r is None ==> *final(sprite) == *old(sprite),
            r is Some ==> ({
                &&& r->0.x == 0 && r->0.y == 0
                &&& r->0.width == old(sprite).size.width
                &&& r->0.height == old(sprite).size.height
                &&& final(sprite).size.width >= 1
                &&& final(sprite).size.height >= 1
                &&& exists|bx: int, by: int, ex: int, ey: int|
                    #![trigger trim_result_ok(*old(sprite), *final(sprite), bx, by, ex, ey)]
                    trim_result_ok(*old(sprite), *final(sprite), bx, by, ex, ey)
            }),
    {
        let ghost pre = *sprite;
        if !self.options.allow_trim() {
            return None;
        }
        let pix = match decode_image(&sprite.data) {
            Some(p) => p,
            None => {
                return None;
            },
        };
        let ghost dec = decoded_image(pre.data@)->0;
        let ghost w = dec.0 as int;
        let ghost h = dec.1 as int;
        let ghost samples = dec.2;
        proof {
            assert(pix.width == w && pix.height == h && pix.data@ == samples);
        }
        let (min_x, min_y, max_x, max_y) = match opaque_bounds(&pix) {
            Some(b) => b,
            None => {
                proof {
                    if trim_will_shrink(pre, self.options) {
                        let (cbx, cby, cex, cey) = choose|cbx: int, cby: int, cex: int, cey: int|
                            trim_box_at(samples, w, h, cbx, cby, cex, cey) && !(cex - cbx + 1
                                == dec.0 && cey - cby + 1 == dec.1) && png_encoding(
                                (cex - cbx + 1) as nat,
                                (cey - cby + 1) as nat,
                                crop_samples(samples, w, cbx, cby, cex - cbx + 1, cey - cby + 1),
                            ) is Some;
                        let wy = choose|y: int|
                            cby <= y <= cey && #[trigger] sample_opaque(samples, w, cbx, y);
                        assert(pix.opaque_at(cbx, wy));
                        assert(crate::pixels::has_opaque(pix));
                        assert(false);
                    }
                }
                return None;
            },
        };
        let ghost bx = min_x as int;
        let ghost by = min_y as int;
        let ghost ex = max_x as int;
        let ghost ey = max_y as int;
        proof {
            // The scan's box is the tight box, restated over the raw samples.
            assert forall|x: int, y: int|
                0 <= x < w && 0 <= y < h && #[trigger] sample_opaque(samples, w, x, y) implies bx
                <= x <= ex && by <= y <= ey by {
                assert(pix.opaque_at(x, y));
            }
            let wy1 = choose|y: int| 0 <= y < pix.height && (#[trigger] pix.opaque_at(bx, y));
            assert(sample_opaque(samples, w, bx, wy1) && by <= wy1 <= ey);
            let wy2 = choose|y: int| 0 <= y < pix.height && (#[trigger] pix.opaque_at(ex, y));
            assert(sample_opaque(samples, w, ex, wy2) && by <= wy2 <= ey);
            let wx1 = choose|x: int| 0 <= x < pix.width && (#[trigger] pix.opaque_at(x, by));
            assert(sample_opaque(samples, w, wx1, by) && bx <= wx1 <= ex);
            let wx2 = choose|x: int| 0 <= x < pix.width && (#[trigger] pix.opaque_at(x, ey));
            assert(sample_opaque(samples, w, wx2, ey) && bx <= wx2 <= ex);
            assert(trim_box_at(samples, w, h, bx, by, ex, ey));
        }
        let trimmed_w = max_x - min_x + 1;
        let trimmed_h = max_y - min_y + 1;
        if trimmed_w == pix.width && trimmed_h == pix.height {
            proof {
                if trim_will_shrink(pre, self.options) {
                    let (cbx, cby, cex, cey) = choose|cbx: int, cby: int, cex: int, cey: int|
                            trim_box_at(samples, w, h, cbx, cby, cex, cey) && !(cex - cbx + 1
                                == dec.0 && cey - cby + 1 == dec.1) && png_encoding(
                                (cex - cbx + 1) as nat,
                                (cey - cby + 1) as nat,
                                crop_samples(samples, w, cbx, cby, cex - cbx + 1, cey - cby + 1),
                            ) is Some;
                    lemma_trim_box_unique(samples, w, h, cbx, cby, cex, cey, bx, by, ex, ey);
                    assert(false);
                }
            }
            return None;
        }
        let cropped = crop_of(&pix, min_x, min_y, trimmed_w, trimmed_h);
        let ghost tw = trimmed_w as int;
        let ghost th = trimmed_h as int;
        proof {
            // The cropped buffer is exactly the box's samples.
            assert(cropped.data@.len() == th * tw * 4) by (nonlinear_arith)
                requires
                    cropped.data@.len() == tw * th * 4,
            ;
            assert forall|i: int| 0 <= i < cropped.data@.len() implies cropped.data@[i]
                == crop_samples(samples, w, bx, by, tw, th)[i] by {
                let yq = i / (tw * 4);
                let r = i % (tw * 4);
                let xq = r / 4;
                let cq = r % 4;
                assert(i == (tw * 4) * yq + r && 0 <= r < tw * 4) by (nonlinear_arith)
                    requires
                        yq == i / (tw * 4),
                        r == i % (tw * 4),
                        0 <= i,
                        tw >= 1,
                ;
                assert(r == 4 * xq + cq && 0 <= cq < 4 && 0 <= xq) by (nonlinear_arith)
                    requires
                        xq == r / 4,
                        cq == r % 4,
                        0 <= r,
                ;
                assert(xq < tw) by (nonlinear_arith)
                    requires
                        4 * xq + cq == r,
                        r < tw * 4,
                        0 <= cq,
                        0 <= xq,
                ;
                assert(0 <= yq && yq < th) by (nonlinear_arith)
                    requires
                        i == (tw * 4) * yq + r,
                        0 <= r < tw * 4,
                        0 <= i,
                        i < th * tw * 4,
                        tw >= 1,
                        th >= 1,
                ;
                assert(i == (yq * tw + xq) * 4 + cq) by (nonlinear_arith)
                    requires
                        i == (tw * 4) * yq + r,
                        r == 4 * xq + cq,
                ;
                assert(cropped.data@[i] == cropped.channel(xq, yq, cq));
                assert(cropped.channel(xq, yq, cq) == pix.channel(bx + xq, by + yq, cq));
            }
            assert(cropped.data@ =~= crop_samples(samples, w, bx, by, tw, th));
        }
        let data = match encode_png(&cropped) {
            Some(d) => d,
            None => {
                proof {
                    if trim_will_shrink(pre, self.options) {
                        let (cbx, cby, cex, cey) = choose|cbx: int, cby: int, cex: int, cey: int|
                            trim_box_at(samples, w, h, cbx, cby, cex, cey) && !(cex - cbx + 1
                                == dec.0 && cey - cby + 1 == dec.1) && png_encoding(
                                (cex - cbx + 1) as nat,
                                (cey - cby + 1) as nat,
                                crop_samples(samples, w, cbx, cby, cex - cbx + 1, cey - cby + 1),
                            ) is Some;
                        lemma_trim_box_unique(samples, w, h, cbx, cby, cex, cey, bx, by, ex, ey);
                        assert(false);
                    }
                }
                return None;
            },
        };
        let original_size = sprite.size;
        sprite.data = data;
        sprite.size = Size { width: trimmed_w, height: trimmed_h };
        proof {
            assert(trim_result_ok(pre, *sprite, bx, by, ex, ey));
        }
        Some(Rect { x: 0, y: 0, width: original_size.width, height: original_size.height })
    }

    /// Reject any item whose sprite exceeds the page bounds on either
    /// axis; the error names the first offending sprite and its measured
    /// size.
    pub fn validate_sprite_sizes(&self, items: &Vec<PackableItem>) -> (r: Result<(), PackError>)
        ensures
            r is Ok <==> forall|i: int|
                0 <= i < items@.len() ==> item_fits(
                    #[trigger] items@[i],
                    self.options.spec_max_size().0,
                    self.options.spec_max_size().1,
                ),
            r is Err ==> exists|i: int|
                0 <= i < items@.len() && !item_fits(
                    #[trigger] items@[i],
                    self.options.spec_max_size().0,
                    self.options.spec_max_size().1,
                ) && (forall|j: int|
                    0 <= j < i ==> item_fits(
                        #[trigger] items@[j],
                        self.options.spec_max_size().0,
                        self.options.spec_max_size().1,
                    )) && (match r->Err_0 {
                    PackError::OversizeSprite { name, width, height, max_width, max_height } => {
                        &&& name@ == items@[i].spec_sprite().name@
                        &&& width == items@[i].spec_sprite().size.width
                        &&& height == items@[i].spec_sprite().size.height
                        &&& max_width == self.options.spec_max_size().0
                        &&& max_height == self.options.spec_max_size().1
                    },
                    _ => false,
                }),
    {
        let (max_width, max_height) = self.options.max_size();
        let n = items.len();
        let mut i: usize = 0;
        while i < n
            invariant
                n == items@.len(),
                i <= n,
                (max_width, max_height) == self.options.spec_max_size(),
                forall|j: int|
                    0 <= j < i ==> item_fits(#[trigger] items@[j], max_width, max_height),
            decreases n - i,
        {
            let sprite = items[i].sprite();
            if sprite.size.width > max_width || sprite.size.height > max_height {
                return Err(
                    PackError::OversizeSprite {
                        name: sprite.name.clone(),
                        width: sprite.size.width,
                        height: sprite.size.height,
                        max_width,
                        max_height,
                    },
                );
            }
            i += 1;
        }
        Ok(())
    }

    /// Composite the placed sprites onto a blank page canvas: blit each
    /// sprite's decoded pixels at its rectangle, extrude each sprite's
    /// edges when configured, bleed opaque color into the page's
    /// transparent pixels once, and encode the canvas as PNG.
    pub fn render_atlas(&self, packed_sprites: &Vec<PackedSprite>, atlas_size: Size) -> (r: Result<
        Vec<u8>,
        PackError,
    >)
        requires
            atlas_size.width as int * atlas_size.height as int * 4 <= usize::MAX,
        ensures
            r is Err ==> (r->Err_0 matches PackError::ImageDecodeFailure { .. } || r->Err_0 matches
                PackError::ImageEncodeFailure { .. }),
            r is Err ==> !(r->Err_0 matches PackError::PageLimitExceeded { .. }),
            r is Ok ==> forall|k: int|
                0 <= k < packed_sprites@.len() ==> decoded_image(
                    (#[trigger] packed_sprites@[k]).item.spec_sprite().data@,
                ) is Some,
            r is Ok ==> png_encoding(
                atlas_size.width as nat,
                atlas_size.height as nat,
                page_samples(packed_sprites@, atlas_size, self.options.spec_extrude() as int),
            ) is Some && r->Ok_0@ == png_encoding(
                atlas_size.width as nat,
                atlas_size.height as nat,
                page_samples(packed_sprites@, atlas_size, self.options.spec_extrude() as int),
            )->0,
            r is Err && (r->Err_0 matches PackError::ImageDecodeFailure { .. }) ==> exists|k: int|
                0 <= k < packed_sprites@.len() && decoded_image(
                    (#[trigger] packed_sprites@[k]).item.spec_sprite().data@,
                ) is None && (match r->Err_0 {
                    PackError::ImageDecodeFailure { name } => name@
                        == packed_sprites@[k].item.spec_sprite().name@,
                    _ => false,
                }),
            ((forall|k: int|
                0 <= k < packed_sprites@.len() ==> decoded_image(
                    (#[trigger] packed_sprites@[k]).item.spec_sprite().data@,
                ) is Some) && png_encoding(
                atlas_size.width as nat,
                atlas_size.height as nat,
                page_samples(packed_sprites@, atlas_size, self.options.spec_extrude() as int),
            ) is Some) ==> r is Ok,
            r is Err && (r->Err_0 matches PackError::ImageEncodeFailure { .. }) ==> png_encoding(
                atlas_size.width as nat,
                atlas_size.height as nat,
                page_samples(packed_sprites@, atlas_size, self.options.spec_extrude() as int),
            ) is None,
    {
        let mut canvas = new_canvas(atlas_size.width, atlas_size.height);
        let extrude = self.options.extrude();
        let sw = atlas_size.width;
        let sh = atlas_size.height;
        proof {
            assert forall|ii: int| 0 <= ii < canvas.data@.len() implies canvas.data@[ii]
                == 0u8 by {
                lemma_sample_decompose(ii, sw as int, sh as int);
                let y = ii / (sw as int * 4);
                let r = ii % (sw as int * 4);
                let x = r / 4;
                let c = r % 4;
                assert(canvas.channel(x, y, c) == 0u8);
            }
            assert(canvas.data@ =~= blank_samples(sw as int, sh as int));
        }
        let n = packed_sprites.len();
        let mut i: usize = 0;
        while i < n
            invariant
                n == packed_sprites@.len(),
                i <= n,
                canvas.wf(),
                canvas.width == sw,
                canvas.height == sh,
                sw == atlas_size.width,
                sh == atlas_size.height,
                extrude == self.options.spec_extrude(),
                forall|k: int|
                    0 <= k < i ==> decoded_image(
                        (#[trigger] packed_sprites@[k]).item.spec_sprite().data@,
                    ) is Some,
                canvas.data@ == render_samples(
                    packed_sprites@,
                    atlas_size,
                    extrude as int,
                    i as int,
                ),
            decreases n - i,
        {
            let ps = &packed_sprites[i];
            let sprite = ps.item.sprite();
            let pix = match decode_image(&sprite.data) {
                Some(p) => p,
                None => {
                    return Err(PackError::ImageDecodeFailure { name: sprite.name.clone() });
                },
            };
            let ghost prev_pix = canvas;
            canvas = blit_onto(&canvas, &pix, ps.rect.x, ps.rect.y);
            proof {
                let dec = decoded_image(packed_sprites@[i as int].item.spec_sprite().data@)->0;
                assert(pix.data@ == dec.2 && pix.width as int == dec.0 && pix.height as int
                    == dec.1);
                assert forall|ii: int| 0 <= ii < canvas.data@.len() implies canvas.data@[ii]
                    == blit_samples(
                    prev_pix.data@,
                    sw as int,
                    dec.2,
                    dec.0 as int,
                    dec.1 as int,
                    ps.rect.x as int,
                    ps.rect.y as int,
                )[ii] by {
                    lemma_sample_decompose(ii, sw as int, sh as int);
                    let y = ii / (sw as int * 4);
                    let r = ii % (sw as int * 4);
                    let x = r / 4;
                    let c = r % 4;
                    assert(canvas.channel(x, y, c) == blit_channel(
                        prev_pix,
                        pix,
                        ps.rect.x as int,
                        ps.rect.y as int,
                        x,
                        y,
                        c,
                    ));
                }
                assert(canvas.data@ =~= blit_samples(
                    prev_pix.data@,
                    sw as int,
                    dec.2,
                    dec.0 as int,
                    dec.1 as int,
                    ps.rect.x as int,
                    ps.rect.y as int,
                ));
            }
            if extrude > 0 && ps.rect.width >= 1 && ps.rect.height >= 1 && ps.rect.x as u64
                + ps.rect.width as u64 <= canvas.width as u64 && ps.rect.y as u64
                + ps.rect.height as u64 <= canvas.height as u64 {
                let ghost mid_pix = canvas;
                canvas = extrude_pass(&canvas, ps.rect, extrude);
                proof {
                    assert forall|ii: int| 0 <= ii < canvas.data@.len() implies canvas.data@[ii]
                        == extrude_samples(mid_pix.data@, sw as int, ps.rect, extrude as int)[ii] by {
                        lemma_sample_decompose(ii, sw as int, sh as int);
                        let y = ii / (sw as int * 4);
                        let r = ii % (sw as int * 4);
                        let x = r / 4;
                        let c = r % 4;
                        assert(canvas.channel(x, y, c) == extrude_channel(
                            mid_pix,
                            ps.rect,
                            extrude as int,
                            x,
                            y,
                            c,
                        ));
                    }
                    assert(canvas.data@ =~= extrude_samples(
                        mid_pix.data@,
                        sw as int,
                        ps.rect,
                        extrude as int,
                    ));
                    assert(canvas.data@ == render_samples(
                        packed_sprites@,
                        atlas_size,
                        extrude as int,
                        i + 1,
                    ));
                }
            } else {
                proof {
                    assert(canvas.data@ == render_samples(
                        packed_sprites@,
                        atlas_size,
                        extrude as int,
                        i + 1,
                    ));
                }
            }
            i += 1;
        }
        let ghost pre_bleed = canvas;
        canvas = bleed_pass(&canvas);
        proof {
            assert forall|ii: int| 0 <= ii < canvas.data@.len() implies canvas.data@[ii]
                == bleed_samples(pre_bleed.data@, sw as int, sh as int)[ii] by {
                lemma_sample_decompose(ii, sw as int, sh as int);
                let y = ii / (sw as int * 4);
                let r = ii % (sw as int * 4);
                let x = r / 4;
                let c = r % 4;
                assert(canvas.channel(x, y, c) == bleed_channel(pre_bleed, x, y, c));
            }
            assert(canvas.data@ =~= bleed_samples(pre_bleed.data@, sw as int, sh as int));
            assert(canvas.data@ == page_samples(
                packed_sprites@,
                atlas_size,
                extrude as int,
            ));
        }
        match encode_png(&canvas) {
            Some(d) => Ok(d),
            None => Err(PackError::ImageEncodeFailure { name: ("atlas page").to_owned() }),
        }
    }
}

/// A manifest entry records exactly its placed sprite: name, placement,
/// stored size, trim data, page, and — for animations — the playback
/// metadata.
pub open spec fn info_matches(ps: PackedSprite, page_index: int, info: SpriteInfo) -> bool {
    &&& info.name@ == ps.item.spec_sprite().name@
    &&& info.rect == ps.rect
    &&& info.source_size == ps.item.spec_sprite().size
    &&& info.trimmed == ps.trimmed
    &&& info.sprite_source_size == ps.sprite_source_size
    &&& info.page_index == page_index
    &&& match ps.item {
        PackableItem::Static(_) => info.animation is None,
        PackableItem::Animated(anim) => info.animation is Some && anim_info_matches(
            anim,
            info.animation->0,
        ),
    }
}

/// The recorded playback metadata of one animated entry.
pub open spec fn anim_info_matches(a: AnimationStrip, info: AnimationInfo) -> bool {
    &&& info.frame_count == a.frame_count
    &&& info.frame_size == a.frame_size
    &&& info.frame_duration_ms == a.frame_duration_ms
    &&& info.loops == a.loops
    &&& match a.layout {
        AnimationLayout::HorizontalStrip => info.layout == AnimationLayoutInfo::HorizontalStrip,
        AnimationLayout::VerticalStrip => info.layout == AnimationLayoutInfo::VerticalStrip,
        AnimationLayout::Grid { columns } => {
            &&& info.layout matches AnimationLayoutInfo::Grid { columns: gc }
            &&& grid_cols_ok(columns, a.frame_count as int, gc as int)
        },
    }
}

/// `infos` records one page's sprites, in order.
pub open spec fn atlas_infos_match(a: Atlas, infos: Seq<SpriteInfo>) -> bool {
    &&& infos.len() == a.sprites@.len()
    &&& forall|k: int|
        0 <= k < infos.len() ==> info_matches(a.sprites@[k], a.page_index as int, #[trigger] infos[k])
}

/// `infos` records every page's sprites, page by page in page order.
pub open spec fn manifest_matches(atlases: Seq<Atlas>, infos: Seq<SpriteInfo>) -> bool
    decreases atlases.len(),
{
    if atlases.len() == 0 {
        infos.len() == 0
    } else {
        let lastn = atlases.last().sprites@.len() as int;
        &&& infos.len() >= lastn
        &&& manifest_matches(atlases.drop_last(), infos.take(infos.len() - lastn))
        &&& atlas_infos_match(atlases.last(), infos.skip(infos.len() - lastn))
    }
}

proof fn lemma_mul_u64(a: int, b: int)
    requires
        0 <= a < 0x1_0000_0000,
        0 <= b < 0x1_0000_0000,
    ensures
        0 <= a * b < 0x1_0000_0000_0000_0000,
{
    assert(0 <= a * b < 0x1_0000_0000_0000_0000) by (nonlinear_arith)
        requires
            0 <= a < 0x1_0000_0000,
            0 <= b < 0x1_0000_0000,
    ;
}

/// Before anything is processed, both sides of the running identity are
/// empty.
proof fn lemma_placed_identity_init(orig: Seq<PackableItem>)
    ensures
        packed_items(Seq::<PackedSprite>::empty()).to_multiset().add(
            Seq::<PackableItem>::empty().to_multiset(),
        ) =~= orig.take(0).to_multiset(),
{
    broadcast use vstd::multiset::group_multiset_axioms;
    broadcast use vstd::seq_lib::to_multiset_len;
    broadcast use vstd::multiset::lemma_multiset_empty_len;

    assert(packed_items(Seq::<PackedSprite>::empty()) =~= Seq::<PackableItem>::empty());
    assert(orig.take(0) =~= Seq::<PackableItem>::empty());
    assert(Seq::<PackableItem>::empty().to_multiset().len() == 0);
    assert(Seq::<PackableItem>::empty().to_multiset() =~= Multiset::<PackableItem>::empty());
}

/// One processing step keeps the running identity: the item taken from
/// position `processed` of the input lands in exactly one of the two
/// output lists.
proof fn lemma_processed_step(
    options: PackOptions,
    orig: Seq<PackableItem>,
    packed_pre: Seq<PackedSprite>,
    unpacked_pre: Seq<PackableItem>,
    packed_post: Seq<PackedSprite>,
    unpacked_post: Seq<PackableItem>,
    item: PackableItem,
    item0: PackableItem,
    processed: int,
)
    requires
        0 <= processed < orig.len(),
        item0 == orig[processed],
        !options.spec_allow_trim() ==> item == item0,
        (packed_post == packed_pre.push(
            PackedSprite {
                item,
                rect: packed_post.last().rect,
                trimmed: packed_post.last().trimmed,
                sprite_source_size: packed_post.last().sprite_source_size,
            },
        ) && unpacked_post == unpacked_pre) || (unpacked_post == unpacked_pre.push(item)
            && packed_post == packed_pre),
        !options.spec_allow_trim() ==> packed_items(packed_pre).to_multiset().add(
            unpacked_pre.to_multiset(),
        ) =~= orig.take(processed).to_multiset(),
    ensures
        !options.spec_allow_trim() ==> packed_items(packed_post).to_multiset().add(
            unpacked_post.to_multiset(),
        ) =~= orig.take(processed + 1).to_multiset(),
        (!options.spec_allow_trim() && is_subsequence(unpacked_pre, orig.take(processed)))
            ==> is_subsequence(unpacked_post, orig.take(processed + 1)),
{
    broadcast use vstd::seq_lib::to_multiset_build;
    broadcast use vstd::multiset::group_multiset_axioms;

    if !options.spec_allow_trim() {
        assert(orig.take(processed + 1) =~= orig.take(processed).push(orig[processed]));
        if unpacked_post == unpacked_pre.push(item) && packed_post == packed_pre {
            assert(unpacked_pre.push(item).to_multiset() =~= unpacked_pre.to_multiset().insert(
                item,
            ));
            if is_subsequence(unpacked_pre, orig.take(processed)) {
                lemma_subseq_push(unpacked_pre, orig.take(processed), item);
            }
        } else {
            assert(packed_items(packed_post) =~= packed_items(packed_pre).push(item));
            assert(packed_items(packed_pre).push(item).to_multiset() =~= packed_items(
                packed_pre,
            ).to_multiset().insert(item));
            if is_subsequence(unpacked_pre, orig.take(processed)) {
                lemma_subseq_extend(unpacked_pre, orig.take(processed), item);
            }
        }
    }
}

impl Packer {
    /// Fill one page. Items are taken in order; each is trimmed when
    /// trimming is on, padded on all sides, and placed by the configured
    /// strategy; an item the page cannot hold is handed back, in its
    /// original relative order, for the next page. Every placement lies in
    /// the page and no two placements overlap.
    pub fn pack_single_atlas(&self, items: Vec<PackableItem>, page_index: usize) -> (r: Result<
        (Atlas, Vec<PackableItem>),
        PackError,
    >)
        ensures
            r is Err ==> (r->Err_0 matches PackError::ImageDecodeFailure { .. } || r->Err_0 matches
                PackError::ImageEncodeFailure { .. }),
            r is Err && (r->Err_0 matches PackError::ImageEncodeFailure { .. }) ==> (
            page_area_overflow(self.options) || exists|sprites: Seq<PackedSprite>, page: Size|
                #![trigger failed_page(self.options, sprites, page)]
                failed_page(self.options, sprites, page)),
            ((items_surely_place(items@, self.options) && (forall|i: int|
                0 <= i < items@.len() ==> decoded_image(
                    (#[trigger] items@[i]).spec_sprite().data@,
                ) is Some)) ==> !(r is Err && (r->Err_0 matches PackError::ImageDecodeFailure {
                ..
            }))),
            r is Ok ==> ({
                let pair = r->Ok_0;
                &&& atlas_ok(pair.0)
                &&& atlas_image_ok(pair.0, self.options.spec_extrude() as int)
                &&& resolved_page_ok(self.options, pair.0.size)
                &&& pair.0.page_index == page_index
                &&& pair.0.sprites@.len() + pair.1@.len() == items@.len()
                &&& forall|k: int|
                    0 <= k < pair.0.sprites@.len() ==> placed_sprite_ok(
                        #[trigger] pair.0.sprites@[k],
                        pair.0.size,
                        self.options.spec_padding() as int,
                    )
                &&& forall|k1: int, k2: int|
                    0 <= k1 < k2 < pair.0.sprites@.len() ==> padded_disjoint(
                        (#[trigger] pair.0.sprites@[k1]).rect,
                        (#[trigger] pair.0.sprites@[k2]).rect,
                        self.options.spec_padding() as int,
                    )
                &&& (!self.options.spec_allow_trim() ==> packed_items(
                    pair.0.sprites@,
                ).to_multiset().add(pair.1@.to_multiset()) =~= items@.to_multiset())
                &&& (!self.options.spec_allow_trim() ==> is_subsequence(pair.1@, items@))
                &&& (items@.len() > 0 && first_item_placeable(items@[0], self.options)
                    ==> pair.0.sprites@.len() >= 1)
                &&& (items_surely_place(items@, self.options) ==> ({
                    &&& (items@.len() > 0 ==> pair.0.sprites@.len() >= 1)
                    &&& items_surely_place(pair.1@, self.options)
                    &&& ((forall|i: int|
                        0 <= i < items@.len() ==> decoded_image(
                            (#[trigger] items@[i]).spec_sprite().data@,
                        ) is Some) ==> ((forall|k: int|
                        0 <= k < pair.0.sprites@.len() ==> decoded_image(
                            (#[trigger] pair.0.sprites@[k]).item.spec_sprite().data@,
                        ) is Some) && (forall|k: int|
                        0 <= k < pair.1@.len() ==> decoded_image(
                            (#[trigger] pair.1@[k]).spec_sprite().data@,
                        ) is Some)))
                }))
                &&& ((forall|i: int|
                    0 <= i < items@.len() ==> item_mode_ok(
                        #[trigger] items@[i],
                        self.options.mode,
                    )) ==> ((forall|k: int|
                    0 <= k < pair.0.sprites@.len() ==> item_mode_ok(
                        (#[trigger] pair.0.sprites@[k]).item,
                        self.options.mode,
                    )) && (forall|k: int|
                    0 <= k < pair.1@.len() ==> item_mode_ok(
                        #[trigger] pair.1@[k],
                        self.options.mode,
                    ))))
            }),
    {
        let (max_width, max_height) = self.options.max_size();
        let atlas_size = if self.options.power_of_two() {
            Size { width: next_pow2(max_width), height: next_pow2(max_height) }
        } else {
            Size { width: max_width, height: max_height }
        };
        proof {
            lemma_mul_u64(atlas_size.width as int, atlas_size.height as int);
            assert(resolved_page_ok(self.options, atlas_size));
            assert(atlas_size.width >= self.options.spec_max_size().0);
            assert(atlas_size.height >= self.options.spec_max_size().1);
        }
        if atlas_size.width as u64 * atlas_size.height as u64 > usize::MAX as u64 / 4 {
            proof {
                assert(page_area_overflow(self.options));
            }
            return Err(PackError::ImageEncodeFailure { name: ("atlas page").to_owned() });
        }
        proof {
            assert(atlas_size.width as int * (atlas_size.height as int) * 4 <= usize::MAX)
                by (nonlinear_arith)
                requires
                    atlas_size.width as int * (atlas_size.height as int) <= (usize::MAX as int)
                        / 4,
                    atlas_size.width as int >= 0,
                    atlas_size.height as int >= 0,
            ;
        }
        let padding = self.options.padding();
        let algorithm = self.options.algorithm();
        let mut packer = BinPacker::new(atlas_size, algorithm);
        let mut remaining = items;
        let ghost orig = remaining@;
        let mut packed_sprites: Vec<PackedSprite> = Vec::new();
        let mut unpacked: Vec<PackableItem> = Vec::new();
        proof {
            lemma_placed_identity_init(orig);
            assert(packed_sprites@ =~= Seq::<PackedSprite>::empty());
            assert(unpacked@ =~= Seq::<PackableItem>::empty());
        }
        while remaining.len() > 0
            invariant
                packer.wf(),
                packer.spec_page() == atlas_size,
                atlas_size.width as int * (atlas_size.height as int) * 4 <= usize::MAX,
                padding == self.options.spec_padding(),
                atlas_size.width >= self.options.spec_max_size().0,
                atlas_size.height >= self.options.spec_max_size().1,
                packed_sprites@.len() == packer.placements().len(),
                forall|k: int|
                    0 <= k < packed_sprites@.len() ==> rect_contains(
                        packer.placements()[k],
                        (#[trigger] packed_sprites@[k]).rect,
                    ),
                forall|k: int|
                    0 <= k < packed_sprites@.len() ==> ({
                        let ps = #[trigger] packed_sprites@[k];
                        let pl = packer.placements()[k];
                        &&& pl.x + padding == ps.rect.x
                        &&& pl.y + padding == ps.rect.y
                        &&& pl.width == ps.rect.width + 2 * padding
                        &&& pl.height == ps.rect.height + 2 * padding
                    }),
                forall|k: int|
                    0 <= k < packed_sprites@.len() ==> placed_sprite_ok(
                        #[trigger] packed_sprites@[k],
                        atlas_size,
                        padding as int,
                    ),
                packed_sprites@.len() == 0 && unpacked@.len() == 0 ==> (forall|s: Size|
                    packer.can_fit(s) == (s.width <= atlas_size.width && s.height
                        <= atlas_size.height)),
                (orig.len() > 0 && first_item_placeable(orig[0], self.options)) ==> (
                packed_sprites@.len() + unpacked@.len() == 0 || packed_sprites@.len() >= 1),
                (!self.options.spec_allow_trim() ==> packed_items(
                    packed_sprites@,
                ).to_multiset().add(unpacked@.to_multiset()) =~= orig.take(
                    (packed_sprites@.len() + unpacked@.len()) as int,
                ).to_multiset()),
                (!self.options.spec_allow_trim() ==> is_subsequence(
                    unpacked@,
                    orig.take((packed_sprites@.len() + unpacked@.len()) as int),
                )),
                (items_surely_place(orig, self.options) ==> forall|k: int|
                    0 <= k < unpacked@.len() ==> item_padded_fits(
                        #[trigger] unpacked@[k],
                        self.options,
                    )),
                ((items_surely_place(orig, self.options) && (forall|i: int|
                    0 <= i < orig.len() ==> decoded_image(
                        (#[trigger] orig[i]).spec_sprite().data@,
                    ) is Some)) ==> ((forall|k: int|
                    0 <= k < packed_sprites@.len() ==> decoded_image(
                        (#[trigger] packed_sprites@[k]).item.spec_sprite().data@,
                    ) is Some) && (forall|k: int|
                    0 <= k < unpacked@.len() ==> decoded_image(
                        (#[trigger] unpacked@[k]).spec_sprite().data@,
                    ) is Some))),
                forall|k: int|
                    0 <= k < packer.placements().len() ==> rect_in_page(
                        #[trigger] packer.placements()[k],
                        atlas_size,
                    ),
                forall|k1: int, k2: int|
                    0 <= k1 < k2 < packer.placements().len() ==> rects_disjoint(
                        #[trigger] packer.placements()[k1],
                        #[trigger] packer.placements()[k2],
                    ),
                packed_sprites@.len() + unpacked@.len() + remaining@.len() == orig.len(),
                remaining@ =~= orig.skip((packed_sprites@.len() + unpacked@.len()) as int),
                (forall|i: int|
                    0 <= i < orig.len() ==> item_mode_ok(#[trigger] orig[i], self.options.mode))
                    ==> ((forall|k: int|
                    0 <= k < packed_sprites@.len() ==> item_mode_ok(
                        (#[trigger] packed_sprites@[k]).item,
                        self.options.mode,
                    )) && (forall|k: int|
                    0 <= k < unpacked@.len() ==> item_mode_ok(
                        #[trigger] unpacked@[k],
                        self.options.mode,
                    ))),
            decreases remaining@.len(),
        {
            let ghost processed = (packed_sprites@.len() + unpacked@.len()) as int;
            let mut item = remaining.remove(0);
            proof {
                assert(item == orig[processed]);
                assert(orig.skip(processed).remove(0) =~= orig.skip(processed + 1));
            }
            let ghost item0 = item;
            let original_rect = self.trim_sprite(item.sprite_mut());
            proof {
                if forall|i: int|
                    0 <= i < orig.len() ==> item_mode_ok(#[trigger] orig[i], self.options.mode) {
                    assert(item_mode_ok(item0, self.options.mode));
                    if original_rect is Some {
                        assert(self.options.spec_allow_trim());
                        assert(self.options.mode is Static);
                        assert(item0 is Static);
                    } else {
                        assert(item == item0.spec_with_sprite(item0.spec_sprite()));
                    }
                    assert(item_mode_ok(item, self.options.mode));
                }
                if original_rect is None {
                    assert(item == item0.spec_with_sprite(item0.spec_sprite()));
                    assert(item == item0);
                }
                if first_item_placeable(item0, self.options) {
                    // The trimmed sprite still fits padded: unchanged, or no
                    // larger than the decoded image, which fits by premise.
                    if original_rect is Some {
                        let bx = choose|bx: int, by: int, ex: int, ey: int|
                            trim_result_ok(
                                item0.spec_sprite(),
                                item.spec_sprite(),
                                bx,
                                by,
                                ex,
                                ey,
                            );
                    }
                    assert(item_padded_fits(item, self.options));
                }
            }
            let sprite_size = item.sprite().size;
            let padded_w = sprite_size.width as u64 + 2 * padding as u64;
            let padded_h = sprite_size.height as u64 + 2 * padding as u64;
            if padded_w <= u32::MAX as u64 && padded_h <= u32::MAX as u64 {
                let required = Size { width: padded_w as u32, height: padded_h as u32 };
                proof {
                    if packed_sprites@.len() == 0 && unpacked@.len() == 0
                        && first_item_placeable(item0, self.options) {
                        assert(required.width <= atlas_size.width && required.height
                            <= atlas_size.height);
                        assert(packer.can_fit(required));
                    }
                }
                let ghost packed_pre = packed_sprites@;
                let ghost unpacked_pre = unpacked@;
                match packer.pack(required) {
                    Some(prect) => {
                        proof {
                            assert(rect_in_page(prect, atlas_size));
                        }
                        let sprite_rect = Rect {
                            x: prect.x + padding,
                            y: prect.y + padding,
                            width: sprite_size.width,
                            height: sprite_size.height,
                        };
                        proof {
                            assert(rect_contains(prect, sprite_rect));
                        }
                        packed_sprites.push(
                            PackedSprite {
                                item,
                                rect: sprite_rect,
                                trimmed: original_rect.is_some(),
                                sprite_source_size: original_rect,
                            },
                        );
                        proof {
                            lemma_processed_step(
                                self.options,
                                orig,
                                packed_pre,
                                unpacked_pre,
                                packed_sprites@,
                                unpacked@,
                                item,
                                item0,
                                processed,
                            );
                        }
                    },
                    None => {
                        unpacked.push(item);
                        proof {
                            lemma_processed_step(
                                self.options,
                                orig,
                                packed_pre,
                                unpacked_pre,
                                packed_sprites@,
                                unpacked@,
                                item,
                                item0,
                                processed,
                            );
                        }
                    },
                }
            } else {
                proof {
                    assert(!item_padded_fits(item, self.options));
                }
                let ghost packed_pre = packed_sprites@;
                let ghost unpacked_pre = unpacked@;
                unpacked.push(item);
                proof {
                    lemma_processed_step(
                        self.options,
                        orig,
                        packed_pre,
                        unpacked_pre,
                        packed_sprites@,
                        unpacked@,
                        item,
                        item0,
                        processed,
                    );
                }
            }
        }
        let image_data = match self.render_atlas(&packed_sprites, atlas_size) {
            Ok(d) => d,
            Err(e) => {
                proof {
                    if e matches PackError::ImageEncodeFailure { .. } {
                        assert(failed_page(self.options, packed_sprites@, atlas_size));
                    }
                    if items_surely_place(orig, self.options) && (forall|i: int|
                        0 <= i < orig.len() ==> decoded_image(
                            (#[trigger] orig[i]).spec_sprite().data@,
                        ) is Some) {
                        if e matches PackError::ImageDecodeFailure { .. } {
                            let bad = choose|k: int|
                                0 <= k < packed_sprites@.len() && decoded_image(
                                    (#[trigger] packed_sprites@[k]).item.spec_sprite().data@,
                                ) is None && (match e {
                                    PackError::ImageDecodeFailure { name } => name@
                                        == packed_sprites@[k].item.spec_sprite().name@,
                                    _ => false,
                                });
                            assert(false);
                        }
                    }
                }
                return Err(e);
            },
        };
        let atlas = Atlas { page_index, image_data, size: atlas_size, sprites: packed_sprites };
        proof {
            assert(atlas_ok(atlas));
            assert forall|k1: int, k2: int|
                0 <= k1 < k2 < atlas.sprites@.len() implies padded_disjoint(
                (#[trigger] atlas.sprites@[k1]).rect,
                (#[trigger] atlas.sprites@[k2]).rect,
                padding as int,
            ) by {
                assert(rects_disjoint(packer.placements()[k1], packer.placements()[k2]));
            }
            if items_surely_place(orig, self.options) && orig.len() > 0 {
                assert(item_padded_fits(orig[0], self.options));
                assert(first_item_placeable(orig[0], self.options));
            }
            if !self.options.spec_allow_trim() {
                assert(orig.take(orig.len() as int) =~= orig);
            }
        }
        Ok((atlas, unpacked))
    }

    /// Pack all items across as many pages as geometry requires: a fresh
    /// page is filled from the still-unplaced items until none remain. On
    /// success every item is placed exactly once, every page satisfies the
    /// placement guarantee, and page indices run in order. A page that
    /// accepts no item at all aborts instead of looping forever.
    pub fn pack_sprites_to_atlases(&self, items: Vec<PackableItem>) -> (r: Result<
        Vec<Atlas>,
        PackError,
    >)
        ensures
            r is Err ==> !(r->Err_0 matches PackError::PageLimitExceeded { .. }),
            r is Err && (r->Err_0 matches PackError::ImageEncodeFailure { .. }) ==> (
            page_area_overflow(self.options) || exists|sprites: Seq<PackedSprite>, page: Size|
                #![trigger failed_page(self.options, sprites, page)]
                failed_page(self.options, sprites, page)),
            (items_surely_place(items@, self.options) ==> !(r is Err && (
            r->Err_0 matches PackError::NoProgress { .. }))),
            ((items_surely_place(items@, self.options) && (forall|i: int|
                0 <= i < items@.len() ==> decoded_image(
                    (#[trigger] items@[i]).spec_sprite().data@,
                ) is Some)) ==> (r is Ok || (r->Err_0 matches PackError::ImageEncodeFailure {
                ..
            }))),
            r is Ok ==> ({
                let atlases = r->Ok_0;
                &&& forall|a: int|
                    0 <= a < atlases@.len() ==> atlas_ok(#[trigger] atlases@[a])
                        && atlases@[a].page_index == a && atlas_image_ok(
                        atlases@[a],
                        self.options.spec_extrude() as int,
                    ) && atlases@[a].sprites@.len() >= 1 && resolved_page_ok(
                        self.options,
                        atlases@[a].size,
                    )
                &&& total_placed(atlases@) == items@.len()
                &&& (!self.options.spec_allow_trim() ==> placed_items_all(
                    atlases@,
                ).to_multiset() =~= items@.to_multiset())
                &&& ((forall|i: int|
                    0 <= i < items@.len() ==> item_mode_ok(
                        #[trigger] items@[i],
                        self.options.mode,
                    )) ==> (forall|a: int, k: int|
                    0 <= a < atlases@.len() && 0 <= k < atlases@[a].sprites@.len()
                        ==> item_mode_ok(
                        (#[trigger] atlases@[a].sprites@[k]).item,
                        self.options.mode,
                    )))
            }),
    {
        let mut atlases: Vec<Atlas> = Vec::new();
        let mut remaining = items;
        let ghost orig = remaining@;
        proof {
            broadcast use vstd::multiset::group_multiset_axioms;
            broadcast use vstd::seq_lib::to_multiset_len;
            broadcast use vstd::multiset::lemma_multiset_empty_len;

            assert(placed_items_all(atlases@) =~= Seq::<PackableItem>::empty());
            assert(Seq::<PackableItem>::empty().to_multiset().len() == 0);
            assert(placed_items_all(atlases@).to_multiset().add(remaining@.to_multiset())
                =~= remaining@.to_multiset());
        }
        while remaining.len() > 0
            invariant
                forall|a: int|
                    0 <= a < atlases@.len() ==> atlas_ok(#[trigger] atlases@[a])
                        && atlases@[a].page_index == a && atlas_image_ok(
                        atlases@[a],
                        self.options.spec_extrude() as int,
                    ) && atlases@[a].sprites@.len() >= 1 && resolved_page_ok(
                        self.options,
                        atlases@[a].size,
                    ),
                orig == items@,
                (!self.options.spec_allow_trim() ==> placed_items_all(
                    atlases@,
                ).to_multiset().add(remaining@.to_multiset()) =~= orig.to_multiset()),
                (items_surely_place(orig, self.options) ==> items_surely_place(
                    remaining@,
                    self.options,
                )),
                ((items_surely_place(orig, self.options) && (forall|i: int|
                    0 <= i < orig.len() ==> decoded_image(
                        (#[trigger] orig[i]).spec_sprite().data@,
                    ) is Some)) ==> (forall|i: int|
                    0 <= i < remaining@.len() ==> decoded_image(
                        (#[trigger] remaining@[i]).spec_sprite().data@,
                    ) is Some)),
                total_placed(atlases@) + remaining@.len() == orig.len(),
                (forall|i: int|
                    0 <= i < orig.len() ==> item_mode_ok(#[trigger] orig[i], self.options.mode))
                    ==> ((forall|a: int, k: int|
                    0 <= a < atlases@.len() && 0 <= k < atlases@[a].sprites@.len()
                        ==> item_mode_ok(
                        (#[trigger] atlases@[a].sprites@[k]).item,
                        self.options.mode,
                    )) && (forall|i: int|
                    0 <= i < remaining@.len() ==> item_mode_ok(
                        #[trigger] remaining@[i],
                        self.options.mode,
                    ))),
            decreases remaining@.len(),
        {
            let page_index = atlases.len();
            let ghost before = remaining@;
            let pair = match self.pack_single_atlas(remaining, page_index) {
                Ok(p) => p,
                Err(e) => {
                    proof {
                        if items_surely_place(orig, self.options) && (forall|i: int|
                            0 <= i < orig.len() ==> decoded_image(
                                (#[trigger] orig[i]).spec_sprite().data@,
                            ) is Some) {
                            assert(e matches PackError::ImageEncodeFailure { .. });
                        }
                    }
                    return Err(e);
                },
            };
            let (atlas, rest) = pair;
            if atlas.sprites.len() == 0 {
                proof {
                    if items_surely_place(orig, self.options) {
                        assert(before.len() > 0);
                        assert(atlas.sprites@.len() >= 1);
                        assert(false);
                    }
                }
                return Err(PackError::NoProgress { page_index: page_index as u64 });
            }
            proof {
                assert(atlases@.push(atlas).drop_last() =~= atlases@);
                assert(atlases@.push(atlas).last() == atlas);
                if !self.options.spec_allow_trim() {
                    broadcast use vstd::multiset::group_multiset_axioms;

                    assert(placed_items_all(atlases@.push(atlas)) == placed_items_all(atlases@)
                        + packed_items(atlas.sprites@));
                    vstd::seq_lib::lemma_multiset_commutative(
                        placed_items_all(atlases@),
                        packed_items(atlas.sprites@),
                    );
                    assert(packed_items(atlas.sprites@).to_multiset().add(rest@.to_multiset())
                        =~= before.to_multiset());
                    assert(placed_items_all(atlases@.push(atlas)).to_multiset().add(
                        rest@.to_multiset(),
                    ) =~= orig.to_multiset());
                }
            }
            atlases.push(atlas);
            remaining = rest;
        }
        proof {
            assert(remaining@.len() == 0);
            if !self.options.spec_allow_trim() {
                broadcast use vstd::multiset::group_multiset_axioms;
                broadcast use vstd::seq_lib::to_multiset_len;
                broadcast use vstd::multiset::lemma_multiset_empty_len;

                assert(remaining@.to_multiset().len() == 0);
                assert(placed_items_all(atlases@).to_multiset().add(remaining@.to_multiset())
                    =~= placed_items_all(atlases@).to_multiset());
            }
        }
        Ok(atlases)
    }

    /// Build the manifest: one entry per placed sprite, page by page in
    /// placement order, carrying each sprite's name, rectangle, stored
    /// size, trim data, page index, and — for animated items — frame
    /// count, frame size, resolved layout, frame duration and loop flag.
    pub fn create_manifest(&self, atlases: &Vec<Atlas>, input_name: &str) -> (r: Result<
        AtlasManifest,
        PackError,
    >)
        ensures
            r is Ok,
            r->Ok_0.name@ == input_name@,
            manifest_matches(atlases@, r->Ok_0.sprites@),
    {
        let mut manifest = AtlasManifest::new(input_name.to_owned());
        let na = atlases.len();
        let mut a: usize = 0;
        proof {
            assert(atlases@.take(0) =~= Seq::<Atlas>::empty());
        }
        while a < na
            invariant
                na == atlases@.len(),
                a <= na,
                manifest.name@ == input_name@,
                manifest_matches(atlases@.take(a as int), manifest.sprites@),
            decreases na - a,
        {
            let atlas = &atlases[a];
            let ns = atlas.sprites.len();
            let ghost base = manifest.sprites@;
            let mut k: usize = 0;
            while k < ns
                invariant
                    na == atlases@.len(),
                    a < na,
                    atlas == atlases@[a as int],
                    ns == atlas.sprites@.len(),
                    k <= ns,
                    manifest.name@ == input_name@,
                    manifest.sprites@.len() == base.len() + k,
                    manifest.sprites@.take(base.len() as int) =~= base,
                    manifest_matches(atlases@.take(a as int), base),
                    forall|j: int|
                        0 <= j < k ==> info_matches(
                            atlases@[a as int].sprites@[j],
                            atlases@[a as int].page_index as int,
                            #[trigger] manifest.sprites@[base.len() + j],
                        ),
                decreases ns - k,
            {
                let ps = &atlas.sprites[k];
                let sprite = ps.item.sprite();
                let animation: Option<AnimationInfo> = match &ps.item {
                    PackableItem::Animated(anim) => {
                        let layout_info = match &anim.layout {
                            AnimationLayout::HorizontalStrip => AnimationLayoutInfo::HorizontalStrip,
                            AnimationLayout::VerticalStrip => AnimationLayoutInfo::VerticalStrip,
                            AnimationLayout::Grid { columns } => {
                                let cols = match columns {
                                    Some(c) => if *c == 0 {
                                        1
                                    } else {
                                        *c
                                    },
                                    None => crate::animation::ceil_sqrt(anim.frame_count),
                                };
                                proof {
                                    if anim.frame_count == 0 {
                                        assert((cols as int - 1) * (cols as int - 1) >= 0)
                                            by (nonlinear_arith);
                                    }
                                    assert(grid_cols_ok(
                                        *columns,
                                        anim.frame_count as int,
                                        cols as int,
                                    ));
                                }
                                AnimationLayoutInfo::Grid { columns: cols }
                            },
                        };
                        Some(
                            AnimationInfo {
                                frame_count: anim.frame_count,
                                frame_size: anim.frame_size,
                                layout: layout_info,
                                frame_duration_ms: anim.frame_duration_ms,
                                loops: anim.loops,
                            },
                        )
                    },
                    PackableItem::Static(_) => None,
                };
                let info = SpriteInfo {
                    name: sprite.name.clone(),
                    rect: ps.rect,
                    source_size: sprite.size,
                    trimmed: ps.trimmed,
                    sprite_source_size: ps.sprite_source_size,
                    page_index: atlas.page_index,
                    animation,
                };
                manifest.add_sprite(info);
                proof {
                    assert(manifest.sprites@.take(base.len() as int) =~= base);
                }
                k += 1;
            }
            proof {
                assert(atlases@.take(a + 1).drop_last() =~= atlases@.take(a as int));
                assert(atlases@.take(a + 1).last() == atlases@[a as int]);
                assert(manifest.sprites@.take(manifest.sprites@.len() - ns) =~= base);
                assert(atlas_infos_match(
                    atlases@[a as int],
                    manifest.sprites@.skip(manifest.sprites@.len() - ns),
                )) by {
                    assert forall|j: int|
                        0 <= j < ns implies info_matches(
                        atlases@[a as int].sprites@[j],
                        atlases@[a as int].page_index as int,
                        #[trigger] manifest.sprites@.skip(manifest.sprites@.len() - ns)[j],
                    ) by {
                        assert(manifest.sprites@.skip(manifest.sprites@.len() - ns)[j]
                            == manifest.sprites@[base.len() + j]);
                    }
                }
                assert(manifest_matches(atlases@.take(a + 1), manifest.sprites@));
            }
            a += 1;
        }
        proof {
            assert(atlases@.take(na as int) =~= atlases@);
        }
        Ok(manifest)
    }

    /// Pack a collection of assets into atlases and build their manifest.
    /// Packing must be enabled; items are derived per the configured mode,
    /// deterministically ordered, validated against the page bounds,
    /// placed across pages, and held to the configured page limit — on
    /// any failure nothing is returned.
    pub fn pack_assets(&self, assets: &Vec<Asset>, input_name: &str) -> (r: Result<
        PackResult,
        PackError,
    >)
        ensures
            !self.options.enabled ==> (r is Err && match r->Err_0 {
                PackError::PackingDisabled { input_name: n } => n@ == input_name@,
                _ => false,
            }),
            r is Ok ==> ({
                let pr = r->Ok_0;
                &&& pr.manifest.name@ == input_name@
                &&& manifest_matches(pr.atlases@, pr.manifest.sprites@)
                &&& forall|a: int|
                    0 <= a < pr.atlases@.len() ==> atlas_ok(#[trigger] pr.atlases@[a])
                        && pr.atlases@[a].page_index == a && atlas_image_ok(
                        pr.atlases@[a],
                        self.options.spec_extrude() as int,
                    )
                &&& match self.options.spec_page_limit() {
                    Some(limit) => pr.atlases@.len() <= limit,
                    None => true,
                }
                &&& forall|a: int, k: int|
                    0 <= a < pr.atlases@.len() && 0 <= k < pr.atlases@[a].sprites@.len()
                        ==> item_mode_ok(
                        (#[trigger] pr.atlases@[a].sprites@[k]).item,
                        self.options.mode,
                    )
            }),
            r is Err ==> match r->Err_0 {
                PackError::PageLimitExceeded { required, allowed } => required > allowed
                    && self.options.spec_page_limit() == Some(allowed),
                _ => true,
            },
            (self.options.enabled && assets@.len() == 0 && (match self.options.mode {
                PackMode::Animated(o) => regex_valid(o.frame_pattern@),
                PackMode::Static(_) => true,
            })) ==> (r is Ok && r->Ok_0.atlases@.len() == 0 && r->Ok_0.manifest.sprites@.len()
                == 0),
            (self.options.enabled && assets_surely_pack(assets@, self.options)) ==> (r is Ok || (
            r->Err_0 matches PackError::ImageEncodeFailure { .. }) || (
            r->Err_0 matches PackError::PageLimitExceeded { .. })),
            r is Ok ==> (match self.options.mode {
                PackMode::Static(_) => total_placed(r->Ok_0.atlases@) == kept_indices(
                    assets@,
                    self.options.spec_dedupe(),
                ).len(),
                PackMode::Animated(o) => total_placed(r->Ok_0.atlases@) == crate::animation::detect_count(
                    assets@,
                    o,
                ),
            }),
    {
        if !self.options.enabled {
            return Err(PackError::PackingDisabled { input_name: input_name.to_owned() });
        }

        let sprites = match self.assets_to_sprites(assets) {
            Ok(s) => s,
            Err(e) => {
                proof {
                    if assets_surely_pack(assets@, self.options) {
                        assert(false);
                    }
                }
                return Err(e);
            },
        };
        if sprites.len() == 0 {
            let empty_manifest = AtlasManifest::new(input_name.to_owned());
            proof {
                assert(manifest_matches(Seq::<Atlas>::empty(), empty_manifest.sprites@));
                assert(total_placed(Seq::<Atlas>::empty()) == 0);
            }
            return Ok(PackResult { atlases: Vec::new(), manifest: empty_manifest });
        }

        // Sort for deterministic packing; the order is a permutation, so
        // every item keeps the shape its mode allows.
        let mut sorted = sprites;
        let ghost pre_sort = sorted@;
        self.sort_sprites(&mut sorted);
        proof {
            if assets_surely_pack(assets@, self.options) {
                crate::animation::lemma_kept_indices_image(
                    assets@,
                    self.options.spec_dedupe(),
                );
                assert forall|k: int| 0 <= k < pre_sort.len() implies item_padded_fits(
                    #[trigger] pre_sort[k],
                    self.options,
                ) && decoded_image(pre_sort[k].spec_sprite().data@) is Some by {
                    let kept = kept_indices(assets@, self.options.spec_dedupe());
                    assert(static_item_from(pre_sort[k], assets@[kept[k]]));
                    assert(assets@[kept[k]].kind is Image);
                }
            }
            assert forall|i: int| 0 <= i < sorted@.len() implies item_mode_ok(
                #[trigger] sorted@[i],
                self.options.mode,
            ) && (assets_surely_pack(assets@, self.options) ==> item_padded_fits(
                sorted@[i],
                self.options,
            ) && decoded_image(sorted@[i].spec_sprite().data@) is Some) by {
                let x = sorted@[i];
                assert(sorted@.contains(x));
                vstd::seq_lib::to_multiset_contains(sorted@, x);
                vstd::seq_lib::to_multiset_contains(pre_sort, x);
                assert(pre_sort.contains(x));
                let j = choose|j: int| 0 <= j < pre_sort.len() && pre_sort[j] == x;
                assert(item_mode_ok(pre_sort[j], self.options.mode));
                if assets_surely_pack(assets@, self.options) {
                    assert(item_padded_fits(pre_sort[j], self.options));
                    assert(decoded_image(pre_sort[j].spec_sprite().data@) is Some);
                }
            }
            if assets_surely_pack(assets@, self.options) {
                assert(items_surely_place(sorted@, self.options));
            }
            crate::sort::lemma_sort_spec_props(self.options.spec_sort(), pre_sort);
            assert(sorted@.len() == pre_sort.len());
        }

        match self.validate_sprite_sizes(&sorted) {
            Ok(_) => {},
            Err(e) => {
                proof {
                    if assets_surely_pack(assets@, self.options) {
                        assert forall|i: int| 0 <= i < sorted@.len() implies item_fits(
                            #[trigger] sorted@[i],
                            self.options.spec_max_size().0,
                            self.options.spec_max_size().1,
                        ) by {
                            assert(item_padded_fits(sorted@[i], self.options));
                        }
                        assert(false);
                    }
                }
                return Err(e);
            },
        }

        let atlases = match self.pack_sprites_to_atlases(sorted) {
            Ok(a) => a,
            Err(e) => {
                proof {
                    if assets_surely_pack(assets@, self.options) {
                        assert(e matches PackError::ImageEncodeFailure { .. });
                    }
                }
                return Err(e);
            },
        };

        if let Some(limit) = self.options.page_limit() {
            if atlases.len() as u64 > limit as u64 {
                return Err(
                    PackError::PageLimitExceeded {
                        required: atlases.len() as u64,
                        allowed: limit,
                    },
                );
            }
        }

        let manifest = match self.create_manifest(&atlases, input_name) {
            Ok(m) => m,
            Err(e) => {
                return Err(e);
            },
        };
        Ok(PackResult { atlases, manifest })
    }
}

} // verus!
