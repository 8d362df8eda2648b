//! Animation-frame detection and strip synthesis. In animated mode each
//! asset's file stem is held against the configured frame pattern; matching
//! frames are grouped by extracted name, ordered by frame index, and each
//! group with enough frames is composed into one strip image. Groups are
//! kept in first-encounter order and frames in index order, so detection is
//! deterministic.

use vstd::prelude::*;
use vstd::string::*;

use crate::asset::{Asset, AssetKind};
use crate::config::{AnimatedOptions, AnimationLayout, PackMode};
use crate::error::PackError;
use crate::geom::Size;
use crate::image_io::{decode_image, encode_png, png_encoding};
use crate::pack::{AnimationStrip, PackableItem, Packer, Sprite};
use crate::pixels::{blank_samples, blit_samples, lemma_sample_decompose, sample_at};
use crate::pattern::{compile_check, frame_captures, match_frame, regex_compile_error, regex_valid};
use crate::image_io::decoded_image;
use crate::text::{clone_bytes, file_stem, parse_u32, spec_file_stem, spec_parse_u32, str_eq};

verus! {

/// Ceiling division of nonnegative integers.
pub open spec fn spec_div_ceil(a: int, b: int) -> int {
    (a + b - 1) / b
}

/// The column count a grid layout resolves to: the configured count when
/// one is given (a configured zero is raised to one), else the least count
/// whose square covers the frames.
pub open spec fn grid_cols_ok(columns: Option<u32>, count: int, cols: int) -> bool {
    match columns {
        Some(c) => if c == 0 {
            cols == 1
        } else {
            cols == c
        },
        None => if count <= 0 {
            cols == 0
        } else {
            cols >= 1 && cols * cols >= count && (cols - 1) * (cols - 1) < count
        },
    }
}

/// The layout resolves to exactly one column count.
pub proof fn lemma_layout_cols_unique(layout: AnimationLayout, count: int, c1: int, c2: int)
    requires
        layout_cols_ok(layout, count, c1),
        layout_cols_ok(layout, count, c2),
    ensures
        c1 == c2,
{
    match layout {
        AnimationLayout::Grid { columns } => match columns {
            Some(_) => {},
            None => {
                if count > 0 {
                    assert(!(c1 < c2) && !(c2 < c1)) by (nonlinear_arith)
                        requires
                            c1 >= 1,
                            c2 >= 1,
                            c1 * c1 >= count,
                            c2 * c2 >= count,
                            (c1 - 1) * (c1 - 1) < count,
                            (c2 - 1) * (c2 - 1) < count,
                    ;
                }
            },
        },
        _ => {},
    }
}

/// The strip image has exactly the size its layout prescribes for its
/// frame size and frame count.
pub open spec fn strip_dims_ok(a: AnimationStrip) -> bool {
    match a.layout {
        AnimationLayout::HorizontalStrip => a.strip_sprite.size.width == a.frame_size.width
            * a.frame_count && a.strip_sprite.size.height == a.frame_size.height,
        AnimationLayout::VerticalStrip => a.strip_sprite.size.width == a.frame_size.width
            && a.strip_sprite.size.height == a.frame_size.height * a.frame_count,
        AnimationLayout::Grid { columns } => exists|cols: int|
            #![trigger grid_cols_ok(columns, a.frame_count as int, cols)]
            grid_cols_ok(columns, a.frame_count as int, cols) && a.strip_sprite.size.width
                == a.frame_size.width * cols && a.strip_sprite.size.height == a.frame_size.height
                * spec_div_ceil(a.frame_count as int, cols),
    }
}

/// The strip dimensions a layout prescribes for a frame size, a resolved
/// column count and a frame count.
pub open spec fn strip_dims(
    layout: AnimationLayout,
    fw: int,
    fh: int,
    cols: int,
    count: int,
) -> (int, int) {
    match layout {
        AnimationLayout::HorizontalStrip => (fw * count, fh),
        AnimationLayout::VerticalStrip => (fw, fh * count),
        AnimationLayout::Grid { .. } => (fw * cols, fh * spec_div_ceil(count, cols)),
    }
}

/// Strip synthesis surely succeeds on these frames: there is at least one,
/// the count and the laid-out dimensions are representable, every frame
/// decodes, and the composed canvas encodes.
pub open spec fn combine_will_succeed(frames: Seq<Sprite>, layout: AnimationLayout) -> bool {
    &&& frames.len() >= 1
    &&& frames.len() <= 0xffff_ffff
    &&& (forall|k: int|
        0 <= k < frames.len() ==> decoded_image((#[trigger] frames[k]).data@) is Some)
    &&& exists|cols: int|
        #![trigger layout_cols_ok(layout, frames.len() as int, cols)]
        layout_cols_ok(layout, frames.len() as int, cols) && ({
            let dims = strip_dims(
                layout,
                frames[0].size.width as int,
                frames[0].size.height as int,
                cols,
                frames.len() as int,
            );
            &&& dims.0 <= u32::MAX
            &&& dims.1 <= u32::MAX
            &&& dims.0 * dims.1 <= (usize::MAX as int) / 4
            &&& png_encoding(
                dims.0 as nat,
                dims.1 as nat,
                strip_samples(
                    frames,
                    layout,
                    frames[0].size.width as int,
                    frames[0].size.height as int,
                    cols,
                    dims.0,
                    dims.1,
                    frames.len() as int,
                ),
            ) is Some
        })
}

/// The column count the strip layout resolves to, whatever the layout.
pub open spec fn layout_cols_ok(layout: AnimationLayout, count: int, cols: int) -> bool {
    match layout {
        AnimationLayout::HorizontalStrip => cols == count,
        AnimationLayout::VerticalStrip => cols == 1,
        AnimationLayout::Grid { columns } => grid_cols_ok(columns, count, cols),
    }
}

/// Where frame `i` sits in the strip.
pub open spec fn frame_offset(
    layout: AnimationLayout,
    fw: int,
    fh: int,
    cols: int,
    i: int,
) -> (int, int) {
    match layout {
        AnimationLayout::HorizontalStrip => (i * fw, 0int),
        AnimationLayout::VerticalStrip => (0int, i * fh),
        AnimationLayout::Grid { .. } => ((i % cols) * fw, (i / cols) * fh),
    }
}

/// The strip canvas after the first `k` frames are drawn: each frame's
/// decoded pixels at its layout-derived offset, later frames over earlier
/// ones, pixels beyond the canvas or beyond a 32-bit offset dropped.
pub open spec fn strip_samples(
    frames: Seq<Sprite>,
    layout: AnimationLayout,
    fw: int,
    fh: int,
    cols: int,
    sw: int,
    sh: int,
    k: int,
) -> Seq<u8>
    decreases k,
{
    if k <= 0 {
        blank_samples(sw, sh)
    } else {
        let prev = strip_samples(frames, layout, fw, fh, cols, sw, sh, k - 1);
        let dec = decoded_image(frames[k - 1].data@)->0;
        let off = frame_offset(layout, fw, fh, cols, k - 1);
        if off.0 <= u32::MAX && off.1 <= u32::MAX {
            blit_samples(prev, sw, dec.2, dec.0 as int, dec.1 as int, off.0, off.1)
        } else {
            prev
        }
    }
}

/// A synthesized strip carries the configured layout and timing, honors the
/// minimum frame count, and has the size its layout prescribes.
pub open spec fn anim_item_ok(a: AnimationStrip, opts: AnimatedOptions) -> bool {
    &&& a.frame_count >= opts.min_frames
    &&& a.frame_count >= 1
    &&& a.layout == opts.layout
    &&& a.frame_duration_ms == opts.default_frame_duration_ms
    &&& a.loops == opts.default_loop
    &&& strip_dims_ok(a)
}

/// What detection may hand back: static sprites freely, strips only as
/// `anim_item_ok` allows.
pub open spec fn item_detected_ok(item: PackableItem, opts: AnimatedOptions) -> bool {
    match item {
        PackableItem::Animated(a) => anim_item_ok(a, opts),
        PackableItem::Static(_) => true,
    }
}

/// What a conversion run may hand back under the packer's options: in
/// static mode only static sprites, in animated mode what detection
/// allows.
pub open spec fn item_mode_ok(item: PackableItem, mode: PackMode) -> bool {
    match mode {
        PackMode::Static(_) => item is Static,
        PackMode::Animated(opts) => item_detected_ok(item, opts),
    }
}


/// How one asset's file stem stands against the frame pattern: `None` when
/// it does not match, else the extracted animation name (the `name`
/// capture, falling back to the whole stem) and the parsed frame index
/// (the second capture, falling back to zero when absent or unparseable).
pub open spec fn frame_class(opts: AnimatedOptions, a: Asset) -> Option<(Seq<char>, u32)> {
    match frame_captures(opts.frame_pattern@, spec_file_stem(a.path@)) {
        None => None,
        Some(caps) => {
            let nm = match caps.0 {
                Some(nm) => nm,
                None => spec_file_stem(a.path@),
            };
            let ix = match caps.1 {
                Some(s) => match spec_parse_u32(s) {
                    Some(v) => v,
                    None => 0u32,
                },
                None => 0u32,
            };
            Some((nm, ix))
        },
    }
}

/// The sprite one asset becomes: its file stem as the name, its bytes and
/// hash unchanged, its decoded dimensions as the size.
pub open spec fn sprite_from(s: Sprite, a: Asset) -> bool {
    &&& s.name@ == spec_file_stem(a.path@)
    &&& s.data@ == a.data@
    &&& s.hash@ == a.hash@
    &&& decoded_image(a.data@) is Some
    &&& ({
        let dec = decoded_image(a.data@)->0;
        s.size.width as nat == dec.0 && s.size.height as nat == dec.1
    })
}

/// Positions of the image assets whose stems do not match the pattern, in
/// order: these become independent static sprites.
pub open spec fn unmatched_indices(assets: Seq<Asset>, opts: AnimatedOptions) -> Seq<int>
    decreases assets.len(),
{
    if assets.len() == 0 {
        Seq::empty()
    } else {
        let prefix = unmatched_indices(assets.drop_last(), opts);
        let i = (assets.len() - 1) as int;
        if assets[i].kind is Image && frame_class(opts, assets[i]) is None {
            prefix.push(i)
        } else {
            prefix
        }
    }
}

/// The distinct extracted animation names, in first-encounter order.
pub open spec fn group_names(assets: Seq<Asset>, opts: AnimatedOptions) -> Seq<Seq<char>>
    decreases assets.len(),
{
    if assets.len() == 0 {
        Seq::empty()
    } else {
        let prefix = group_names(assets.drop_last(), opts);
        let i = (assets.len() - 1) as int;
        if assets[i].kind is Image && frame_class(opts, assets[i]) is Some {
            let cls = frame_class(opts, assets[i])->0;
            if prefix.contains(cls.0) {
                prefix
            } else {
                prefix.push(cls.0)
            }
        } else {
            prefix
        }
    }
}

/// Insert a frame into an index-sorted run of (frame index, asset
/// position) pairs: before the first strictly larger index, replacing an
/// equal index — so a later frame under the same index wins.
pub open spec fn insert_indexed(frames: Seq<(u32, int)>, num: u32, idx: int) -> Seq<(u32, int)>
    decreases frames.len(),
{
    if frames.len() == 0 {
        seq![(num, idx)]
    } else if frames[0].0 < num {
        seq![frames[0]] + insert_indexed(frames.drop_first(), num, idx)
    } else if frames[0].0 == num {
        seq![(num, idx)] + frames.drop_first()
    } else {
        seq![(num, idx)] + frames
    }
}

/// The frames of one animation group: for every image asset whose stem
/// matches under this name, its (frame index, asset position) pair,
/// accumulated in `insert_indexed` order.
pub open spec fn group_frames(assets: Seq<Asset>, opts: AnimatedOptions, name: Seq<char>) -> Seq<
    (u32, int),
>
    decreases assets.len(),
{
    if assets.len() == 0 {
        Seq::empty()
    } else {
        let prefix = group_frames(assets.drop_last(), opts, name);
        let i = (assets.len() - 1) as int;
        if assets[i].kind is Image && frame_class(opts, assets[i]) is Some && (frame_class(
            opts,
            assets[i],
        )->0).0 == name {
            insert_indexed(prefix, (frame_class(opts, assets[i])->0).1, i)
        } else {
            prefix
        }
    }
}

/// An exec frame list realizes a spec frame list: same indices in the same
/// order, each sprite built from the named asset.
pub open spec fn frames_match(
    frames: Seq<(u32, Sprite)>,
    sfr: Seq<(u32, int)>,
    assets: Seq<Asset>,
) -> bool {
    &&& frames.len() == sfr.len()
    &&& forall|k: int|
        0 <= k < frames.len() ==> ({
            let fr = #[trigger] frames[k];
            &&& fr.0 == sfr[k].0
            &&& 0 <= sfr[k].1 < assets.len()
            &&& sprite_from(fr.1, assets[sfr[k].1])
        })
}

/// How many items one group contributes: each frame alone below the
/// minimum frame count, one strip otherwise.
pub open spec fn group_item_count(assets: Seq<Asset>, opts: AnimatedOptions, name: Seq<char>) -> int {
    let fr = group_frames(assets, opts, name);
    if fr.len() < opts.min_frames {
        fr.len() as int
    } else {
        1
    }
}

/// The items contributed by the first `upto` groups together.
pub open spec fn groups_item_count(assets: Seq<Asset>, opts: AnimatedOptions, upto: int) -> int
    decreases upto,
{
    if upto <= 0 {
        0
    } else {
        groups_item_count(assets, opts, upto - 1) + group_item_count(
            assets,
            opts,
            group_names(assets, opts)[upto - 1],
        )
    }
}

/// How many items detection hands back in all.
pub open spec fn detect_count(assets: Seq<Asset>, opts: AnimatedOptions) -> int {
    unmatched_indices(assets, opts).len() + groups_item_count(
        assets,
        opts,
        group_names(assets, opts).len() as int,
    )
}

/// The strip one group becomes: the group's frame count and name, the
/// first frame's hash and decoded size, the configured layout and timing,
/// and the size the layout prescribes.
pub open spec fn anim_from_group(
    a: AnimationStrip,
    assets: Seq<Asset>,
    sfr: Seq<(u32, int)>,
    name: Seq<char>,
    opts: AnimatedOptions,
) -> bool {
    &&& a.frame_count == sfr.len()
    &&& a.strip_sprite.name@ == name
    &&& a.layout == opts.layout
    &&& a.frame_duration_ms == opts.default_frame_duration_ms
    &&& a.loops == opts.default_loop
    &&& strip_dims_ok(a)
    &&& (sfr.len() >= 1 ==> ({
        let dec = decoded_image(assets[sfr[0].1].data@)->0;
        &&& 0 <= sfr[0].1 < assets.len()
        &&& a.strip_sprite.hash@ == assets[sfr[0].1].hash@
        &&& a.frame_size.width as nat == dec.0
        &&& a.frame_size.height as nat == dec.1
    }))
}

/// The segment one group occupies in the detection result, starting at
/// `offset`: its frames one by one as statics below the minimum frame
/// count, one strip otherwise.
/// Position `offset + j` of the result carries the `j`-th frame of the
/// named dissolved group as a static sprite.
pub open spec fn dissolved_at(
    items: Seq<PackableItem>,
    offset: int,
    assets: Seq<Asset>,
    opts: AnimatedOptions,
    name: Seq<char>,
    j: int,
) -> bool {
    &&& items[offset + j] is Static
    &&& 0 <= group_frames(assets, opts, name)[j].1 < assets.len()
    &&& sprite_from(
        items[offset + j].spec_sprite(),
        assets[group_frames(assets, opts, name)[j].1],
    )
}

pub open spec fn group_segment_ok(
    items: Seq<PackableItem>,
    offset: int,
    assets: Seq<Asset>,
    opts: AnimatedOptions,
    name: Seq<char>,
) -> bool {
    let sfr = group_frames(assets, opts, name);
    if sfr.len() < opts.min_frames {
        forall|j: int|
            0 <= j < sfr.len() ==> #[trigger] dissolved_at(items, offset, assets, opts, name, j)
    } else {
        items[offset] is Animated && anim_from_group(
            items[offset]->Animated_0,
            assets,
            sfr,
            name,
            opts,
        )
    }
}

/// What detection returns, position by position: first one static sprite
/// per non-matching image asset, in input order; then, group by group in
/// first-encounter order, each group's segment.
/// Position `k` of the result carries the `k`-th non-matching image asset
/// as a static sprite.
pub open spec fn static_seg_at(
    items: Seq<PackableItem>,
    assets: Seq<Asset>,
    opts: AnimatedOptions,
    k: int,
) -> bool {
    &&& items[k] is Static
    &&& 0 <= unmatched_indices(assets, opts)[k] < assets.len()
    &&& sprite_from(items[k].spec_sprite(), assets[unmatched_indices(assets, opts)[k]])
}

/// The `g`-th group's segment sits at its computed offset.
pub open spec fn group_seg_at(
    items: Seq<PackableItem>,
    assets: Seq<Asset>,
    opts: AnimatedOptions,
    g: int,
) -> bool {
    group_segment_ok(
        items,
        unmatched_indices(assets, opts).len() + groups_item_count(assets, opts, g),
        assets,
        opts,
        group_names(assets, opts)[g],
    )
}

pub open spec fn detect_items_ok(
    items: Seq<PackableItem>,
    assets: Seq<Asset>,
    opts: AnimatedOptions,
    upto_groups: int,
) -> bool {
    &&& items.len() == unmatched_indices(assets, opts).len() + groups_item_count(
        assets,
        opts,
        upto_groups,
    )
    &&& forall|k: int|
        0 <= k < unmatched_indices(assets, opts).len() ==> #[trigger] static_seg_at(
            items,
            assets,
            opts,
            k,
        )
    &&& forall|g: int| 0 <= g < upto_groups ==> #[trigger] group_seg_at(items, assets, opts, g)
}

/// One sprite of the ordered frame list realizes its source asset.
pub open spec fn ordered_at(
    ordered: Seq<Sprite>,
    assets: Seq<Asset>,
    sfr: Seq<(u32, int)>,
    j: int,
) -> bool {
    &&& 0 <= sfr[j].1 < assets.len()
    &&& sprite_from(ordered[j], assets[sfr[j].1])
}

/// The group segments' total is never negative.
pub proof fn lemma_gic_nonneg(assets: Seq<Asset>, opts: AnimatedOptions, g: int)
    ensures
        groups_item_count(assets, opts, g) >= 0,
    decreases g,
{
    if g > 0 {
        lemma_gic_nonneg(assets, opts, g - 1);
    }
}

/// Group segments never shrink as groups are appended.
pub proof fn lemma_gic_monotone(assets: Seq<Asset>, opts: AnimatedOptions, g1: int, g2: int)
    requires
        0 <= g1 <= g2,
    ensures
        groups_item_count(assets, opts, g1) <= groups_item_count(assets, opts, g2),
    decreases g2 - g1,
{
    if g1 < g2 {
        lemma_gic_monotone(assets, opts, g1, g2 - 1);
    }
}

/// A not-yet-drained static sprite realizes its non-matching image asset,
/// `done` positions in.
pub open spec fn statics_rest_at(
    statics: Seq<Sprite>,
    assets: Seq<Asset>,
    opts: AnimatedOptions,
    done: int,
    k: int,
) -> bool {
    &&& 0 <= unmatched_indices(assets, opts)[done + k] < assets.len()
    &&& sprite_from(statics[k], assets[unmatched_indices(assets, opts)[done + k]])
}

/// A finished group segment survives appending items behind it.
proof fn lemma_group_seg_preserved(
    items1: Seq<PackableItem>,
    items2: Seq<PackableItem>,
    assets: Seq<Asset>,
    opts: AnimatedOptions,
    g: int,
)
    requires
        0 <= g,
        group_seg_at(items1, assets, opts, g),
        unmatched_indices(assets, opts).len() + groups_item_count(assets, opts, g + 1)
            <= items1.len(),
        items1.len() <= items2.len(),
        forall|x: int| 0 <= x < items1.len() ==> items2[x] == items1[x],
    ensures
        group_seg_at(items2, assets, opts, g),
{
    let off = unmatched_indices(assets, opts).len() + groups_item_count(assets, opts, g);
    let name = group_names(assets, opts)[g];
    let sfr = group_frames(assets, opts, name);
    lemma_gic_nonneg(assets, opts, g);
    if sfr.len() < opts.min_frames {
        assert forall|j: int| 0 <= j < sfr.len() implies #[trigger] dissolved_at(
            items2,
            off,
            assets,
            opts,
            name,
            j,
        ) by {
            assert(dissolved_at(items1, off, assets, opts, name, j));
            assert(off + j < items1.len());
            assert(items2[off + j] == items1[off + j]);
        }
    } else {
        assert(off < items1.len());
        assert(items2[off] == items1[off]);
    }
}


/// The group names are pairwise distinct.
pub proof fn lemma_group_names_distinct(assets: Seq<Asset>, opts: AnimatedOptions)
    ensures
        forall|g1: int, g2: int|
            0 <= g1 < g2 < group_names(assets, opts).len() ==> (#[trigger] group_names(
                assets,
                opts,
            )[g1]) != (#[trigger] group_names(assets, opts)[g2]),
    decreases assets.len(),
{
    if assets.len() > 0 {
        lemma_group_names_distinct(assets.drop_last(), opts);
        let prefix = group_names(assets.drop_last(), opts);
        let names = group_names(assets, opts);
        assert forall|g1: int, g2: int|
            0 <= g1 < g2 < names.len() implies (#[trigger] names[g1]) != (
        #[trigger] names[g2]) by {
            if g2 < prefix.len() {
                assert(names[g1] == prefix[g1] && names[g2] == prefix[g2]);
            } else {
                assert(names[g1] == prefix[g1]);
                if prefix[g1] == names[g2] {
                    assert(prefix.contains(names[g2]));
                }
            }
        }
    }
}

/// A name present among a prefix's groups stays present.
proof fn lemma_group_names_monotone(assets: Seq<Asset>, opts: AnimatedOptions, name: Seq<char>)
    requires
        assets.len() > 0,
        group_names(assets.drop_last(), opts).contains(name),
    ensures
        group_names(assets, opts).contains(name),
{
    let prefix = group_names(assets.drop_last(), opts);
    let j = choose|j: int| 0 <= j < prefix.len() && prefix[j] == name;
    assert(group_names(assets, opts)[j] == name);
}

/// A name never extracted from any asset has no frames.
proof fn lemma_absent_name_no_frames(assets: Seq<Asset>, opts: AnimatedOptions, name: Seq<char>)
    requires
        !group_names(assets, opts).contains(name),
    ensures
        group_frames(assets, opts, name) =~= Seq::<(u32, int)>::empty(),
    decreases assets.len(),
{
    if assets.len() > 0 {
        if group_names(assets.drop_last(), opts).contains(name) {
            lemma_group_names_monotone(assets, opts, name);
        }
        lemma_absent_name_no_frames(assets.drop_last(), opts, name);
        let i = (assets.len() - 1) as int;
        if assets[i].kind is Image && frame_class(opts, assets[i]) is Some {
            let cls = frame_class(opts, assets[i])->0;
            if cls.0 == name {
                if group_names(assets.drop_last(), opts).contains(cls.0) {
                    lemma_group_names_monotone(assets, opts, name);
                } else {
                    assert(group_names(assets, opts) == group_names(
                        assets.drop_last(),
                        opts,
                    ).push(cls.0));
                    assert(group_names(assets, opts)[group_names(assets, opts).len() - 1]
                        == name);
                    assert(group_names(assets, opts).contains(name));
                }
                assert(false);
            }
        }
    }
}

/// Realizing a frame list is preserved by one insertion.
#[verifier::rlimit(50)]
proof fn lemma_insert_match(
    frames: Seq<(u32, Sprite)>,
    sfr: Seq<(u32, int)>,
    assets: Seq<Asset>,
    num: u32,
    sprite: Sprite,
    i: int,
)
    requires
        frames_match(frames, sfr, assets),
        0 <= i < assets.len(),
        sprite_from(sprite, assets[i]),
    ensures
        frames_match(insert_frame_spec(frames, num, sprite), insert_indexed(sfr, num, i), assets),
    decreases frames.len(),
{
    let res = insert_frame_spec(frames, num, sprite);
    let sres = insert_indexed(sfr, num, i);
    if frames.len() == 0 {
        assert(res =~= seq![(num, sprite)]);
        assert(sres =~= seq![(num, i)]);
        assert forall|k: int| 0 <= k < res.len() implies ({
            let fr = #[trigger] res[k];
            &&& fr.0 == sres[k].0
            &&& 0 <= sres[k].1 < assets.len()
            &&& sprite_from(fr.1, assets[sres[k].1])
        }) by {
            assert(res[k] == (num, sprite) && sres[k] == (num, i));
        }
        assert(frames_match(res, sres, assets));
    } else {
        assert(frames[0].0 == sfr[0].0);
        let fd = frames.drop_first();
        let sd = sfr.drop_first();
        assert(frames_match(fd, sd, assets)) by {
            assert forall|k: int| 0 <= k < fd.len() implies ({
                let fr = #[trigger] fd[k];
                &&& fr.0 == sd[k].0
                &&& 0 <= sd[k].1 < assets.len()
                &&& sprite_from(fr.1, assets[sd[k].1])
            }) by {
                assert(fd[k] == frames[k + 1] && sd[k] == sfr[k + 1]);
                assert(frames[k + 1].0 == sfr[k + 1].0 && 0 <= sfr[k + 1].1 < assets.len()
                    && sprite_from(frames[k + 1].1, assets[sfr[k + 1].1]));
            }
        }
        if frames[0].0 < num {
            lemma_insert_match(fd, sd, assets, num, sprite, i);
            assert(res == seq![frames[0]] + insert_frame_spec(fd, num, sprite));
            assert(sres == seq![sfr[0]] + insert_indexed(sd, num, i));
            let res2 = insert_frame_spec(fd, num, sprite);
            let sres2 = insert_indexed(sd, num, i);
            assert forall|k: int| 0 <= k < res.len() implies ({
                let fr = #[trigger] res[k];
                &&& fr.0 == sres[k].0
                &&& 0 <= sres[k].1 < assets.len()
                &&& sprite_from(fr.1, assets[sres[k].1])
            }) by {
                if k == 0 {
                    assert(res[0] == frames[0] && sres[0] == sfr[0]);
                    assert(frames[0].0 == sfr[0].0 && 0 <= sfr[0].1 < assets.len()
                        && sprite_from(frames[0].1, assets[sfr[0].1]));
                } else {
                    assert(res[k] == res2[k - 1] && sres[k] == sres2[k - 1]);
                    assert(res2[k - 1].0 == sres2[k - 1].0 && 0 <= sres2[k - 1].1 < assets.len()
                        && sprite_from(res2[k - 1].1, assets[sres2[k - 1].1]));
                }
            }
        } else if frames[0].0 == num {
            assert(res == seq![(num, sprite)] + fd);
            assert(sres == seq![(num, i)] + sd);
            assert forall|k: int| 0 <= k < res.len() implies ({
                let fr = #[trigger] res[k];
                &&& fr.0 == sres[k].0
                &&& 0 <= sres[k].1 < assets.len()
                &&& sprite_from(fr.1, assets[sres[k].1])
            }) by {
                if k > 0 {
                    assert(res[k] == fd[k - 1] && sres[k] == sd[k - 1]);
                    assert(fd[k - 1].0 == sd[k - 1].0 && 0 <= sd[k - 1].1 < assets.len()
                        && sprite_from(fd[k - 1].1, assets[sd[k - 1].1]));
                }
            }
        } else {
            assert(res == seq![(num, sprite)] + frames);
            assert(sres == seq![(num, i)] + sfr);
            assert forall|k: int| 0 <= k < res.len() implies ({
                let fr = #[trigger] res[k];
                &&& fr.0 == sres[k].0
                &&& 0 <= sres[k].1 < assets.len()
                &&& sprite_from(fr.1, assets[sres[k].1])
            }) by {
                if k > 0 {
                    assert(res[k] == frames[k - 1] && sres[k] == sfr[k - 1]);
                    assert(frames[k - 1].0 == sfr[k - 1].0 && 0 <= sfr[k - 1].1 < assets.len()
                        && sprite_from(frames[k - 1].1, assets[sfr[k - 1].1]));
                }
            }
        }
    }
}


/// The collected static sprites realize, in order, the non-matching image
/// assets of the first `upto` positions.
/// Position `k` of the collected statics realizes the `k`-th non-matching
/// image asset.
pub open spec fn statics_item_at(
    statics: Seq<Sprite>,
    assets: Seq<Asset>,
    opts: AnimatedOptions,
    upto: int,
    k: int,
) -> bool {
    &&& 0 <= unmatched_indices(assets.take(upto), opts)[k] < assets.len()
    &&& sprite_from(statics[k], assets[unmatched_indices(assets.take(upto), opts)[k]])
}

pub open spec fn statics_pinned(
    statics: Seq<Sprite>,
    assets: Seq<Asset>,
    opts: AnimatedOptions,
    upto: int,
) -> bool {
    &&& statics.len() == unmatched_indices(assets.take(upto), opts).len()
    &&& forall|k: int|
        0 <= k < statics.len() ==> #[trigger] statics_item_at(statics, assets, opts, upto, k)
}

#[verifier::rlimit(50)]
proof fn lemma_statics_pinned_same(
    statics: Seq<Sprite>,
    assets: Seq<Asset>,
    opts: AnimatedOptions,
    a: int,
    b: int,
)
    requires
        statics_pinned(statics, assets, opts, a),
        unmatched_indices(assets.take(b), opts) == unmatched_indices(assets.take(a), opts),
    ensures
        statics_pinned(statics, assets, opts, b),
{
    assert forall|k: int| 0 <= k < statics.len() implies #[trigger] statics_item_at(
        statics,
        assets,
        opts,
        b,
        k,
    ) by {
        assert(statics_item_at(statics, assets, opts, a, k));
    }
}

#[verifier::rlimit(50)]
proof fn lemma_statics_pinned_push(
    statics: Seq<Sprite>,
    assets: Seq<Asset>,
    opts: AnimatedOptions,
    a: int,
    b: int,
    s: Sprite,
    i: int,
)
    requires
        statics_pinned(statics, assets, opts, a),
        unmatched_indices(assets.take(b), opts) == unmatched_indices(assets.take(a), opts).push(
            i,
        ),
        0 <= i < assets.len(),
        sprite_from(s, assets[i]),
    ensures
        statics_pinned(statics.push(s), assets, opts, b),
{
    let res = statics.push(s);
    let una = unmatched_indices(assets.take(a), opts);
    let unb = unmatched_indices(assets.take(b), opts);
    assert forall|k: int| 0 <= k < res.len() implies #[trigger] statics_item_at(
        res,
        assets,
        opts,
        b,
        k,
    ) by {
        if k < statics.len() {
            assert(statics_item_at(statics, assets, opts, a, k));
            assert(res[k] == statics[k]);
            assert(unb[k] == una[k]);
        } else {
            assert(res[k] == s);
            assert(unb[k] == i);
        }
    }
}

/// An animation group under construction: its extracted name, and its
/// frames keyed by parsed frame index, ascending, one frame per index — a
/// later frame under an index already present replaces the earlier one.
struct AnimGroup {
    name: String,
    frames: Vec<(u32, Sprite)>,
}

spec fn frames_sorted(frames: Seq<(u32, Sprite)>) -> bool {
    forall|i: int, j: int|
        0 <= i < j < frames.len() ==> (#[trigger] frames[i]).0 < (#[trigger] frames[j]).0
}

/// `insert_frame`, written out: the new frame goes before the first
/// strictly larger index, replacing an equal one.
pub open spec fn insert_frame_spec(
    frames: Seq<(u32, Sprite)>,
    num: u32,
    sprite: Sprite,
) -> Seq<(u32, Sprite)>
    decreases frames.len(),
{
    if frames.len() == 0 {
        seq![(num, sprite)]
    } else if frames[0].0 < num {
        seq![frames[0]] + insert_frame_spec(frames.drop_first(), num, sprite)
    } else if frames[0].0 == num {
        seq![(num, sprite)] + frames.drop_first()
    } else {
        seq![(num, sprite)] + frames
    }
}

/// Splicing at the first position whose index reaches `num` is the same as
/// the recursive insertion.
proof fn lemma_insert_frame_at_pos(frames: Seq<(u32, Sprite)>, num: u32, sprite: Sprite, p: int)
    requires
        0 <= p <= frames.len(),
        forall|j: int| 0 <= j < p ==> (#[trigger] frames[j]).0 < num,
        p == frames.len() || frames[p].0 >= num,
    ensures
        p < frames.len() && frames[p].0 == num ==> insert_frame_spec(frames, num, sprite)
            =~= frames.update(p, (num, sprite)),
        !(p < frames.len() && frames[p].0 == num) ==> insert_frame_spec(frames, num, sprite)
            =~= frames.insert(p, (num, sprite)),
    decreases frames.len(),
{
    if frames.len() == 0 {
        assert(insert_frame_spec(frames, num, sprite) =~= frames.insert(0, (num, sprite)));
    } else if p == 0 {
        if frames[0].0 == num {
            assert(insert_frame_spec(frames, num, sprite) =~= frames.update(0, (num, sprite)));
        } else {
            assert(insert_frame_spec(frames, num, sprite) =~= frames.insert(0, (num, sprite)));
        }
    } else {
        let rest = frames.drop_first();
        assert forall|j: int| 0 <= j < p - 1 implies (#[trigger] rest[j]).0 < num by {
            assert(rest[j] == frames[j + 1]);
        }
        if p - 1 < rest.len() {
            assert(rest[p - 1] == frames[p]);
        }
        lemma_insert_frame_at_pos(rest, num, sprite, p - 1);
        if p < frames.len() && frames[p].0 == num {
            assert(seq![frames[0]] + rest.update(p - 1, (num, sprite)) =~= frames.update(
                p,
                (num, sprite),
            ));
        } else {
            assert(seq![frames[0]] + rest.insert(p - 1, (num, sprite)) =~= frames.insert(
                p,
                (num, sprite),
            ));
        }
    }
}

/// Insert a frame at its index, replacing any frame already there.
fn insert_frame(frames: &mut Vec<(u32, Sprite)>, num: u32, sprite: Sprite)
    requires
        frames_sorted(old(frames)@),
    ensures
        frames_sorted(final(frames)@),
        final(frames)@.len() >= 1,
        final(frames)@.len() >= old(frames)@.len(),
        final(frames)@ == insert_frame_spec(old(frames)@, num, sprite),
        forall|k: int|
            0 <= k < final(frames)@.len() ==> (#[trigger] final(frames)@[k]) == (num, sprite)
                || old(frames)@.contains(final(frames)@[k]),
{
    let n = frames.len();
    let mut p: usize = 0;
    loop
        invariant_except_break
            n == frames@.len(),
            p <= n,
            frames_sorted(frames@),
            forall|j: int| 0 <= j < p ==> (#[trigger] frames@[j]).0 < num,
        ensures
            n == frames@.len(),
            p <= n,
            frames_sorted(frames@),
            forall|j: int| 0 <= j < p ==> (#[trigger] frames@[j]).0 < num,
            p == n || frames@[p as int].0 >= num,
        decreases n - p,
    {
        if p == n {
            break ;
        }
        if frames[p].0 >= num {
            break ;
        }
        p += 1;
    }
    let ghost orig = frames@;
    proof {
        lemma_insert_frame_at_pos(orig, num, sprite, p as int);
    }
    if p < n && frames[p].0 == num {
        let _ = frames.remove(p);
        frames.insert(p, (num, sprite));
        proof {
            assert(frames@ =~= orig.update(p as int, frames@[p as int]));
            assert(frames@[p as int] == (num, sprite));
            assert(frames@ =~= insert_frame_spec(orig, num, sprite));
            assert(frames@[p as int].0 == orig[p as int].0);
            assert forall|i: int, j: int| 0 <= i < j < frames@.len() implies (
            #[trigger] frames@[i]).0 < (#[trigger] frames@[j]).0 by {
                assert(frames@[i].0 == orig[i].0);
                assert(frames@[j].0 == orig[j].0);
            }
            assert forall|k: int|
                0 <= k < frames@.len() implies (#[trigger] frames@[k]) == (num, sprite)
                || orig.contains(frames@[k]) by {
                if k != p {
                    assert(orig[k] == frames@[k]);
                }
            }
        }
    } else {
        frames.insert(p, (num, sprite));
        proof {
            assert(frames@ =~= insert_frame_spec(orig, num, sprite));
            assert forall|i: int, j: int| 0 <= i < j < frames@.len() implies (
            #[trigger] frames@[i]).0 < (#[trigger] frames@[j]).0 by {
                if j < p {
                    assert(frames@[i] == orig[i] && frames@[j] == orig[j]);
                } else if j == p {
                    assert(frames@[i] == orig[i]);
                    assert(orig[i].0 < num);
                } else if i < p {
                    assert(frames@[i] == orig[i] && frames@[j] == orig[j - 1]);
                    if i < p && p <= j - 1 {
                        assert(orig[i].0 < num);
                        if p < n {
                            assert(num < orig[p as int].0 || num == orig[p as int].0);
                        }
                        if p <= j - 1 && p < orig.len() {
                            if p < j - 1 {
                                assert(orig[p as int].0 < orig[j - 1].0);
                            }
                        }
                    }
                } else if i == p {
                    assert(frames@[j] == orig[j - 1]);
                    assert(num < orig[p as int].0);
                    if p < j - 1 {
                        assert(orig[p as int].0 < orig[j - 1].0);
                    }
                } else {
                    assert(frames@[i] == orig[i - 1] && frames@[j] == orig[j - 1]);
                }
            }
            assert forall|k: int|
                0 <= k < frames@.len() implies (#[trigger] frames@[k]) == (num, sprite)
                || orig.contains(frames@[k]) by {
                if k < p {
                    assert(orig[k] == frames@[k]);
                } else if k > p {
                    assert(orig[k - 1] == frames@[k]);
                }
            }
        }
    }
}

/// Index of the first group named `name`, if one exists.
fn find_group(groups: &Vec<AnimGroup>, name: &str) -> (r: Option<usize>)
    ensures
        match r {
            Some(g) => g < groups@.len() && groups@[g as int].name@ == name@,
            None => forall|i: int|
                0 <= i < groups@.len() ==> (#[trigger] groups@[i]).name@ != name@,
        },
{
    let n = groups.len();
    let mut i: usize = 0;
    while i < n
        invariant
            n == groups@.len(),
            i <= n,
            forall|j: int| 0 <= j < i ==> (#[trigger] groups@[j]).name@ != name@,
        decreases n - i,
    {
        if str_eq(groups[i].name.as_str(), name) {
            return Some(i);
        }
        i += 1;
    }
    None
}

/// The least count whose square reaches `n`.
pub(crate) fn ceil_sqrt(n: u32) -> (r: u32)
    ensures
        r as int * r as int >= n,
        r >= 1 ==> ((r - 1) as int) * ((r - 1) as int) < n,
        n >= 1 ==> r >= 1,
        r <= 0x10000,
{
    let mut c: u32 = 0;
    loop
        invariant_except_break
            c <= 0x10000,
            c >= 1 ==> ((c - 1) as int) * ((c - 1) as int) < n,
        ensures
            c <= 0x10000,
            c >= 1 ==> ((c - 1) as int) * ((c - 1) as int) < n,
            (c as int) * (c as int) >= n,
        decreases 0x10000 - c,
    {
        proof {
            assert((c as int) * (c as int) <= 0x1_0000_0000int) by (nonlinear_arith)
                requires
                    c <= 0x10000u32,
            ;
        }
        let sq = (c as u64) * (c as u64);
        if sq >= n as u64 {
            break ;
        }
        proof {
            assert(c < 0x10000) by (nonlinear_arith)
                requires
                    c <= 0x10000u32,
                    (c as int) * (c as int) < n,
                    n <= 0xffff_ffffu32,
            ;
        }
        c += 1;
    }
    proof {
        if n >= 1 {
            assert(c >= 1) by (nonlinear_arith)
                requires
                    (c as int) * (c as int) >= n,
                    n >= 1int,
                    c >= 0,
            ;
        }
    }
    c
}

/// A product of two 32-bit quantities stays below 2^64.
proof fn lemma_mul_u64_bound(a: int, b: int)
    requires
        0 <= a < 0x1_0000_0000,
        0 <= b < 0x1_0000_0000,
    ensures
        0 <= a * b < 0x1_0000_0000_0000_0000,
{
    assert(0 <= a * b < 0x1_0000_0000_0000_0000) by (nonlinear_arith)
        requires
            0 <= a < 0x1_0000_0000,
            0 <= b < 0x1_0000_0000,
    ;
}

fn copy_layout(l: &AnimationLayout) -> (r: AnimationLayout)
    ensures
        r == *l,
{
    match l {
        AnimationLayout::HorizontalStrip => AnimationLayout::HorizontalStrip,
        AnimationLayout::VerticalStrip => AnimationLayout::VerticalStrip,
        AnimationLayout::Grid { columns } => AnimationLayout::Grid { columns: *columns },
    }
}

impl Packer {
    /// Compose ordered animation frames into one strip sprite. The frames
    /// keep their order; each is drawn at the offset its position gets
    /// under the layout, pixels falling outside the canvas silently
    /// dropped; the canvas is re-encoded as PNG. The strip's hash is the
    /// first frame's hash — a documented approximation. An empty frame
    /// list, an unencodable canvas, or an undecodable frame fails.
    pub fn combine_frames_into_strip(
        &self,
        anim_name: &str,
        frames: Vec<Sprite>,
        layout: &AnimationLayout,
        frame_duration_ms: u32,
        loops: bool,
    ) -> (r: Result<AnimationStrip, PackError>)
        ensures
            frames@.len() == 0 ==> (r is Err && match r->Err_0 {
                PackError::EmptyAnimation { name } => name@ == anim_name@,
                _ => false,
            }),
            combine_will_succeed(frames@, *layout) ==> r is Ok,
            r is Err ==> (r->Err_0 matches PackError::EmptyAnimation { .. } || r->Err_0 matches
                PackError::ImageDecodeFailure { .. } || r->Err_0 matches
                PackError::ImageEncodeFailure { .. }),
            ((frames@.len() >= 1 && (forall|k: int|
                0 <= k < frames@.len() ==> decoded_image((#[trigger] frames@[k]).data@) is Some))
                ==> !(r is Err && ((r->Err_0 matches PackError::ImageDecodeFailure { .. }) || (
            r->Err_0 matches PackError::EmptyAnimation { .. })))),
            r is Ok ==> ({
                let a = r->Ok_0;
                &&& frames@.len() >= 1
                &&& a.frame_count == frames@.len()
                &&& a.frame_size == frames@[0].size
                &&& a.layout == *layout
                &&& a.frame_duration_ms == frame_duration_ms
                &&& a.loops == loops
                &&& a.strip_sprite.name@ == anim_name@
                &&& a.strip_sprite.hash@ == frames@[0].hash@
                &&& strip_dims_ok(a)
                &&& exists|cols: int|
                    #![trigger layout_cols_ok(*layout, frames@.len() as int, cols)]
                    layout_cols_ok(*layout, frames@.len() as int, cols)
                        && a.strip_sprite.data@ == png_encoding(
                        a.strip_sprite.size.width as nat,
                        a.strip_sprite.size.height as nat,
                        strip_samples(
                            frames@,
                            *layout,
                            frames@[0].size.width as int,
                            frames@[0].size.height as int,
                            cols,
                            a.strip_sprite.size.width as int,
                            a.strip_sprite.size.height as int,
                            frames@.len() as int,
                        ),
                    )->0
            }),
    {
        if frames.len() == 0 {
            return Err(PackError::EmptyAnimation { name: anim_name.to_owned() });
        }
        let count_usize = frames.len();
        if count_usize as u64 > u32::MAX as u64 {
            return Err(PackError::ImageEncodeFailure { name: anim_name.to_owned() });
        }
        let count = count_usize as u32;
        let frame_w = frames[0].size.width;
        let frame_h = frames[0].size.height;

        // Resolve the layout to a column count and the strip dimensions.
        let cols: u32 = match layout {
            AnimationLayout::HorizontalStrip => count,
            AnimationLayout::VerticalStrip => 1,
            AnimationLayout::Grid { columns } => match columns {
                Some(c) => if *c == 0 {
                    1
                } else {
                    *c
                },
                None => ceil_sqrt(count),
            },
        };
        proof {
            assert(cols >= 1);
            match layout {
                AnimationLayout::Grid { columns } => {
                    assert(grid_cols_ok(*columns, count as int, cols as int));
                },
                _ => {},
            }
            assert(layout_cols_ok(*layout, count_usize as int, cols as int));
            lemma_mul_u64_bound(frame_w as int, count as int);
            lemma_mul_u64_bound(frame_h as int, count as int);
            lemma_mul_u64_bound(frame_w as int, cols as int);
        }
        let rows64: u64 = (count as u64 + cols as u64 - 1) / cols as u64;
        proof {
            assert(rows64 <= count) by (nonlinear_arith)
                requires
                    rows64 == ((count as int) + (cols as int) - 1) / (cols as int),
                    cols >= 1,
                    count >= 1,
            ;
            lemma_mul_u64_bound(frame_h as int, rows64 as int);
        }
        let (strip_w64, strip_h64): (u64, u64) = match layout {
            AnimationLayout::HorizontalStrip => (frame_w as u64 * count as u64, frame_h as u64),
            AnimationLayout::VerticalStrip => (frame_w as u64, frame_h as u64 * count as u64),
            AnimationLayout::Grid { .. } => (frame_w as u64 * cols as u64, frame_h as u64 * rows64),
        };
        if strip_w64 > u32::MAX as u64 || strip_h64 > u32::MAX as u64 {
            proof {
                if combine_will_succeed(frames@, *layout) {
                    let cols2 = choose|c: int|
                        layout_cols_ok(*layout, frames@.len() as int, c) && ({
                            let dims = strip_dims(
                                *layout,
                                frames@[0].size.width as int,
                                frames@[0].size.height as int,
                                c,
                                frames@.len() as int,
                            );
                            &&& dims.0 <= u32::MAX
                            &&& dims.1 <= u32::MAX
                            &&& dims.0 * dims.1 <= (usize::MAX as int) / 4
                            &&& png_encoding(
                                dims.0 as nat,
                                dims.1 as nat,
                                strip_samples(
                                    frames@,
                                    *layout,
                                    frames@[0].size.width as int,
                                    frames@[0].size.height as int,
                                    c,
                                    dims.0,
                                    dims.1,
                                    frames@.len() as int,
                                ),
                            ) is Some
                        });
                    lemma_layout_cols_unique(
                        *layout,
                        frames@.len() as int,
                        cols2,
                        cols as int,
                    );
                    assert(rows64 as int == spec_div_ceil(count as int, cols as int));
                    assert(strip_dims(
                        *layout,
                        frame_w as int,
                        frame_h as int,
                        cols as int,
                        count as int,
                    ) == (strip_w64 as int, strip_h64 as int));
                    assert(false);
                }
            }
            return Err(PackError::ImageEncodeFailure { name: anim_name.to_owned() });
        }
        proof {
            lemma_mul_u64_bound(strip_w64 as int, strip_h64 as int);
        }
        if strip_w64 * strip_h64 > usize::MAX as u64 / 4 {
            proof {
                if combine_will_succeed(frames@, *layout) {
                    let cols2 = choose|c: int|
                        layout_cols_ok(*layout, frames@.len() as int, c) && ({
                            let dims = strip_dims(
                                *layout,
                                frames@[0].size.width as int,
                                frames@[0].size.height as int,
                                c,
                                frames@.len() as int,
                            );
                            &&& dims.0 <= u32::MAX
                            &&& dims.1 <= u32::MAX
                            &&& dims.0 * dims.1 <= (usize::MAX as int) / 4
                            &&& png_encoding(
                                dims.0 as nat,
                                dims.1 as nat,
                                strip_samples(
                                    frames@,
                                    *layout,
                                    frames@[0].size.width as int,
                                    frames@[0].size.height as int,
                                    c,
                                    dims.0,
                                    dims.1,
                                    frames@.len() as int,
                                ),
                            ) is Some
                        });
                    lemma_layout_cols_unique(
                        *layout,
                        frames@.len() as int,
                        cols2,
                        cols as int,
                    );
                    assert(rows64 as int == spec_div_ceil(count as int, cols as int));
                    assert(strip_dims(
                        *layout,
                        frame_w as int,
                        frame_h as int,
                        cols as int,
                        count as int,
                    ) == (strip_w64 as int, strip_h64 as int));
                    assert(false);
                }
            }
            return Err(PackError::ImageEncodeFailure { name: anim_name.to_owned() });
        }
        let strip_w = strip_w64 as u32;
        let strip_h = strip_h64 as u32;
        proof {
            assert(strip_w64 * strip_h64 <= usize::MAX as u64 / 4 ==> strip_w as int
                * strip_h as int * 4 <= usize::MAX) by (nonlinear_arith)
                requires
                    strip_w == strip_w64,
                    strip_h == strip_h64,
            ;
        }
        let mut canvas = crate::pixels::new_canvas(strip_w, strip_h);
        proof {
            match layout {
                AnimationLayout::Grid { columns } => {
                    assert(grid_cols_ok(*columns, count as int, cols as int));
                },
                _ => {},
            }
            assert(layout_cols_ok(*layout, count_usize as int, cols as int));
            assert forall|ii: int| 0 <= ii < canvas.data@.len() implies canvas.data@[ii]
                == 0u8 by {
                lemma_sample_decompose(ii, strip_w as int, strip_h as int);
                let y = ii / (strip_w as int * 4);
                let r = ii % (strip_w as int * 4);
                let x = r / 4;
                let c = r % 4;
                assert(canvas.channel(x, y, c) == 0u8);
            }
            assert(canvas.data@ =~= blank_samples(strip_w as int, strip_h as int));
        }

        // Draw each frame at its layout-derived offset.
        let mut i: usize = 0;
        while i < count_usize
            invariant
                count_usize == frames@.len(),
                count_usize <= 0xffff_ffff,
                count == count_usize,
                i <= count_usize,
                canvas.wf(),
                canvas.width == strip_w,
                canvas.height == strip_h,
                cols >= 1,
                frame_w == frames@[0].size.width,
                frame_h == frames@[0].size.height,
                layout_cols_ok(*layout, count_usize as int, cols as int),
                canvas.data@ == strip_samples(
                    frames@,
                    *layout,
                    frame_w as int,
                    frame_h as int,
                    cols as int,
                    strip_w as int,
                    strip_h as int,
                    i as int,
                ),
            decreases count_usize - i,
        {
            proof {
                lemma_mul_u64_bound(i as int, frame_w as int);
                lemma_mul_u64_bound(i as int, frame_h as int);
            }
            let frame = &frames[i];
            let pix = match decode_image(&frame.data) {
                Some(p) => p,
                None => {
                    return Err(PackError::ImageDecodeFailure { name: frame.name.clone() });
                },
            };
            let ghost prev_pix = canvas;
            let (xo64, yo64): (u64, u64) = match layout {
                AnimationLayout::HorizontalStrip => (i as u64 * frame_w as u64, 0),
                AnimationLayout::VerticalStrip => (0, i as u64 * frame_h as u64),
                AnimationLayout::Grid { .. } => {
                    let col = i as u64 % cols as u64;
                    let row = i as u64 / cols as u64;
                    proof {
                        assert(row <= i as u64) by (nonlinear_arith)
                            requires
                                row == (i as int) / (cols as int),
                                cols >= 1,
                                i >= 0,
                        ;
                        lemma_mul_u64_bound(col as int, frame_w as int);
                        lemma_mul_u64_bound(row as int, frame_h as int);
                    }
                    (col * frame_w as u64, row * frame_h as u64)
                },
            };
            proof {
                assert(frame_offset(*layout, frame_w as int, frame_h as int, cols as int, i as int)
                    == (xo64 as int, yo64 as int));
            }
            if xo64 <= u32::MAX as u64 && yo64 <= u32::MAX as u64 {
                canvas = crate::pixels::blit_onto(&canvas, &pix, xo64 as u32, yo64 as u32);
                proof {
                    let sw = strip_w as int;
                    let dec = decoded_image(frames@[i as int].data@)->0;
                    assert(pix.data@ == dec.2 && pix.width as int == dec.0 && pix.height as int
                        == dec.1);
                    assert forall|ii: int| 0 <= ii < canvas.data@.len() implies canvas.data@[ii]
                        == blit_samples(
                        prev_pix.data@,
                        sw,
                        dec.2,
                        dec.0 as int,
                        dec.1 as int,
                        xo64 as int,
                        yo64 as int,
                    )[ii] by {
                        lemma_sample_decompose(ii, sw, strip_h as int);
                        let y = ii / (sw * 4);
                        let r = ii % (sw * 4);
                        let x = r / 4;
                        let c = r % 4;
                        assert(canvas.channel(x, y, c) == crate::pixels::blit_channel(
                            prev_pix,
                            pix,
                            xo64 as int,
                            yo64 as int,
                            x,
                            y,
                            c,
                        ));
                    }
                    assert(canvas.data@ =~= blit_samples(
                        prev_pix.data@,
                        sw,
                        dec.2,
                        dec.0 as int,
                        dec.1 as int,
                        xo64 as int,
                        yo64 as int,
                    ));
                    assert(canvas.data@ == strip_samples(
                        frames@,
                        *layout,
                        frame_w as int,
                        frame_h as int,
                        cols as int,
                        sw,
                        strip_h as int,
                        i + 1,
                    ));
                }
            } else {
                proof {
                    assert(canvas.data@ == strip_samples(
                        frames@,
                        *layout,
                        frame_w as int,
                        frame_h as int,
                        cols as int,
                        strip_w as int,
                        strip_h as int,
                        i + 1,
                    ));
                }
            }
            i += 1;
        }

        let data = match encode_png(&canvas) {
            Some(d) => d,
            None => {
                proof {
                if combine_will_succeed(frames@, *layout) {
                    let cols2 = choose|c: int|
                        layout_cols_ok(*layout, frames@.len() as int, c) && ({
                            let dims = strip_dims(
                                *layout,
                                frames@[0].size.width as int,
                                frames@[0].size.height as int,
                                c,
                                frames@.len() as int,
                            );
                            &&& dims.0 <= u32::MAX
                            &&& dims.1 <= u32::MAX
                            &&& dims.0 * dims.1 <= (usize::MAX as int) / 4
                            &&& png_encoding(
                                dims.0 as nat,
                                dims.1 as nat,
                                strip_samples(
                                    frames@,
                                    *layout,
                                    frames@[0].size.width as int,
                                    frames@[0].size.height as int,
                                    c,
                                    dims.0,
                                    dims.1,
                                    frames@.len() as int,
                                ),
                            ) is Some
                        });
                    lemma_layout_cols_unique(
                        *layout,
                        frames@.len() as int,
                        cols2,
                        cols as int,
                    );
                    assert(rows64 as int == spec_div_ceil(count as int, cols as int));
                    assert(strip_dims(
                        *layout,
                        frame_w as int,
                        frame_h as int,
                        cols as int,
                        count as int,
                    ) == (strip_w64 as int, strip_h64 as int));
                    assert(false);
                }
                }
                return Err(PackError::ImageEncodeFailure { name: anim_name.to_owned() });
            },
        };
        let strip = AnimationStrip {
            strip_sprite: Sprite {
                name: anim_name.to_owned(),
                data,
                size: Size { width: strip_w, height: strip_h },
                hash: frames[0].hash.clone(),
            },
            frame_count: count,
            frame_size: Size { width: frame_w, height: frame_h },
            layout: copy_layout(layout),
            frame_duration_ms,
            loops,
        };
        proof {
            match layout {
                AnimationLayout::HorizontalStrip => {
                    assert(strip.strip_sprite.size.width == strip.frame_size.width
                        * strip.frame_count);
                    assert(strip.strip_sprite.size.height == strip.frame_size.height);
                },
                AnimationLayout::VerticalStrip => {
                    assert(strip.strip_sprite.size.width == strip.frame_size.width);
                    assert(strip.strip_sprite.size.height == strip.frame_size.height
                        * strip.frame_count);
                },
                AnimationLayout::Grid { .. } => {
                    match strip.layout {
                        AnimationLayout::Grid { columns: sc } => {
                            assert(grid_cols_ok(sc, strip.frame_count as int, cols as int));
                            assert(strip.strip_sprite.size.width == strip.frame_size.width * (
                            cols as int));
                            assert(strip.strip_sprite.size.height == strip.frame_size.height
                                * spec_div_ceil(strip.frame_count as int, cols as int));
                        },
                        _ => {},
                    }
                },
            }
            assert(strip_dims_ok(strip));
            assert(layout_cols_ok(*layout, frames@.len() as int, cols as int));
            assert(strip.strip_sprite.data@ == png_encoding(
                strip_w as nat,
                strip_h as nat,
                strip_samples(
                    frames@,
                    *layout,
                    frame_w as int,
                    frame_h as int,
                    cols as int,
                    strip_w as int,
                    strip_h as int,
                    frames@.len() as int,
                ),
            )->0);
        }
        Ok(strip)
    }
}

/// `v` holds a string whose characters are `s`.
fn vec_contains_str(v: &Vec<String>, s: &str) -> (r: bool)
    ensures
        r == exists|i: int| 0 <= i < v@.len() && (#[trigger] v@[i])@ == s@,
{
    let n = v.len();
    let mut i: usize = 0;
    while i < n
        invariant
            n == v@.len(),
            i <= n,
            forall|j: int| 0 <= j < i ==> (#[trigger] v@[j])@ != s@,
        decreases n - i,
    {
        if str_eq(v[i].as_str(), s) {
            return true;
        }
        i += 1;
    }
    false
}

impl Packer {
    /// Group image assets into animation strips and leftover static
    /// sprites, per the animated-mode options. An invalid frame pattern
    /// aborts up front, before any asset is processed; a group below the
    /// minimum frame count dissolves into independent static sprites.
    pub fn detect_animations(&self, assets: &Vec<Asset>, anim_opts: &AnimatedOptions) -> (r: Result<
        Vec<PackableItem>,
        PackError,
    >)
        ensures
            r is Err ==> !(r->Err_0 matches PackError::PageLimitExceeded { .. }),
            assets@.len() == 0 && regex_valid(anim_opts.frame_pattern@) ==> (r is Ok
                && r->Ok_0@.len() == 0),
            ((regex_valid(anim_opts.frame_pattern@) && (forall|i: int|
                0 <= i < assets@.len() ==> ((#[trigger] assets@[i]).kind is Image
                    ==> decoded_image(assets@[i].data@) is Some))) ==> (r is Ok || (
            r->Err_0 matches PackError::ImageEncodeFailure { .. }))),
            r is Ok ==> forall|i: int|
                0 <= i < assets@.len() ==> ((#[trigger] assets@[i]).kind is Image
                    ==> decoded_image(assets@[i].data@) is Some),
            !regex_valid(anim_opts.frame_pattern@) ==> r is Err && (match r->Err_0 {
                PackError::InvalidFramePattern { pattern, error } => pattern@
                    == anim_opts.frame_pattern@ && regex_compile_error(anim_opts.frame_pattern@)
                    == Some(error@),
                _ => false,
            }),
            r is Ok ==> forall|i: int|
                0 <= i < r->Ok_0@.len() ==> item_detected_ok(#[trigger] r->Ok_0@[i], *anim_opts),
            r is Ok ==> detect_items_ok(
                r->Ok_0@,
                assets@,
                *anim_opts,
                group_names(assets@, *anim_opts).len() as int,
            ),
            r is Ok ==> r->Ok_0@.len() == detect_count(assets@, *anim_opts),
    {
        if let Some(error) = compile_check(anim_opts.frame_pattern.as_str()) {
            return Err(
                PackError::InvalidFramePattern { pattern: anim_opts.frame_pattern.clone(), error },
            );
        }
        let mut statics: Vec<Sprite> = Vec::new();
        let mut groups: Vec<AnimGroup> = Vec::new();
        let n = assets.len();
        let mut idx: usize = 0;
        proof {
            assert(assets@.take(0) =~= Seq::<Asset>::empty());
            assert(statics_pinned(statics@, assets@, *anim_opts, 0));
        }
        while idx < n
            invariant
                n == assets@.len(),
                idx <= n,
                regex_valid(anim_opts.frame_pattern@),
                forall|i: int|
                    0 <= i < idx ==> ((#[trigger] assets@[i]).kind is Image ==> decoded_image(
                        assets@[i].data@,
                    ) is Some),
                n == 0 ==> statics@.len() == 0 && groups@.len() == 0,
                forall|g: int|
                    0 <= g < groups@.len() ==> frames_sorted((#[trigger] groups@[g]).frames@)
                        && groups@[g].frames@.len() >= 1,
                forall|g: int, k: int|
                    0 <= g < groups@.len() && 0 <= k < groups@[g].frames@.len()
                        ==> decoded_image(
                        (#[trigger] groups@[g].frames@[k]).1.data@,
                    ) is Some,
                statics_pinned(statics@, assets@, *anim_opts, idx as int),
                groups@.len() == group_names(assets@.take(idx as int), *anim_opts).len(),
                forall|g: int|
                    0 <= g < groups@.len() ==> (#[trigger] groups@[g]).name@ == group_names(
                        assets@.take(idx as int),
                        *anim_opts,
                    )[g],
                forall|g: int|
                    0 <= g < groups@.len() ==> frames_match(
                        (#[trigger] groups@[g]).frames@,
                        group_frames(assets@.take(idx as int), *anim_opts, groups@[g].name@),
                        assets@,
                    ),
            decreases n - idx,
        {
            let ghost take0 = assets@.take(idx as int);
            let ghost take1 = assets@.take(idx + 1);
            proof {
                assert(take1.drop_last() =~= take0);
                assert(take1.last() == assets@[idx as int]);
            }
            let asset = &assets[idx];
            if matches!(asset.kind, AssetKind::Image) {
                let pix = match decode_image(&asset.data) {
                    Some(p) => p,
                    None => {
                        return Err(PackError::ImageDecodeFailure { name: asset.path.clone() });
                    },
                };
                let size = Size { width: pix.width, height: pix.height };
                let stem = file_stem(asset.path.as_str());
                let matched = match_frame(anim_opts.frame_pattern.as_str(), stem.as_str());
                let ghost m0 = matched;
                let sprite = Sprite {
                    name: stem.clone(),
                    data: clone_bytes(&asset.data),
                    size,
                    hash: asset.hash.clone(),
                };
                let ghost spr = sprite;
                proof {
                    assert(sprite_from(spr, assets@[idx as int]));
                }
                match matched {
                    Some((name_opt, index_opt)) => {
                        let ghost nopt = name_opt;
                        let ghost iopt = index_opt;
                        let anim_name: String = match name_opt {
                            Some(nm) => nm,
                            None => stem,
                        };
                        let frame_num: u32 = match index_opt {
                            Some(istr) => match parse_u32(istr.as_str()) {
                                Some(v) => v,
                                None => 0,
                            },
                            None => 0,
                        };
                        proof {
                            assert(frame_class(*anim_opts, assets@[idx as int]) == Some(
                                (anim_name@, frame_num),
                            ));
                            assert(unmatched_indices(take1, *anim_opts) =~= unmatched_indices(
                                take0,
                                *anim_opts,
                            ));
                            lemma_statics_pinned_same(
                                statics@,
                                assets@,
                                *anim_opts,
                                idx as int,
                                idx + 1,
                            );
                        }
                        match find_group(&groups, anim_name.as_str()) {
                            Some(g) => {
                                let ghost g0 = groups@;
                                proof {
                                    lemma_group_names_distinct(take0, *anim_opts);
                                    assert(group_names(take0, *anim_opts)[g as int]
                                        == anim_name@);
                                    assert(group_names(take0, *anim_opts).contains(anim_name@));
                                    assert(group_names(take1, *anim_opts) =~= group_names(
                                        take0,
                                        *anim_opts,
                                    ));
                                }
                                let mut grp = groups.remove(g);
                                let ghost pre_frames = grp.frames@;
                                insert_frame(&mut grp.frames, frame_num, sprite);
                                groups.insert(g, grp);
                                proof {
                                    assert(groups@ =~= g0.update(g as int, groups@[g as int]));
                                    assert(groups@[g as int].name@ == anim_name@);
                                    assert forall|g2: int|
                                        0 <= g2 < groups@.len() implies (
                                    #[trigger] groups@[g2]).name@ == group_names(
                                        take1,
                                        *anim_opts,
                                    )[g2] by {
                                        if g2 != g {
                                            assert(groups@[g2] == g0[g2]);
                                        }
                                    }
                                    assert forall|g2: int|
                                        0 <= g2 < groups@.len() implies frames_match(
                                        (#[trigger] groups@[g2]).frames@,
                                        group_frames(take1, *anim_opts, groups@[g2].name@),
                                        assets@,
                                    ) by {
                                        if g2 != g {
                                            assert(groups@[g2] == g0[g2]);
                                            assert(g0[g2].name@ == group_names(
                                                take0,
                                                *anim_opts,
                                            )[g2]);
                                            assert(group_names(take0, *anim_opts)[g2]
                                                != anim_name@);
                                            assert(group_frames(take1, *anim_opts, g0[g2].name@)
                                                == group_frames(
                                                take0,
                                                *anim_opts,
                                                g0[g2].name@,
                                            ));
                                        } else {
                                            assert(frames_match(
                                                pre_frames,
                                                group_frames(take0, *anim_opts, anim_name@),
                                                assets@,
                                            ));
                                            lemma_insert_match(
                                                pre_frames,
                                                group_frames(take0, *anim_opts, anim_name@),
                                                assets@,
                                                frame_num,
                                                spr,
                                                idx as int,
                                            );
                                            assert(group_frames(take1, *anim_opts, anim_name@)
                                                == insert_indexed(
                                                group_frames(take0, *anim_opts, anim_name@),
                                                frame_num,
                                                idx as int,
                                            ));
                                            assert(groups@[g as int].frames@
                                                == insert_frame_spec(
                                                pre_frames,
                                                frame_num,
                                                spr,
                                            ));
                                        }
                                    }
                                    assert forall|g2: int|
                                        0 <= g2 < groups@.len() implies frames_sorted(
                                        (#[trigger] groups@[g2]).frames@,
                                    ) && groups@[g2].frames@.len() >= 1 by {
                                        if g2 != g {
                                            assert(groups@[g2] == g0[g2]);
                                        }
                                    }
                                    assert forall|g2: int, k: int|
                                        0 <= g2 < groups@.len() && 0 <= k
                                        < groups@[g2].frames@.len() implies decoded_image(
                                        (#[trigger] groups@[g2].frames@[k]).1.data@,
                                    ) is Some by {
                                        if g2 != g {
                                            assert(groups@[g2] == g0[g2]);
                                        } else {
                                            let fr = groups@[g as int].frames@[k];
                                            if fr == (frame_num, spr) {
                                                assert(spr.data@ == assets@[idx as int].data@);
                                            } else {
                                                assert(pre_frames.contains(fr));
                                                let m = choose|m: int|
                                                    0 <= m < pre_frames.len() && pre_frames[m]
                                                        == fr;
                                                assert(g0[g as int].frames@[m] == fr);
                                            }
                                        }
                                    }
                                }
                            },
                            None => {
                                let ghost gpre = groups@;
                                proof {
                                    assert(!group_names(take0, *anim_opts).contains(anim_name@))
                                        by {
                                        if group_names(take0, *anim_opts).contains(anim_name@) {
                                            let j = choose|j: int|
                                                0 <= j < group_names(take0, *anim_opts).len()
                                                    && group_names(take0, *anim_opts)[j]
                                                    == anim_name@;
                                            assert(gpre[j].name@ == anim_name@);
                                        }
                                    }
                                    assert(group_names(take1, *anim_opts) =~= group_names(
                                        take0,
                                        *anim_opts,
                                    ).push(anim_name@));
                                    lemma_absent_name_no_frames(take0, *anim_opts, anim_name@);
                                }
                                let mut frames: Vec<(u32, Sprite)> = Vec::new();
                                frames.push((frame_num, sprite));
                                proof {
                                    assert(frames@.len() == 1);
                                    assert(frames@[0] == (frame_num, spr));
                                    assert(spr.data@ == assets@[idx as int].data@);
                                }
                                groups.push(AnimGroup { name: anim_name, frames });
                                proof {
                                    assert forall|g2: int|
                                        0 <= g2 < groups@.len() implies frames_match(
                                        (#[trigger] groups@[g2]).frames@,
                                        group_frames(take1, *anim_opts, groups@[g2].name@),
                                        assets@,
                                    ) by {
                                        if g2 < gpre.len() {
                                            assert(groups@[g2] == gpre[g2]);
                                            assert(gpre[g2].name@ == group_names(
                                                take0,
                                                *anim_opts,
                                            )[g2]);
                                            assert(group_names(take0, *anim_opts)[g2]
                                                != anim_name@) by {
                                                if group_names(take0, *anim_opts)[g2]
                                                    == anim_name@ {
                                                    assert(group_names(
                                                        take0,
                                                        *anim_opts,
                                                    ).contains(anim_name@));
                                                }
                                            }
                                            assert(group_frames(take1, *anim_opts, gpre[g2].name@)
                                                == group_frames(
                                                take0,
                                                *anim_opts,
                                                gpre[g2].name@,
                                            ));
                                        } else {
                                            assert(groups@[g2].name@ == anim_name@);
                                            assert(group_frames(take1, *anim_opts, anim_name@)
                                                =~= seq![(frame_num, idx as int)]);
                                            assert(groups@[g2].frames@[0] == (frame_num, spr));
                                        }
                                    }
                                }
                            },
                        }

                    },
                    None => {
                        proof {
                            assert(frame_class(*anim_opts, assets@[idx as int]) is None);
                            assert(unmatched_indices(take1, *anim_opts) =~= unmatched_indices(
                                take0,
                                *anim_opts,
                            ).push(idx as int));
                            assert(group_names(take1, *anim_opts) =~= group_names(
                                take0,
                                *anim_opts,
                            ));
                        }
                        let ghost spre = statics@;
                        statics.push(sprite);
                        proof {
                            lemma_statics_pinned_push(
                                spre,
                                assets@,
                                *anim_opts,
                                idx as int,
                                idx + 1,
                                spr,
                                idx as int,
                            );
                            assert(statics@ == spre.push(spr));
                            assert forall|g2: int|
                                0 <= g2 < groups@.len() implies frames_match(
                                (#[trigger] groups@[g2]).frames@,
                                group_frames(take1, *anim_opts, groups@[g2].name@),
                                assets@,
                            ) by {
                                assert(group_frames(take1, *anim_opts, groups@[g2].name@)
                                    == group_frames(take0, *anim_opts, groups@[g2].name@));
                            }
                        }
                    },
                }
            } else {
                proof {
                    assert(unmatched_indices(take1, *anim_opts) =~= unmatched_indices(
                        take0,
                        *anim_opts,
                    ));
                    lemma_statics_pinned_same(
                        statics@,
                        assets@,
                        *anim_opts,
                        idx as int,
                        idx + 1,
                    );
                    assert(group_names(take1, *anim_opts) =~= group_names(take0, *anim_opts));
                    assert forall|g2: int|
                        0 <= g2 < groups@.len() implies frames_match(
                        (#[trigger] groups@[g2]).frames@,
                        group_frames(take1, *anim_opts, groups@[g2].name@),
                        assets@,
                    ) by {
                        assert(group_frames(take1, *anim_opts, groups@[g2].name@)
                            == group_frames(take0, *anim_opts, groups@[g2].name@));
                    }
                }
            }
            idx += 1;
        }

        // Independent sprites first, then the groups in first-encounter
        // order: dissolve the small ones, compose the rest.
        let mut items: Vec<PackableItem> = Vec::new();
        let ghost un_full = unmatched_indices(assets@, *anim_opts);
        let ghost g_total = group_names(assets@, *anim_opts).len() as int;
        proof {
            assert(assets@.take(n as int) =~= assets@);
            assert(un_full == unmatched_indices(assets@.take(n as int), *anim_opts));
            assert(statics@.len() == un_full.len());
            assert forall|k: int| 0 <= k < statics@.len() implies #[trigger] statics_rest_at(
                statics@,
                assets@,
                *anim_opts,
                0,
                k,
            ) by {
                assert(statics_item_at(statics@, assets@, *anim_opts, n as int, k));
            }
            assert(group_names(assets@.take(n as int), *anim_opts) == group_names(
                assets@,
                *anim_opts,
            ));
            assert forall|g: int| 0 <= g < groups@.len() implies frames_match(
                (#[trigger] groups@[g]).frames@,
                group_frames(assets@, *anim_opts, groups@[g].name@),
                assets@,
            ) by {
                assert(group_frames(assets@.take(n as int), *anim_opts, groups@[g].name@)
                    == group_frames(assets@, *anim_opts, groups@[g].name@));
            }
        }
        while statics.len() > 0
            invariant
                regex_valid(anim_opts.frame_pattern@),
                un_full == unmatched_indices(assets@, *anim_opts),
                g_total == group_names(assets@, *anim_opts).len(),
                items@.len() + statics@.len() == un_full.len(),
                forall|i: int|
                    0 <= i < assets@.len() ==> ((#[trigger] assets@[i]).kind is Image
                        ==> decoded_image(assets@[i].data@) is Some),
                forall|i: int|
                    0 <= i < items@.len() ==> item_detected_ok(#[trigger] items@[i], *anim_opts),
                forall|k: int|
                    0 <= k < items@.len() ==> #[trigger] static_seg_at(
                        items@,
                        assets@,
                        *anim_opts,
                        k,
                    ),
                forall|k: int|
                    0 <= k < statics@.len() ==> #[trigger] statics_rest_at(
                        statics@,
                        assets@,
                        *anim_opts,
                        items@.len() as int,
                        k,
                    ),
                groups@.len() == g_total,
                forall|g: int|
                    0 <= g < groups@.len() ==> (#[trigger] groups@[g]).name@ == group_names(
                        assets@,
                        *anim_opts,
                    )[g],
                forall|g: int|
                    0 <= g < groups@.len() ==> frames_match(
                        (#[trigger] groups@[g]).frames@,
                        group_frames(assets@, *anim_opts, groups@[g].name@),
                        assets@,
                    ),
                forall|g: int|
                    0 <= g < groups@.len() ==> frames_sorted((#[trigger] groups@[g]).frames@)
                        && groups@[g].frames@.len() >= 1,
                forall|g: int, k: int|
                    0 <= g < groups@.len() && 0 <= k < groups@[g].frames@.len()
                        ==> decoded_image(
                        (#[trigger] groups@[g].frames@[k]).1.data@,
                    ) is Some,
            decreases statics@.len(),
        {
            let ghost ipre = items@;
            let ghost spre = statics@;
            let s = statics.remove(0);
            let ghost s0 = s;
            items.push(PackableItem::Static(s));
            proof {
                assert(statics_rest_at(spre, assets@, *anim_opts, ipre.len() as int, 0));
                assert forall|k: int| 0 <= k < items@.len() implies #[trigger] static_seg_at(
                    items@,
                    assets@,
                    *anim_opts,
                    k,
                ) by {
                    if k < ipre.len() {
                        assert(static_seg_at(ipre, assets@, *anim_opts, k));
                        assert(items@[k] == ipre[k]);
                    } else {
                        assert(items@[k] == PackableItem::Static(s0));
                    }
                }
                assert forall|k: int| 0 <= k < statics@.len() implies #[trigger] statics_rest_at(
                    statics@,
                    assets@,
                    *anim_opts,
                    items@.len() as int,
                    k,
                ) by {
                    assert(statics@[k] == spre[k + 1]);
                    assert(statics_rest_at(spre, assets@, *anim_opts, ipre.len() as int, k + 1));
                }
            }
        }
        proof {
            lemma_gic_nonneg(assets@, *anim_opts, 0);
            assert(groups_item_count(assets@, *anim_opts, 0) == 0);
            assert(detect_items_ok(items@, assets@, *anim_opts, 0));
        }
        while groups.len() > 0
            invariant
                regex_valid(anim_opts.frame_pattern@),
                un_full == unmatched_indices(assets@, *anim_opts),
                g_total == group_names(assets@, *anim_opts).len(),
                groups@.len() <= g_total,
                forall|i: int|
                    0 <= i < assets@.len() ==> ((#[trigger] assets@[i]).kind is Image
                        ==> decoded_image(assets@[i].data@) is Some),
                forall|i: int|
                    0 <= i < items@.len() ==> item_detected_ok(#[trigger] items@[i], *anim_opts),
                detect_items_ok(items@, assets@, *anim_opts, g_total - groups@.len()),
                forall|g: int|
                    0 <= g < groups@.len() ==> (#[trigger] groups@[g]).name@ == group_names(
                        assets@,
                        *anim_opts,
                    )[g_total - groups@.len() + g],
                forall|g: int|
                    0 <= g < groups@.len() ==> frames_match(
                        (#[trigger] groups@[g]).frames@,
                        group_frames(assets@, *anim_opts, groups@[g].name@),
                        assets@,
                    ),
                forall|g: int|
                    0 <= g < groups@.len() ==> frames_sorted((#[trigger] groups@[g]).frames@)
                        && groups@[g].frames@.len() >= 1,
                forall|g: int, k: int|
                    0 <= g < groups@.len() && 0 <= k < groups@[g].frames@.len()
                        ==> decoded_image(
                        (#[trigger] groups@[g].frames@[k]).1.data@,
                    ) is Some,
            decreases groups@.len(),
        {
            let ghost gdone = g_total - groups@.len();
            let ghost gpre = groups@;
            let mut grp = groups.remove(0);
            let ghost name_g = grp.name@;
            let ghost sfr = group_frames(assets@, *anim_opts, name_g);
            let ghost seg_base = items@.len() as int;
            proof {
                assert(groups@ =~= gpre.remove(0));
                assert(grp == gpre[0]);
                assert(name_g == group_names(assets@, *anim_opts)[gdone]);
                assert(frames_match(grp.frames@, sfr, assets@));
                assert(sfr.len() == grp.frames@.len());
                assert(seg_base == un_full.len() + groups_item_count(
                    assets@,
                    *anim_opts,
                    gdone,
                ));
                lemma_gic_nonneg(assets@, *anim_opts, gdone);
            }
            let frame_count = grp.frames.len();
            if (frame_count as u64) < anim_opts.min_frames as u64 {
                while grp.frames.len() > 0
                    invariant
                        regex_valid(anim_opts.frame_pattern@),
                        un_full == unmatched_indices(assets@, *anim_opts),
                        g_total == group_names(assets@, *anim_opts).len(),
                        0 <= gdone < g_total,
                        name_g == group_names(assets@, *anim_opts)[gdone],
                        sfr == group_frames(assets@, *anim_opts, name_g),
                        sfr.len() < anim_opts.min_frames,
                        seg_base == un_full.len() + groups_item_count(
                            assets@,
                            *anim_opts,
                            gdone,
                        ),
                        un_full.len() <= seg_base,
                        0 <= seg_base,
                        grp.frames@.len() <= sfr.len(),
                        items@.len() == seg_base + (sfr.len() - grp.frames@.len()),
                        frames_match(
                            grp.frames@,
                            sfr.skip(sfr.len() - grp.frames@.len()),
                            assets@,
                        ),
                        forall|i: int|
                            0 <= i < items@.len() ==> item_detected_ok(
                                #[trigger] items@[i],
                                *anim_opts,
                            ),
                        forall|k: int|
                            0 <= k < un_full.len() ==> #[trigger] static_seg_at(
                                items@,
                                assets@,
                                *anim_opts,
                                k,
                            ),
                        forall|g: int|
                            0 <= g < gdone ==> #[trigger] group_seg_at(
                                items@,
                                assets@,
                                *anim_opts,
                                g,
                            ),
                        forall|j: int|
                            0 <= j < items@.len() - seg_base ==> #[trigger] dissolved_at(
                                items@,
                                seg_base,
                                assets@,
                                *anim_opts,
                                name_g,
                                j,
                            ),
                    decreases grp.frames@.len(),
                {
                    let ghost donej = sfr.len() - grp.frames@.len();
                    let ghost fpre = grp.frames@;
                    let ghost ipre = items@;
                    let (_, sprite) = grp.frames.remove(0);
                    let ghost spr2 = sprite;
                    items.push(PackableItem::Static(sprite));
                    proof {
                        assert(grp.frames@ =~= fpre.remove(0));
                        assert(spr2 == fpre[0].1);
                        assert(sfr.skip(donej)[0] == sfr[donej]);
                        assert(fpre[0].0 == sfr.skip(donej)[0].0 && 0 <= sfr.skip(donej)[0].1
                            < assets@.len() && sprite_from(
                            fpre[0].1,
                            assets@[sfr.skip(donej)[0].1],
                        ));
                        assert forall|k2: int| 0 <= k2 < grp.frames@.len() implies ({
                            let fr = #[trigger] grp.frames@[k2];
                            &&& fr.0 == sfr.skip(donej + 1)[k2].0
                            &&& 0 <= sfr.skip(donej + 1)[k2].1 < assets@.len()
                            &&& sprite_from(fr.1, assets@[sfr.skip(donej + 1)[k2].1])
                        }) by {
                            assert(grp.frames@[k2] == fpre[k2 + 1]);
                            assert(sfr.skip(donej + 1)[k2] == sfr.skip(donej)[k2 + 1]);
                            assert(fpre[k2 + 1].0 == sfr.skip(donej)[k2 + 1].0 && 0 <= sfr.skip(
                                donej,
                            )[k2 + 1].1 < assets@.len() && sprite_from(
                                fpre[k2 + 1].1,
                                assets@[sfr.skip(donej)[k2 + 1].1],
                            ));
                        }
                        assert(frames_match(
                            grp.frames@,
                            sfr.skip(sfr.len() - grp.frames@.len()),
                            assets@,
                        ));
                        assert forall|j: int|
                            0 <= j < items@.len() - seg_base implies #[trigger] dissolved_at(
                            items@,
                            seg_base,
                            assets@,
                            *anim_opts,
                            name_g,
                            j,
                        ) by {
                            if j < donej {
                                assert(dissolved_at(
                                    ipre,
                                    seg_base,
                                    assets@,
                                    *anim_opts,
                                    name_g,
                                    j,
                                ));
                                assert(items@[seg_base + j] == ipre[seg_base + j]);
                            } else {
                                assert(items@[seg_base + j] == PackableItem::Static(spr2));
                                assert(sfr[donej] == sfr.skip(donej)[0]);
                            }
                        }
                        assert forall|k: int|
                            0 <= k < un_full.len() implies #[trigger] static_seg_at(
                            items@,
                            assets@,
                            *anim_opts,
                            k,
                        ) by {
                            assert(static_seg_at(ipre, assets@, *anim_opts, k));
                            assert(k < ipre.len());
                            assert(items@[k] == ipre[k]);
                        }
                        assert forall|g: int|
                            0 <= g < gdone implies #[trigger] group_seg_at(
                            items@,
                            assets@,
                            *anim_opts,
                            g,
                        ) by {
                            lemma_gic_monotone(assets@, *anim_opts, g + 1, gdone);
                            lemma_group_seg_preserved(ipre, items@, assets@, *anim_opts, g);
                        }
                    }
                }
                proof {
                    assert(items@.len() == seg_base + sfr.len());
                    assert(group_segment_ok(items@, seg_base, assets@, *anim_opts, name_g));
                    assert(group_seg_at(items@, assets@, *anim_opts, gdone));
                    assert(groups_item_count(assets@, *anim_opts, gdone + 1)
                        == groups_item_count(assets@, *anim_opts, gdone) + sfr.len());
                    assert forall|g: int|
                        0 <= g < gdone + 1 implies #[trigger] group_seg_at(
                        items@,
                        assets@,
                        *anim_opts,
                        g,
                    ) by {
                    }
                    assert(detect_items_ok(items@, assets@, *anim_opts, gdone + 1));
                }
            } else {
                let mut ordered: Vec<Sprite> = Vec::new();
                while grp.frames.len() > 0
                    invariant
                        regex_valid(anim_opts.frame_pattern@),
                        un_full == unmatched_indices(assets@, *anim_opts),
                        g_total == group_names(assets@, *anim_opts).len(),
                        0 <= gdone < g_total,
                        name_g == group_names(assets@, *anim_opts)[gdone],
                        sfr == group_frames(assets@, *anim_opts, name_g),
                        grp.name@ == name_g,
                        ordered@.len() + grp.frames@.len() == sfr.len(),
                        frames_match(grp.frames@, sfr.skip(ordered@.len() as int), assets@),
                        forall|j: int|
                            0 <= j < ordered@.len() ==> #[trigger] ordered_at(
                                ordered@,
                                assets@,
                                sfr,
                                j,
                            ),
                        forall|k: int|
                            0 <= k < ordered@.len() ==> decoded_image(
                                (#[trigger] ordered@[k]).data@,
                            ) is Some,
                        forall|k: int|
                            0 <= k < grp.frames@.len() ==> decoded_image(
                                (#[trigger] grp.frames@[k]).1.data@,
                            ) is Some,
                    decreases grp.frames@.len(),
                {
                    let ghost donej = ordered@.len() as int;
                    let ghost fpre = grp.frames@;
                    let ghost opre = ordered@;
                    let (_, sprite) = grp.frames.remove(0);
                    let ghost spr2 = sprite;
                    ordered.push(sprite);
                    proof {
                        assert(grp.frames@ =~= fpre.remove(0));
                        assert(spr2 == fpre[0].1);
                        assert(sfr.skip(donej)[0] == sfr[donej]);
                        assert(fpre[0].0 == sfr.skip(donej)[0].0 && 0 <= sfr.skip(donej)[0].1
                            < assets@.len() && sprite_from(
                            fpre[0].1,
                            assets@[sfr.skip(donej)[0].1],
                        ));
                        assert forall|k2: int| 0 <= k2 < grp.frames@.len() implies ({
                            let fr = #[trigger] grp.frames@[k2];
                            &&& fr.0 == sfr.skip(donej + 1)[k2].0
                            &&& 0 <= sfr.skip(donej + 1)[k2].1 < assets@.len()
                            &&& sprite_from(fr.1, assets@[sfr.skip(donej + 1)[k2].1])
                        }) by {
                            assert(grp.frames@[k2] == fpre[k2 + 1]);
                            assert(sfr.skip(donej + 1)[k2] == sfr.skip(donej)[k2 + 1]);
                            assert(fpre[k2 + 1].0 == sfr.skip(donej)[k2 + 1].0 && 0 <= sfr.skip(
                                donej,
                            )[k2 + 1].1 < assets@.len() && sprite_from(
                                fpre[k2 + 1].1,
                                assets@[sfr.skip(donej)[k2 + 1].1],
                            ));
                        }
                        assert(frames_match(
                            grp.frames@,
                            sfr.skip(ordered@.len() as int),
                            assets@,
                        ));
                        assert forall|j: int|
                            0 <= j < ordered@.len() implies #[trigger] ordered_at(
                            ordered@,
                            assets@,
                            sfr,
                            j,
                        ) by {
                            if j < donej {
                                assert(ordered_at(opre, assets@, sfr, j));
                                assert(ordered@[j] == opre[j]);
                            } else {
                                assert(ordered@[j] == spr2);
                                assert(sfr[donej] == sfr.skip(donej)[0]);
                            }
                        }
                    }
                }
                let ghost oview = ordered@;
                let strip = match self.combine_frames_into_strip(
                    grp.name.as_str(),
                    ordered,
                    &anim_opts.layout,
                    anim_opts.default_frame_duration_ms,
                    anim_opts.default_loop,
                ) {
                    Ok(strip) => strip,
                    Err(e) => {
                        proof {
                            if regex_valid(anim_opts.frame_pattern@) && (forall|i: int|
                                0 <= i < assets@.len() ==> ((#[trigger] assets@[i]).kind
                                    is Image ==> decoded_image(assets@[i].data@) is Some)) {
                                assert(e matches PackError::ImageEncodeFailure { .. });
                            }
                        }
                        return Err(e);
                    },
                };
                proof {
                    assert(ordered_at(oview, assets@, sfr, 0));
                    assert(anim_from_group(strip, assets@, sfr, name_g, *anim_opts));
                }
                let ghost ipre2 = items@;
                items.push(PackableItem::Animated(strip));
                proof {
                    assert(items@[seg_base] == PackableItem::Animated(strip));
                    assert(group_segment_ok(items@, seg_base, assets@, *anim_opts, name_g));
                    assert(group_seg_at(items@, assets@, *anim_opts, gdone));
                    assert(groups_item_count(assets@, *anim_opts, gdone + 1)
                        == groups_item_count(assets@, *anim_opts, gdone) + 1);
                    assert forall|k: int|
                        0 <= k < un_full.len() implies #[trigger] static_seg_at(
                        items@,
                        assets@,
                        *anim_opts,
                        k,
                    ) by {
                        assert(static_seg_at(ipre2, assets@, *anim_opts, k));
                        assert(k < ipre2.len());
                        assert(items@[k] == ipre2[k]);
                    }
                    assert forall|g: int|
                        0 <= g < gdone implies #[trigger] group_seg_at(
                        items@,
                        assets@,
                        *anim_opts,
                        g,
                    ) by {
                        lemma_gic_monotone(assets@, *anim_opts, g + 1, gdone);
                        lemma_group_seg_preserved(ipre2, items@, assets@, *anim_opts, g);
                    }
                    assert(detect_items_ok(items@, assets@, *anim_opts, gdone + 1));
                }
            }
            proof {
                assert forall|g: int|
                    0 <= g < groups@.len() implies (#[trigger] groups@[g]).name@ == group_names(
                    assets@,
                    *anim_opts,
                )[gdone + 1 + g] && frames_match(
                    groups@[g].frames@,
                    group_frames(assets@, *anim_opts, groups@[g].name@),
                    assets@,
                ) && frames_sorted(groups@[g].frames@) && groups@[g].frames@.len() >= 1 by {
                    assert(groups@[g] == gpre[g + 1]);
                }
                assert forall|g: int, k: int|
                    0 <= g < groups@.len() && 0 <= k < groups@[g].frames@.len() implies
                    decoded_image((#[trigger] groups@[g].frames@[k]).1.data@) is Some by {
                    assert(groups@[g] == gpre[g + 1]);
                }
            }
        }
        proof {
            assert(detect_items_ok(items@, assets@, *anim_opts, g_total));
        }
        Ok(items)
    }

    /// Turn assets into packable items under the configured mode: animation
    /// detection in animated mode; in static mode one sprite per image
    /// asset, keeping, when deduplication is on, only the first of the
    /// items sharing a content hash.
    pub fn assets_to_sprites(&self, assets: &Vec<Asset>) -> (r: Result<Vec<PackableItem>, PackError>)
        ensures
            r is Err ==> !(r->Err_0 matches PackError::PageLimitExceeded { .. }),
            (assets@.len() == 0 && (match self.options.mode {
                PackMode::Animated(o) => regex_valid(o.frame_pattern@),
                PackMode::Static(_) => true,
            })) ==> (r is Ok && r->Ok_0@.len() == 0),
            r is Ok ==> forall|i: int|
                0 <= i < r->Ok_0@.len() ==> item_mode_ok(#[trigger] r->Ok_0@[i], self.options.mode),
            self.options.mode is Static ==> (r is Ok <==> forall|i: int|
                0 <= i < assets@.len() ==> ((#[trigger] assets@[i]).kind is Image
                    ==> decoded_image(assets@[i].data@) is Some)),
            self.options.mode is Static && r is Err ==> exists|i: int|
                0 <= i < assets@.len() && (#[trigger] assets@[i]).kind is Image && decoded_image(
                    assets@[i].data@,
                ) is None && (match r->Err_0 {
                    PackError::ImageDecodeFailure { name } => name@ == assets@[i].path@,
                    _ => false,
                }),
            self.options.mode is Static && r is Ok ==> ({
                let kept = kept_indices(assets@, self.options.spec_dedupe());
                &&& r->Ok_0@.len() == kept.len()
                &&& forall|k: int|
                    0 <= k < kept.len() ==> static_item_from(
                        #[trigger] r->Ok_0@[k],
                        assets@[kept[k]],
                    )
            }),
            r is Ok ==> (match self.options.mode {
                PackMode::Animated(o) => detect_items_ok(
                    r->Ok_0@,
                    assets@,
                    o,
                    group_names(assets@, o).len() as int,
                ) && r->Ok_0@.len() == detect_count(assets@, o),
                PackMode::Static(_) => true,
            }),
    {
        if let PackMode::Animated(anim_opts) = &self.options.mode {
            return self.detect_animations(assets, anim_opts);
        }
        let dedupe = self.options.dedupe();
        let mut items: Vec<PackableItem> = Vec::new();
        let mut seen_hashes: Vec<String> = Vec::new();
        let n = assets.len();
        let mut idx: usize = 0;
        proof {
            assert(assets@.take(0) =~= Seq::<Asset>::empty());
        }
        while idx < n
            invariant
                n == assets@.len(),
                idx <= n,
                self.options.mode is Static,
                dedupe == self.options.spec_dedupe(),
                forall|i: int|
                    0 <= i < idx ==> ((#[trigger] assets@[i]).kind is Image ==> decoded_image(
                        assets@[i].data@,
                    ) is Some),
                ({
                    let kept = kept_indices(assets@.take(idx as int), dedupe);
                    &&& items@.len() == kept.len()
                    &&& forall|k: int|
                        0 <= k < kept.len() ==> 0 <= #[trigger] kept[k] < idx
                    &&& forall|k: int|
                        0 <= k < kept.len() ==> static_item_from(
                            #[trigger] items@[k],
                            assets@[kept[k]],
                        )
                    &&& (dedupe ==> seen_hashes@.len() == kept.len() && forall|k: int|
                        0 <= k < kept.len() ==> (#[trigger] seen_hashes@[k])@
                            == assets@[kept[k]].hash@)
                }),
            decreases n - idx,
        {
            let ghost kpre = kept_indices(assets@.take(idx as int), dedupe);
            proof {
                assert(assets@.take(idx + 1).drop_last() =~= assets@.take(idx as int));
                assert(assets@.take(idx + 1).last() == assets@[idx as int]);
            }
            let asset = &assets[idx];
            if matches!(asset.kind, AssetKind::Image) {
                let pix = match decode_image(&asset.data) {
                    Some(p) => p,
                    None => {
                        return Err(PackError::ImageDecodeFailure { name: asset.path.clone() });
                    },
                };
                let size = Size { width: pix.width, height: pix.height };
                let stem = file_stem(asset.path.as_str());
                let duplicate = dedupe && vec_contains_str(&seen_hashes, asset.hash.as_str());
                proof {
                    if dedupe {
                        assert(duplicate == !(forall|j: int|
                            0 <= j < kpre.len() ==> assets@[#[trigger] kpre[j]].hash@
                                != assets@[idx as int].hash@)) by {
                            if duplicate {
                                let w = choose|w: int|
                                    0 <= w < seen_hashes@.len() && (#[trigger] seen_hashes@[w])@
                                        == assets@[idx as int].hash@;
                                assert(assets@[kpre[w]].hash@ == assets@[idx as int].hash@);
                            } else {
                                assert forall|j: int|
                                    0 <= j < kpre.len() implies assets@[#[trigger] kpre[j]].hash@
                                    != assets@[idx as int].hash@ by {
                                    assert((seen_hashes@[j])@ == assets@[kpre[j]].hash@);
                                }
                            }
                        }
                    }
                }
                if !duplicate {
                    if dedupe {
                        seen_hashes.push(asset.hash.clone());
                    }
                    items.push(
                        PackableItem::Static(
                            Sprite {
                                name: stem,
                                data: clone_bytes(&asset.data),
                                size,
                                hash: asset.hash.clone(),
                            },
                        ),
                    );
                    proof {
                        assert(kept_indices(assets@.take(idx + 1), dedupe) =~= kpre.push(
                            idx as int,
                        ));
                        assert(static_item_from(items@.last(), assets@[idx as int]));
                    }
                } else {
                    proof {
                        assert(kept_indices(assets@.take(idx + 1), dedupe) =~= kpre);
                    }
                }
            } else {
                proof {
                    assert(kept_indices(assets@.take(idx + 1), dedupe) =~= kpre);
                }
            }
            idx += 1;
        }
        proof {
            assert(assets@.take(n as int) =~= assets@);
        }
        Ok(items)
    }
}

/// Source positions of the assets a static-mode conversion keeps: every
/// image asset, in order, except — under deduplication — any whose hash an
/// earlier kept asset already carries.
pub open spec fn kept_indices(assets: Seq<Asset>, dedupe: bool) -> Seq<int>
    decreases assets.len(),
{
    if assets.len() == 0 {
        Seq::empty()
    } else {
        let prefix = kept_indices(assets.drop_last(), dedupe);
        let i = assets.len() - 1;
        if assets[i as int].kind is Image && (!dedupe || (forall|j: int|
            0 <= j < prefix.len() ==> assets[#[trigger] prefix[j]].hash@ != assets[
                i as int
            ].hash@)) {
            prefix.push(i as int)
        } else {
            prefix
        }
    }
}

/// Every kept position names an image asset of the list.
pub proof fn lemma_kept_indices_image(assets: Seq<Asset>, dedupe: bool)
    ensures
        forall|k: int|
            0 <= k < kept_indices(assets, dedupe).len() ==> ({
                let idx = #[trigger] kept_indices(assets, dedupe)[k];
                &&& 0 <= idx < assets.len()
                &&& assets[idx].kind is Image
            }),
    decreases assets.len(),
{
    if assets.len() > 0 {
        lemma_kept_indices_image(assets.drop_last(), dedupe);
        assert forall|k: int|
            0 <= k < kept_indices(assets, dedupe).len() implies ({
            let idx = #[trigger] kept_indices(assets, dedupe)[k];
            &&& 0 <= idx < assets.len()
            &&& assets[idx].kind is Image
        }) by {
            let prefix = kept_indices(assets.drop_last(), dedupe);
            if k < prefix.len() {
                assert(kept_indices(assets, dedupe)[k] == prefix[k]);
                assert(assets.drop_last()[prefix[k]] == assets[prefix[k]]);
            }
        }
    }
}

/// The static item a kept asset becomes: its file stem as the name, its
/// bytes and hash unchanged, and its decoded dimensions as the size.
pub open spec fn static_item_from(item: PackableItem, a: Asset) -> bool {
    &&& item is Static
    &&& sprite_from(item.spec_sprite(), a)
}

} // verus!
