use asphalt::asset::{Asset, AssetKind};
use asphalt::config::{
    AnimatedOptions, AnimationLayout, OutputOptions, PackAlgorithm, PackMode, PackOptions,
    PackSort, StaticOptions,
};
use asphalt::error::PackError;
use asphalt::geom::{Rect, Size};
use asphalt::manifest::{AtlasManifest, SpriteInfo};
use asphalt::pack::{Atlas, PackedSprite};
use asphalt::optimize::optimize_png;
use asphalt::pack::{PackableItem, Packer, Sprite};
use image::{ImageBuffer, Rgba, RgbaImage};
use std::io::Cursor;

fn png_of_color(width: u32, height: u32, color: [u8; 4]) -> Vec<u8> {
    let mut img: RgbaImage = ImageBuffer::new(width, height);
    for pixel in img.pixels_mut() {
        *pixel = Rgba(color);
    }
    let mut buffer = Cursor::new(Vec::new());
    img.write_to(&mut buffer, image::ImageFormat::Png).unwrap();
    buffer.into_inner()
}

fn asset(name: &str, data: Vec<u8>, hash: &str) -> Asset {
    Asset {
        path: name.to_string(),
        data,
        hash: hash.to_string(),
        kind: AssetKind::Image,
    }
}

fn static_options(max: (u32, u32), padding: u32) -> StaticOptions {
    StaticOptions {
        max_size: max,
        power_of_two: true,
        padding,
        extrude: 0,
        allow_trim: false,
        algorithm: PackAlgorithm::MaxRects,
        page_limit: None,
        sort: PackSort::Area,
        dedupe: false,
    }
}

fn packer_with(static_opts: StaticOptions) -> Packer {
    Packer::new(PackOptions {
        enabled: true,
        output: OutputOptions::default(),
        mode: PackMode::Static(static_opts),
    })
}

#[test]
fn five_sprites_distribute_across_pages() {
    // Five 100x100 sprites on 128x128 pages with padding 2: each padded
    // sprite measures 104, so only one fits per page, and all five must
    // still be placed.
    let data = png_of_color(100, 100, [10, 20, 30, 255]);
    let assets: Vec<Asset> = (1..=5)
        .map(|i| asset(&format!("big_{i}.png"), data.clone(), &format!("h{i}")))
        .collect();

    let packer = packer_with(static_options((128, 128), 2));
    let result = packer.pack_assets(&assets, "level").expect("packing should succeed");

    let placed: usize = result.atlases.iter().map(|a| a.sprites.len()).sum();
    assert_eq!(placed, 5);
    assert_eq!(result.atlases.len(), 5);
    for (i, atlas) in result.atlases.iter().enumerate() {
        assert_eq!(atlas.page_index, i);
        assert_eq!(atlas.size.width, 128);
        assert_eq!(atlas.size.height, 128);
    }
    assert_eq!(result.manifest.sprites.len(), 5);
}

#[test]
fn placements_stay_inside_page_and_never_overlap() {
    let data = png_of_color(30, 20, [1, 2, 3, 255]);
    let assets: Vec<Asset> = (1..=9)
        .map(|i| asset(&format!("tile_{i}.png"), data.clone(), &format!("h{i}")))
        .collect();

    let packer = packer_with(static_options((64, 64), 2));
    let result = packer.pack_assets(&assets, "tiles").expect("packing should succeed");

    for atlas in &result.atlases {
        let rects: Vec<_> = atlas.sprites.iter().map(|s| s.rect).collect();
        for r in &rects {
            assert!(r.x + r.width <= atlas.size.width);
            assert!(r.y + r.height <= atlas.size.height);
        }
        for i in 0..rects.len() {
            for j in (i + 1)..rects.len() {
                let a = rects[i];
                let b = rects[j];
                let disjoint = a.x + a.width <= b.x
                    || b.x + b.width <= a.x
                    || a.y + a.height <= b.y
                    || b.y + b.height <= a.y;
                assert!(disjoint, "rects {i} and {j} overlap on one page");
            }
        }
    }
}

#[test]
fn guillotine_strategy_also_packs_everything() {
    let data = png_of_color(30, 20, [1, 2, 3, 255]);
    let assets: Vec<Asset> = (1..=9)
        .map(|i| asset(&format!("tile_{i}.png"), data.clone(), &format!("h{i}")))
        .collect();

    let mut opts = static_options((64, 64), 2);
    opts.algorithm = PackAlgorithm::Guillotine;
    let packer = packer_with(opts);
    let result = packer.pack_assets(&assets, "tiles").expect("packing should succeed");
    let placed: usize = result.atlases.iter().map(|a| a.sprites.len()).sum();
    assert_eq!(placed, 9);
}

#[test]
fn page_limit_exceeded_names_required_and_allowed() {
    // Geometry requires 2 pages but the limit is 1.
    let data = png_of_color(100, 100, [9, 9, 9, 255]);
    let assets = vec![
        asset("a.png", data.clone(), "h1"),
        asset("b.png", data.clone(), "h2"),
    ];

    let mut opts = static_options((128, 128), 2);
    opts.page_limit = Some(1);
    let packer = packer_with(opts);
    let err = packer.pack_assets(&assets, "level").unwrap_err();
    match &err {
        PackError::PageLimitExceeded { required, allowed } => {
            assert_eq!(*required, 2);
            assert_eq!(*allowed, 1);
        }
        other => panic!("expected PageLimitExceeded, got {other:?}"),
    }
    let msg = err.message();
    assert!(msg.contains("require 2 pages"));
    assert!(msg.contains("limit is 1"));
}

#[test]
fn below_minimum_frames_dissolves_into_statics() {
    // Same frames as the horizontal-strip case, but min_frames 4: no strip
    // is produced and every frame becomes an independent static sprite.
    let data = png_of_color(2, 2, [255, 0, 0, 255]);
    let assets = vec![
        asset("walk_001.png", data.clone(), "h1"),
        asset("walk_002.png", data.clone(), "h2"),
        asset("walk_003.png", data.clone(), "h3"),
    ];
    let anim_opts = AnimatedOptions {
        frame_pattern: r"(?P<name>.+)_(\d+)".to_string(),
        min_frames: 4,
        layout: AnimationLayout::HorizontalStrip,
        default_frame_duration_ms: 100,
        default_loop: true,
        ..Default::default()
    };
    let packer = Packer::new(PackOptions {
        enabled: true,
        output: OutputOptions::default(),
        mode: PackMode::Animated(anim_opts.clone()),
    });
    let items = packer.detect_animations(&assets, &anim_opts).unwrap();
    assert_eq!(items.len(), 3);
    for item in &items {
        assert!(matches!(item, PackableItem::Static(_)));
    }
}

#[test]
fn dedupe_keeps_first_of_equal_hashes() {
    let data = png_of_color(8, 8, [4, 4, 4, 255]);
    let assets = vec![
        asset("first.png", data.clone(), "same-hash"),
        asset("second.png", data.clone(), "same-hash"),
    ];

    let mut opts = static_options((64, 64), 0);
    opts.dedupe = true;
    let packer = packer_with(opts);
    let items = packer.assets_to_sprites(&assets).expect("conversion should succeed");
    assert_eq!(items.len(), 1);
    match &items[0] {
        PackableItem::Static(sprite) => assert_eq!(sprite.name, "first"),
        _ => panic!("expected a static sprite"),
    }
}

#[test]
fn packing_twice_is_byte_identical() {
    let red = png_of_color(12, 7, [200, 0, 0, 255]);
    let blue = png_of_color(5, 9, [0, 0, 200, 128]);
    let assets = vec![
        asset("red.png", red, "h-red"),
        asset("blue.png", blue, "h-blue"),
    ];

    let mut opts = static_options((32, 32), 1);
    opts.extrude = 1;
    let first = packer_with(opts.clone()).pack_assets(&assets, "ui").unwrap();
    let second = packer_with(opts).pack_assets(&assets, "ui").unwrap();

    assert_eq!(first.manifest, second.manifest);
    assert_eq!(first.atlases.len(), second.atlases.len());
    for (a, b) in first.atlases.iter().zip(second.atlases.iter()) {
        assert_eq!(a.image_data, b.image_data);
    }
}

#[test]
fn packing_disabled_is_refused() {
    let packer = Packer::new(PackOptions {
        enabled: false,
        output: OutputOptions::default(),
        mode: PackMode::Static(StaticOptions::default()),
    });
    let err = packer.pack_assets(&Vec::new(), "menu").unwrap_err();
    assert!(matches!(&err, PackError::PackingDisabled { input_name } if input_name == "menu"));
    assert!(err.message().contains("Packing is not enabled for input 'menu'"));
}

#[test]
fn invalid_frame_pattern_fails_fast() {
    let packer = Packer::new(PackOptions {
        enabled: true,
        output: OutputOptions::default(),
        mode: PackMode::Animated(AnimatedOptions {
            frame_pattern: "[broken".to_string(),
            ..Default::default()
        }),
    });
    let assets = vec![asset("walk_01.png", png_of_color(2, 2, [1, 1, 1, 255]), "h1")];
    let err = packer.pack_assets(&assets, "anim").unwrap_err();
    match &err {
        PackError::InvalidFramePattern { pattern, .. } => assert_eq!(pattern, "[broken"),
        other => panic!("expected InvalidFramePattern, got {other:?}"),
    }
}

#[test]
fn oversize_sprite_is_rejected_with_measurements() {
    let data = png_of_color(200, 50, [1, 1, 1, 255]);
    let assets = vec![asset("wide.png", data, "h1")];
    let packer = packer_with(static_options((128, 128), 2));
    let err = packer.pack_assets(&assets, "level").unwrap_err();
    match &err {
        PackError::OversizeSprite { name, width, height, max_width, max_height } => {
            assert_eq!(name, "wide");
            assert_eq!((*width, *height), (200, 50));
            assert_eq!((*max_width, *max_height), (128, 128));
        }
        other => panic!("expected OversizeSprite, got {other:?}"),
    }
    assert!(err.message().contains("exceeds maximum atlas size"));
}

#[test]
fn compounding_padding_stalls_explicitly() {
    // A 60x60 sprite passes validation against a 64x64 page, but with
    // padding 10 its padded size can never fit: the guard reports the
    // stall instead of looping forever.
    let data = png_of_color(60, 60, [1, 1, 1, 255]);
    let assets = vec![asset("pad.png", data, "h1")];
    let mut opts = static_options((64, 64), 10);
    opts.power_of_two = false;
    let packer = packer_with(opts);
    let err = packer.pack_assets(&assets, "level").unwrap_err();
    assert!(matches!(&err, PackError::NoProgress { .. }), "got {err:?}");
}

#[test]
fn undecodable_image_reports_decode_failure() {
    let assets = vec![asset("broken.png", vec![1, 2, 3, 4], "h1")];
    let packer = packer_with(static_options((64, 64), 0));
    let err = packer.pack_assets(&assets, "level").unwrap_err();
    match &err {
        PackError::ImageDecodeFailure { name } => assert_eq!(name, "broken.png"),
        other => panic!("expected ImageDecodeFailure, got {other:?}"),
    }
    assert!(err.message().contains("Failed to load image: broken.png"));
}

#[test]
fn empty_animation_frames_are_refused() {
    let packer = packer_with(static_options((64, 64), 0));
    let err = packer
        .combine_frames_into_strip("ghost", Vec::new(), &AnimationLayout::HorizontalStrip, 100, true)
        .unwrap_err();
    assert!(matches!(&err, PackError::EmptyAnimation { name } if name == "ghost"));
    assert!(err.message().contains("Cannot combine empty animation frames for 'ghost'"));
}

#[test]
fn sort_orders_by_descending_area_with_name_ties() {
    let sprite = |name: &str, w: u32, h: u32| {
        PackableItem::Static(Sprite {
            name: name.to_string(),
            data: vec![],
            size: Size { width: w, height: h },
            hash: String::new(),
        })
    };
    let mut items = vec![
        sprite("small", 2, 2),
        sprite("beta", 4, 4),
        sprite("alpha", 4, 4),
        sprite("large", 8, 8),
    ];
    let packer = packer_with(static_options((64, 64), 0));
    packer.sort_sprites(&mut items);
    let names: Vec<&str> = items.iter().map(|i| i.sprite().name.as_str()).collect();
    assert_eq!(names, vec!["large", "alpha", "beta", "small"]);

    // Sorting an already-sorted sequence changes nothing.
    let before: Vec<String> = names.iter().map(|s| s.to_string()).collect();
    packer.sort_sprites(&mut items);
    let after: Vec<&str> = items.iter().map(|i| i.sprite().name.as_str()).collect();
    assert_eq!(before, after);
}

#[test]
fn sort_by_max_side_and_by_name() {
    let sprite = |name: &str, w: u32, h: u32| {
        PackableItem::Static(Sprite {
            name: name.to_string(),
            data: vec![],
            size: Size { width: w, height: h },
            hash: String::new(),
        })
    };
    let mut items = vec![sprite("a", 2, 9), sprite("b", 8, 3), sprite("c", 10, 1)];
    let mut opts = static_options((64, 64), 0);
    opts.sort = PackSort::MaxSide;
    packer_with(opts).sort_sprites(&mut items);
    let names: Vec<&str> = items.iter().map(|i| i.sprite().name.as_str()).collect();
    assert_eq!(names, vec!["c", "a", "b"]);

    let mut items = vec![sprite("pear", 1, 1), sprite("apple", 9, 9), sprite("fig", 4, 4)];
    let mut opts = static_options((64, 64), 0);
    opts.sort = PackSort::Name;
    packer_with(opts).sort_sprites(&mut items);
    let names: Vec<&str> = items.iter().map(|i| i.sprite().name.as_str()).collect();
    assert_eq!(names, vec!["apple", "fig", "pear"]);
}

#[test]
fn trim_crops_transparent_border_and_records_source() {
    // A 4x4 image whose opaque pixels sit in the 2x2 center.
    let mut img: RgbaImage = ImageBuffer::new(4, 4);
    img.put_pixel(1, 1, Rgba([255, 0, 0, 255]));
    img.put_pixel(2, 1, Rgba([255, 0, 0, 255]));
    img.put_pixel(1, 2, Rgba([255, 0, 0, 255]));
    img.put_pixel(2, 2, Rgba([255, 0, 0, 255]));
    let mut buffer = Cursor::new(Vec::new());
    img.write_to(&mut buffer, image::ImageFormat::Png).unwrap();

    let assets = vec![asset("dot.png", buffer.into_inner(), "h1")];
    let mut opts = static_options((16, 16), 0);
    opts.allow_trim = true;
    opts.power_of_two = false;
    let packer = packer_with(opts);
    let result = packer.pack_assets(&assets, "fx").unwrap();

    assert_eq!(result.manifest.sprites.len(), 1);
    let info = &result.manifest.sprites[0];
    assert!(info.trimmed);
    assert_eq!((info.rect.width, info.rect.height), (2, 2));
    let source = info.sprite_source_size.expect("trimmed entries keep the original box");
    assert_eq!((source.width, source.height), (4, 4));
}

#[test]
fn rendered_page_extrudes_edges_and_bleeds_color() {
    // One red 2x2 sprite, padding 2, extrude 1 on a 16x16 page: the sprite
    // lands at (2,2); the extruded column at x=1 copies its edge; the
    // transparent pixel left of that borrows the color without alpha.
    let data = png_of_color(2, 2, [255, 0, 0, 255]);
    let assets = vec![asset("dot.png", data, "h1")];
    let mut opts = static_options((16, 16), 2);
    opts.extrude = 1;
    opts.power_of_two = false;
    let packer = packer_with(opts);
    let result = packer.pack_assets(&assets, "fx").unwrap();

    assert_eq!(result.atlases.len(), 1);
    let page = image::load_from_memory(&result.atlases[0].image_data)
        .expect("page must decode")
        .to_rgba8();
    assert_eq!((page.width(), page.height()), (16, 16));
    let rect = result.atlases[0].sprites[0].rect;
    assert_eq!((rect.x, rect.y, rect.width, rect.height), (2, 2, 2, 2));
    assert_eq!(page.get_pixel(2, 2).0, [255, 0, 0, 255]);
    assert_eq!(page.get_pixel(1, 2).0, [255, 0, 0, 255]);
    assert_eq!(page.get_pixel(0, 2).0, [255, 0, 0, 0]);
}

#[test]
fn manifest_lookup_returns_latest_entry() {
    let mut manifest = AtlasManifest::new("ui".to_string());
    let entry = |name: &str, page: usize| SpriteInfo {
        name: name.to_string(),
        rect: Rect { x: 0, y: 0, width: 1, height: 1 },
        source_size: Size { width: 1, height: 1 },
        trimmed: false,
        sprite_source_size: None,
        page_index: page,
        animation: None,
    };
    manifest.add_sprite(entry("icon", 0));
    manifest.add_sprite(entry("icon", 1));
    let found = manifest.lookup("icon").expect("icon is present");
    assert_eq!(found.page_index, 1);
    assert!(manifest.lookup("missing").is_none());
}

#[test]
fn strip_bytes_decode_to_strip_dimensions() {
    let data = png_of_color(3, 5, [7, 7, 7, 255]);
    let frames = vec![
        Sprite {
            name: "run_1".to_string(),
            data: data.clone(),
            size: Size { width: 3, height: 5 },
            hash: "h1".to_string(),
        },
        Sprite {
            name: "run_2".to_string(),
            data,
            size: Size { width: 3, height: 5 },
            hash: "h2".to_string(),
        },
    ];
    let packer = packer_with(static_options((64, 64), 0));
    let strip = packer
        .combine_frames_into_strip("run", frames, &AnimationLayout::VerticalStrip, 80, false)
        .unwrap();
    assert_eq!((strip.strip_sprite.size.width, strip.strip_sprite.size.height), (3, 10));
    assert_eq!(strip.strip_sprite.hash, "h1");
    let decoded = image::load_from_memory(&strip.strip_sprite.data).unwrap().to_rgba8();
    assert_eq!((decoded.width(), decoded.height()), (3, 10));
    assert_eq!(decoded.get_pixel(0, 7).0, [7, 7, 7, 255]);
}

#[test]
fn frames_are_ordered_by_parsed_index_not_encounter() {
    // Frames arrive out of order; the strip must order them by frame index.
    let red = png_of_color(2, 2, [255, 0, 0, 255]);
    let green = png_of_color(2, 2, [0, 255, 0, 255]);
    let blue = png_of_color(2, 2, [0, 0, 255, 255]);
    let assets = vec![
        asset("sprites/walk_010.png", blue, "h3"),
        asset("sprites/walk_002.png", green, "h2"),
        asset("sprites/walk_001.png", red, "h1"),
    ];
    let anim_opts = AnimatedOptions {
        frame_pattern: r"(?P<name>.+)_(\d+)".to_string(),
        min_frames: 2,
        layout: AnimationLayout::HorizontalStrip,
        default_frame_duration_ms: 100,
        default_loop: true,
        ..Default::default()
    };
    let packer = Packer::new(PackOptions {
        enabled: true,
        output: OutputOptions::default(),
        mode: PackMode::Animated(anim_opts.clone()),
    });
    let items = packer.detect_animations(&assets, &anim_opts).unwrap();
    assert_eq!(items.len(), 1);
    let strip = match &items[0] {
        PackableItem::Animated(strip) => strip,
        _ => panic!("expected an animation strip"),
    };
    // The directory prefix is stripped from the stem, so the group is "walk".
    assert_eq!(strip.strip_sprite.name, "walk");
    let decoded = image::load_from_memory(&strip.strip_sprite.data).unwrap().to_rgba8();
    assert_eq!((decoded.width(), decoded.height()), (6, 2));
    assert_eq!(decoded.get_pixel(0, 0).0, [255, 0, 0, 255]); // index 1 first
    assert_eq!(decoded.get_pixel(2, 0).0, [0, 255, 0, 255]); // then index 2
    assert_eq!(decoded.get_pixel(4, 0).0, [0, 0, 255, 255]); // then index 10
}

#[test]
fn duplicate_frame_index_keeps_the_later_frame() {
    let red = png_of_color(2, 2, [255, 0, 0, 255]);
    let green = png_of_color(2, 2, [0, 255, 0, 255]);
    let blue = png_of_color(2, 2, [0, 0, 255, 255]);
    let assets = vec![
        asset("walk_1.png", red, "h1"),
        asset("walk_2.png", green, "h2"),
        // Same parsed index as "walk_1": replaces the earlier frame.
        asset("walk_01.png", blue, "h3"),
    ];
    let anim_opts = AnimatedOptions {
        frame_pattern: r"(?P<name>.+)_(\d+)".to_string(),
        min_frames: 2,
        layout: AnimationLayout::HorizontalStrip,
        default_frame_duration_ms: 100,
        default_loop: true,
        ..Default::default()
    };
    let packer = Packer::new(PackOptions {
        enabled: true,
        output: OutputOptions::default(),
        mode: PackMode::Animated(anim_opts.clone()),
    });
    let items = packer.detect_animations(&assets, &anim_opts).unwrap();
    assert_eq!(items.len(), 1);
    let strip = match &items[0] {
        PackableItem::Animated(strip) => strip,
        _ => panic!("expected an animation strip"),
    };
    assert_eq!(strip.frame_count, 2);
    let decoded = image::load_from_memory(&strip.strip_sprite.data).unwrap().to_rgba8();
    assert_eq!(decoded.get_pixel(0, 0).0, [0, 0, 255, 255]); // the replacement
    assert_eq!(decoded.get_pixel(2, 0).0, [0, 255, 0, 255]);
}

#[test]
fn manifest_records_computed_grid_columns() {
    // Nine 2x2 frames in an automatic grid resolve to three columns
    // (the least square covering nine), and the manifest records that
    // resolved count, not a placeholder.
    let data = png_of_color(2, 2, [9, 9, 9, 255]);
    let frames: Vec<Sprite> = (1..=9)
        .map(|i| Sprite {
            name: format!("spin_{i}"),
            data: data.clone(),
            size: Size { width: 2, height: 2 },
            hash: format!("h{i}"),
        })
        .collect();
    let packer = packer_with(static_options((64, 64), 0));
    let strip = packer
        .combine_frames_into_strip(
            "spin",
            frames,
            &AnimationLayout::Grid { columns: None },
            100,
            true,
        )
        .unwrap();
    assert_eq!((strip.strip_sprite.size.width, strip.strip_sprite.size.height), (6, 6));

    let atlas = Atlas {
        page_index: 0,
        image_data: Vec::new(),
        size: Size { width: 64, height: 64 },
        sprites: vec![PackedSprite {
            item: PackableItem::Animated(strip),
            rect: Rect { x: 0, y: 0, width: 6, height: 6 },
            trimmed: false,
            sprite_source_size: None,
        }],
    };
    let manifest = packer.create_manifest(&vec![atlas], "fx").unwrap();
    let anim = manifest.sprites[0].animation.as_ref().unwrap();
    assert!(matches!(
        anim.layout,
        asphalt::manifest::AnimationLayoutInfo::Grid { columns: 3 }
    ));
}

#[test]
fn manifest_keeps_configured_grid_columns() {
    let data = png_of_color(2, 2, [9, 9, 9, 255]);
    let frames: Vec<Sprite> = (1..=6)
        .map(|i| Sprite {
            name: format!("spin_{i}"),
            data: data.clone(),
            size: Size { width: 2, height: 2 },
            hash: format!("h{i}"),
        })
        .collect();
    let packer = packer_with(static_options((64, 64), 0));
    let strip = packer
        .combine_frames_into_strip(
            "spin",
            frames,
            &AnimationLayout::Grid { columns: Some(3) },
            100,
            true,
        )
        .unwrap();
    let atlas = Atlas {
        page_index: 0,
        image_data: Vec::new(),
        size: Size { width: 64, height: 64 },
        sprites: vec![PackedSprite {
            item: PackableItem::Animated(strip),
            rect: Rect { x: 0, y: 0, width: 6, height: 4 },
            trimmed: false,
            sprite_source_size: None,
        }],
    };
    let manifest = packer.create_manifest(&vec![atlas], "fx").unwrap();
    let anim = manifest.sprites[0].animation.as_ref().unwrap();
    assert!(matches!(
        anim.layout,
        asphalt::manifest::AnimationLayoutInfo::Grid { columns: 3 }
    ));
}

#[test]
fn optimize_png_keeps_a_decodable_image() {
    let data = png_of_color(10, 10, [5, 6, 7, 255]);
    let optimized = optimize_png(&data);
    let decoded = image::load_from_memory(&optimized).unwrap().to_rgba8();
    assert_eq!((decoded.width(), decoded.height()), (10, 10));
    assert_eq!(decoded.get_pixel(3, 3).0, [5, 6, 7, 255]);
}

#[test]
fn empty_input_yields_empty_result() {
    let packer = packer_with(static_options((64, 64), 2));
    let result = packer.pack_assets(&Vec::new(), "nothing").unwrap();
    assert!(result.atlases.is_empty());
    assert!(result.manifest.sprites.is_empty());
    assert_eq!(result.manifest.name, "nothing");
}

#[test]
fn animated_manifest_entry_records_playback_metadata() {
    // Scenario A's strip, recorded in a manifest: three 2x2 frames under
    // the default-style pattern give one horizontal strip of 6x2, and its
    // manifest entry carries the playback metadata.
    let data = png_of_color(2, 2, [255, 0, 0, 255]);
    let assets = vec![
        asset("walk_001.png", data.clone(), "h1"),
        asset("walk_002.png", data.clone(), "h2"),
        asset("walk_003.png", data.clone(), "h3"),
    ];
    let anim_opts = AnimatedOptions {
        frame_pattern: r"(?P<name>.+)_(\d+)".to_string(),
        min_frames: 2,
        layout: AnimationLayout::HorizontalStrip,
        default_frame_duration_ms: 100,
        default_loop: true,
        padding: 1,
        extrude: 0,
    };
    let packer = Packer::new(PackOptions {
        enabled: true,
        output: OutputOptions::default(),
        mode: PackMode::Animated(anim_opts.clone()),
    });
    let items = packer.detect_animations(&assets, &anim_opts).unwrap();
    assert_eq!(items.len(), 1);
    let strip = match items.into_iter().next().unwrap() {
        PackableItem::Animated(strip) => strip,
        _ => panic!("expected an animation strip"),
    };
    assert_eq!((strip.strip_sprite.size.width, strip.strip_sprite.size.height), (6, 2));

    let atlas = Atlas {
        page_index: 0,
        image_data: Vec::new(),
        size: Size { width: 64, height: 64 },
        sprites: vec![PackedSprite {
            item: PackableItem::Animated(strip),
            rect: Rect { x: 1, y: 1, width: 6, height: 2 },
            trimmed: false,
            sprite_source_size: None,
        }],
    };
    let manifest = packer.create_manifest(&vec![atlas], "hero").unwrap();
    assert_eq!(manifest.name, "hero");
    assert_eq!(manifest.sprites.len(), 1);
    let info = &manifest.sprites[0];
    assert_eq!(info.name, "walk");
    assert_eq!((info.rect.width, info.rect.height), (6, 2));
    let anim = info.animation.as_ref().expect("animated entry");
    assert_eq!(anim.frame_count, 3);
    assert_eq!((anim.frame_size.width, anim.frame_size.height), (2, 2));
    assert_eq!(anim.frame_duration_ms, 100);
    assert!(anim.loops);
}
