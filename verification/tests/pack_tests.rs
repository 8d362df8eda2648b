use asphalt::asset::{Asset, AssetKind};
use asphalt::config::{AnimatedOptions, AnimationLayout, OutputOptions, PackMode, PackOptions, StaticOptions};
use asphalt::geom::Size;
use asphalt::pack::{AnimationStrip, PackableItem, Packer, Sprite};
use image::{ImageBuffer, RgbaImage};
use std::io::Cursor;

/// Helper function to create a test asset
fn create_test_asset(filename: &str, data: Vec<u8>, hash: &str) -> Asset {
    Asset {
        path: filename.to_string(),
        data,
        hash: hash.to_string(),
        kind: AssetKind::Image,
    }
}

/// Helper function to create a simple PNG image for testing
fn create_test_image_png(width: u32, height: u32, color: [u8; 4]) -> Vec<u8> {
    let mut img: RgbaImage = ImageBuffer::new(width, height);
    for pixel in img.pixels_mut() {
        *pixel = image::Rgba(color);
    }

    let mut buffer = Cursor::new(Vec::new());
    img.write_to(&mut buffer, image::ImageFormat::Png).unwrap();
    buffer.into_inner()
}

#[test]
fn test_packable_item_accessors() {
    let static_sprite = Sprite {
        name: "test".to_string(),
        data: vec![],
        size: Size {
            width: 64,
            height: 64,
        },
        hash: "hash123".to_string(),
    };

    let item = PackableItem::Static(static_sprite.clone());
    assert_eq!(item.sprite().name, "test");

    let anim_strip = AnimationStrip {
        strip_sprite: static_sprite.clone(),
        frame_count: 4,
        frame_size: Size {
            width: 16,
            height: 16,
        },
        layout: AnimationLayout::HorizontalStrip,
        frame_duration_ms: 100,
        loops: true,
    };

    let anim_item = PackableItem::Animated(anim_strip);
    assert_eq!(anim_item.sprite().name, "test");
}

#[test]
fn test_animation_detection_horizontal_strip() {
    // Create a simple 2x2 red PNG image for testing
    let test_image_data = create_test_image_png(2, 2, [255, 0, 0, 255]);

    let assets = vec![
        create_test_asset("walk_001.png", test_image_data.clone(), "hash1"),
        create_test_asset("walk_002.png", test_image_data.clone(), "hash2"),
        create_test_asset("walk_003.png", test_image_data.clone(), "hash3"),
    ];

    let animated_options = AnimatedOptions {
        frame_pattern: r"^(?P<name>.+?)_(\d+)$".to_string(),
        min_frames: 2,
        layout: AnimationLayout::HorizontalStrip,
        default_frame_duration_ms: 100,
        default_loop: true,
        ..Default::default()
    };

    let options = PackOptions {
        enabled: true,
        mode: PackMode::Animated(animated_options),
        output: OutputOptions::default(),
    };

    let packer = Packer::new(options);
    let result = packer.detect_animations(
        &assets,
        &match &packer.options.mode {
            PackMode::Animated(opts) => opts.clone(),
            _ => panic!("Expected Animated mode"),
        },
    );

    assert!(result.is_ok());
    let items = result.unwrap();
    assert_eq!(items.len(), 1); // Should be one animation

    match &items[0] {
        PackableItem::Animated(anim) => {
            assert_eq!(anim.frame_count, 3);
            assert_eq!(anim.frame_duration_ms, 100);
            assert!(anim.loops);
            assert_eq!(anim.strip_sprite.size.width, 6); // 3 frames * 2px width
            assert_eq!(anim.strip_sprite.size.height, 2);
        }
        _ => panic!("Expected animated item"),
    }
}

#[test]
fn test_animation_detection_min_frames() {
    let test_image_data = create_test_image_png(2, 2, [255, 0, 0, 255]);

    // Only one frame - should be treated as static
    let assets = vec![create_test_asset(
        "walk_001.png",
        test_image_data.clone(),
        "hash1",
    )];

    let animated_options = AnimatedOptions {
        frame_pattern: r"^(?P<name>.+?)_(\d+)$".to_string(),
        min_frames: 2,
        layout: AnimationLayout::HorizontalStrip,
        default_frame_duration_ms: 100,
        default_loop: true,
        ..Default::default()
    };

    let options = PackOptions {
        enabled: true,
        mode: PackMode::Animated(animated_options),
        output: OutputOptions::default(),
    };

    let packer = Packer::new(options);
    let result = packer.detect_animations(
        &assets,
        &match &packer.options.mode {
            PackMode::Animated(opts) => opts.clone(),
            _ => panic!("Expected Animated mode"),
        },
    );

    assert!(result.is_ok());
    let items = result.unwrap();
    assert_eq!(items.len(), 1);

    // Should be static, not animated
    match &items[0] {
        PackableItem::Static(sprite) => {
            assert_eq!(sprite.name, "walk_001");
        }
        _ => panic!("Expected static item when min_frames not met"),
    }
}

#[test]
fn test_animation_detection_vertical_strip() {
    let test_image_data = create_test_image_png(2, 2, [0, 255, 0, 255]);

    let assets = vec![
        create_test_asset("idle_01.png", test_image_data.clone(), "hash1"),
        create_test_asset("idle_02.png", test_image_data.clone(), "hash2"),
    ];

    let animated_options = AnimatedOptions {
        frame_pattern: r"^(?P<name>.+?)_(\d+)$".to_string(),
        min_frames: 2,
        layout: AnimationLayout::VerticalStrip,
        default_frame_duration_ms: 150,
        default_loop: false,
        ..Default::default()
    };

    let options = PackOptions {
        enabled: true,
        mode: PackMode::Animated(animated_options),
        output: OutputOptions::default(),
    };

    let packer = Packer::new(options);
    let result = packer.detect_animations(
        &assets,
        &match &packer.options.mode {
            PackMode::Animated(opts) => opts.clone(),
            _ => panic!("Expected Animated mode"),
        },
    );

    assert!(result.is_ok());
    let items = result.unwrap();
    assert_eq!(items.len(), 1);

    match &items[0] {
        PackableItem::Animated(anim) => {
            assert_eq!(anim.frame_count, 2);
            assert_eq!(anim.frame_duration_ms, 150);
            assert!(!anim.loops);
            assert_eq!(anim.strip_sprite.size.width, 2);
            assert_eq!(anim.strip_sprite.size.height, 4); // 2 frames * 2px height
        }
        _ => panic!("Expected animated item"),
    }
}

#[test]
fn test_animation_detection_grid_layout() {
    let test_image_data = create_test_image_png(2, 2, [0, 0, 255, 255]);

    // 6 frames in a 3x2 grid
    let assets = (1..=6)
        .map(|i| {
            create_test_asset(
                &format!("attack_{:02}.png", i),
                test_image_data.clone(),
                &format!("hash{}", i),
            )
        })
        .collect::<Vec<_>>();

    let animated_options = AnimatedOptions {
        frame_pattern: r"^(?P<name>.+?)_(\d+)$".to_string(),
        min_frames: 2,
        layout: AnimationLayout::Grid { columns: Some(3) },
        default_frame_duration_ms: 50,
        default_loop: true,
        ..Default::default()
    };

    let options = PackOptions {
        enabled: true,
        mode: PackMode::Animated(animated_options),
        output: OutputOptions::default(),
    };

    let packer = Packer::new(options);
    let result = packer.detect_animations(
        &assets,
        &match &packer.options.mode {
            PackMode::Animated(opts) => opts.clone(),
            _ => panic!("Expected Animated mode"),
        },
    );

    assert!(result.is_ok());
    let items = result.unwrap();
    assert_eq!(items.len(), 1);

    match &items[0] {
        PackableItem::Animated(anim) => {
            assert_eq!(anim.frame_count, 6);
            assert_eq!(anim.strip_sprite.size.width, 6); // 3 columns * 2px
            assert_eq!(anim.strip_sprite.size.height, 4); // 2 rows * 2px
        }
        _ => panic!("Expected animated item"),
    }
}

#[test]
fn test_mixed_static_and_animated() {
    let test_image_data = create_test_image_png(2, 2, [128, 128, 128, 255]);

    let assets = vec![
        // Animation frames
        create_test_asset("walk_01.png", test_image_data.clone(), "hash1"),
        create_test_asset("walk_02.png", test_image_data.clone(), "hash2"),
        // Static sprite (doesn't match pattern)
        create_test_asset("logo.png", test_image_data.clone(), "hash3"),
    ];

    let animated_options = AnimatedOptions {
        frame_pattern: r"^(?P<name>.+?)_(\d+)$".to_string(),
        min_frames: 2,
        layout: AnimationLayout::HorizontalStrip,
        default_frame_duration_ms: 100,
        default_loop: true,
        ..Default::default()
    };

    let options = PackOptions {
        enabled: true,
        mode: PackMode::Animated(animated_options),
        output: OutputOptions::default(),
    };

    let packer = Packer::new(options);
    let result = packer.detect_animations(
        &assets,
        &match &packer.options.mode {
            PackMode::Animated(opts) => opts.clone(),
            _ => panic!("Expected Animated mode"),
        },
    );

    assert!(result.is_ok());
    let items = result.unwrap();
    assert_eq!(items.len(), 2); // 1 animation + 1 static

    let mut has_animated = false;
    let mut has_static = false;

    for item in items {
        match item {
            PackableItem::Animated(_) => {
                has_animated = true;
            }
            PackableItem::Static(sprite) => {
                assert_eq!(sprite.name, "logo");
                has_static = true;
            }
        }
    }

    assert!(has_animated && has_static);
}

#[test]
fn test_static_mode_ignores_animations() {
    let test_image_data = create_test_image_png(2, 2, [255, 255, 0, 255]);

    let assets = vec![
        create_test_asset("walk_01.png", test_image_data.clone(), "hash1"),
        create_test_asset("walk_02.png", test_image_data.clone(), "hash2"),
    ];

    let options = PackOptions {
        enabled: true,
        mode: PackMode::Static(StaticOptions::default()),
        output: OutputOptions::default(),
    };

    let packer = Packer::new(options);
    let result = packer.assets_to_sprites(&assets);

    assert!(result.is_ok());
    let items = result.unwrap();
    assert_eq!(items.len(), 2); // Both should be static sprites

    for item in items {
        match item {
            PackableItem::Static(_) => {}
            PackableItem::Animated(_) => panic!("Should not have animations in static mode"),
        }
    }
}
