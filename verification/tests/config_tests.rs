use asphalt::config::{
    AnimatedOptions, AssetNamingConvention, Codegen, CodegenStyle, Config, Creator, CreatorType,
    Input, InputNamingConvention, PackAlgorithm, PackMode, PackOptions, PackSort, StaticOptions,
};
use asphalt::migrate_config::OldPackOptions;
use asphalt::optimize::should_optimize;
use asphalt::upload::trim_display_name;

#[test]
fn test_old_to_new_conversion() {
    let old = OldPackOptions {
        enabled: true,
        max_size: (1024, 1024),
        power_of_two: false,
        padding: 4,
        extrude: 2,
        allow_trim: true,
        algorithm: PackAlgorithm::MaxRects,
        page_limit: Some(5),
        sort: PackSort::MaxSide,
        dedupe: true,
    };

    let new = old.to_new_format();

    assert!(new.enabled);
    assert_eq!(new.output.name, None);
    assert!(!new.output.overwrite);

    match new.mode {
        PackMode::Static(opts) => {
            assert_eq!(opts.max_size, (1024, 1024));
            assert!(!opts.power_of_two);
            assert_eq!(opts.padding, 4);
            assert_eq!(opts.extrude, 2);
            assert!(opts.allow_trim);
            assert_eq!(opts.page_limit, Some(5));
            assert!(opts.dedupe);
        }
        _ => panic!("Expected Static mode"),
    }
}

#[test]
fn test_default_conversion() {
    let old = OldPackOptions::default();
    let new = old.to_new_format();

    assert!(!new.enabled);
    match new.mode {
        PackMode::Static(opts) => {
            assert_eq!(opts.max_size, (2048, 2048));
            assert!(opts.power_of_two);
            assert_eq!(opts.padding, 2);
            assert_eq!(opts.extrude, 1);
            assert!(!opts.allow_trim);
            assert_eq!(opts.page_limit, None);
            assert!(!opts.dedupe);
        }
        _ => panic!("Expected Static mode"),
    }
}

fn test_codegen() -> Codegen {
    Codegen {
        style: CodegenStyle::Flat,
        typescript: true,
        strip_extensions: false,
        content: false,
        input_naming_convention: InputNamingConvention::CamelCase,
        asset_naming_convention: AssetNamingConvention::Preserve,
    }
}

fn test_config_with_pack(pack: Option<PackOptions>) -> Config {
    Config {
        creator: Creator {
            ty: CreatorType::User,
            id: 123,
        },
        codegen: test_codegen(),
        inputs: vec![(
            "assets".to_string(),
            Input {
                path: "assets/**/*".to_string(),
                output_path: "src/shared".to_string(),
                pack,
                bleed: true,
                web: Vec::new(),
                warn_each_duplicate: true,
            },
        )],
    }
}

#[test]
fn test_config_validate_invalid_frame_pattern() {
    let config = test_config_with_pack(Some(PackOptions {
        enabled: true,
        output: Default::default(),
        mode: PackMode::Animated(AnimatedOptions {
            frame_pattern: "[unclosed".to_string(),
            ..Default::default()
        }),
    }));

    let err_msg = config.validate().unwrap_err();

    assert!(err_msg.contains("inputs.assets.pack.mode.animated.frame_pattern"));
    assert!(err_msg.contains("'[unclosed'"));
    assert!(err_msg.contains("regex error"));
    assert!(err_msg.contains("unclosed character class"));
    assert!(err_msg.contains("Fix the pattern or disable animated packing for 'assets'"));
}

#[test]
fn test_config_validate_valid_default_pattern() {
    let config = test_config_with_pack(Some(PackOptions {
        enabled: true,
        output: Default::default(),
        mode: PackMode::Animated(AnimatedOptions::default()),
    }));

    assert!(config.validate().is_ok());
}

#[test]
fn test_config_validate_no_animated_inputs() {
    let config = test_config_with_pack(None);

    assert!(config.validate().is_ok());
}

#[test]
fn test_pack_options_accessors_static() {
    let opts = PackOptions {
        enabled: true,
        output: Default::default(),
        mode: PackMode::Static(StaticOptions {
            max_size: (512, 256),
            power_of_two: false,
            padding: 7,
            extrude: 3,
            allow_trim: true,
            algorithm: PackAlgorithm::Guillotine,
            page_limit: Some(9),
            sort: PackSort::Name,
            dedupe: true,
        }),
    };
    assert_eq!(opts.padding(), 7);
    assert_eq!(opts.extrude(), 3);
    assert_eq!(opts.max_size(), (512, 256));
    assert!(!opts.power_of_two());
    assert_eq!(opts.page_limit(), Some(9));
    assert!(matches!(opts.sort(), PackSort::Name));
    assert!(matches!(opts.algorithm(), PackAlgorithm::Guillotine));
    assert!(opts.dedupe());
    assert!(opts.allow_trim());
}

#[test]
fn test_pack_options_accessors_animated() {
    let opts = PackOptions {
        enabled: true,
        output: Default::default(),
        mode: PackMode::Animated(AnimatedOptions {
            padding: 5,
            extrude: 4,
            ..Default::default()
        }),
    };
    assert_eq!(opts.padding(), 5);
    assert_eq!(opts.extrude(), 4);
    assert_eq!(opts.max_size(), (2048, 2048));
    assert!(!opts.power_of_two());
    assert_eq!(opts.page_limit(), None);
    assert!(matches!(opts.sort(), PackSort::Area));
    assert!(!opts.dedupe());
    assert!(!opts.allow_trim());
}

#[test]
fn test_animated_defaults() {
    let opts = AnimatedOptions::default();
    assert_eq!(opts.frame_pattern, r"(?P<name>.+)_(\d+)");
    assert_eq!(opts.min_frames, 2);
    assert!(matches!(opts.layout, asphalt::config::AnimationLayout::HorizontalStrip));
    assert_eq!(opts.default_frame_duration_ms, 100);
    assert!(opts.default_loop);
    assert_eq!(opts.padding, 2);
    assert_eq!(opts.extrude, 1);
}

#[test]
fn test_should_optimize_cases() {
    assert!(should_optimize("sprites/icon.png", true));
    assert!(should_optimize("sprites/icon.PNG", true));
    assert!(!should_optimize("sprites/icon.png", false));
    assert!(!should_optimize("sprites/icon.jpg", true));
    assert!(!should_optimize("sprites/png", true));
    assert!(!should_optimize("archive.png.bak", true));
}

#[test]
fn test_trim_display_name_short_and_long() {
    assert_eq!(trim_display_name("short.png"), "short.png");
    let long: String = "x".repeat(60) + "/tail.png";
    let trimmed = trim_display_name(&long);
    assert_eq!(trimmed.chars().count(), 50);
    assert!(trimmed.ends_with("/tail.png"));
}
