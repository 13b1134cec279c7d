use cliprust::config::{
    config_for_data_dir, default_config, expand_tilde, expand_tilde_with, CliOverrides, Config,
    ThumbMode,
};
use cliprust::text::{join_path, size_to_string, text_with_limit};

#[test]
fn sizes_in_bytes() {
    assert_eq!(size_to_string(0), "0 B");
    assert_eq!(size_to_string(1), "1 B");
    assert_eq!(size_to_string(1023), "1023 B");
}

#[test]
fn sizes_in_larger_units() {
    assert_eq!(size_to_string(1024), "1.0 KiB");
    assert_eq!(size_to_string(1536), "1.5 KiB");
    assert_eq!(size_to_string(1280), "1.2 KiB");
    assert_eq!(size_to_string(1048575), "1024.0 KiB");
    assert_eq!(size_to_string(1048576), "1.0 MiB");
    assert_eq!(size_to_string(5 * 1048576 + 524288), "5.5 MiB");
    assert_eq!(size_to_string(1073741824), "1.0 GiB");
    assert_eq!(size_to_string(3 * 1073741824), "3.0 GiB");
}

#[test]
fn sizes_agree_with_float_formatting() {
    let mut size: usize = 1024;
    while size < 8 * 1073741824 {
        let expected = if size < 1048576 {
            format!("{:.1} KiB", size as f64 / 1024.0)
        } else if size < 1073741824 {
            format!("{:.1} MiB", size as f64 / 1024.0 / 1024.0)
        } else {
            format!("{:.1} GiB", size as f64 / 1024.0 / 1024.0 / 1024.0)
        };
        assert_eq!(size_to_string(size), expected, "size {}", size);
        size = size + size / 7 + 13;
    }
    for size in 1024..4096usize {
        assert_eq!(size_to_string(size), format!("{:.1} KiB", size as f64 / 1024.0));
    }
}

#[test]
fn limit_cuts_with_ellipsis() {
    assert_eq!(text_with_limit("hello", 3), "hel...");
    assert_eq!(text_with_limit("abc", 3), "abc");
    assert_eq!(text_with_limit("hi", 3), "hi");
    assert_eq!(text_with_limit("ééé", 2), "éé...");
    assert_eq!(text_with_limit("x", 0), "...");
}

#[test]
fn paths_join_like_unix() {
    assert_eq!(join_path("/a/b", "c"), "/a/b/c");
    assert_eq!(join_path("/a/b/", "c"), "/a/b/c");
    assert_eq!(join_path("", "c"), "c");
    assert_eq!(join_path("/a", "/etc"), "/etc");
    assert_eq!(join_path("/a", ""), "/a/");
}

#[test]
fn tilde_expansion() {
    assert_eq!(expand_tilde_with("~", "/home/u"), "/home/u");
    assert_eq!(expand_tilde_with("~/clips", "/home/u"), "/home/u/clips");
    assert_eq!(expand_tilde_with("/var/~/x", "/home/u"), "/var/~/x");
    assert_eq!(expand_tilde_with("~user", "/home/u"), "~user");
    assert_eq!(expand_tilde("/abs/path"), Some("/abs/path".to_string()));
}

#[test]
fn defaults_under_data_dir() {
    let c = config_for_data_dir("/home/u/.local/share");
    assert_eq!(c.db_dir_path, "/home/u/.local/share/cliprust");
    assert_eq!(c.max_dedupe_depth, 100);
    assert_eq!(c.max_items, 750);
    assert_eq!(c.preview_width, 100);
    assert_eq!(c.generate_thumb, ThumbMode::Plain);
    if let Some(d) = default_config() {
        assert_eq!(d.max_items, 750);
        assert!(d.db_dir_path.ends_with("cliprust"));
    }
}

#[test]
fn overrides_replace_given_settings() {
    let mut c = Config {
        db_dir_path: "/a".to_string(),
        max_dedupe_depth: 1,
        max_items: 2,
        preview_width: 3,
        generate_thumb: ThumbMode::Plain,
    };
    c.cli_override(&CliOverrides {
        db_path: Some("/b".to_string()),
        max_dedupe_depth: None,
        max_items: Some(9),
        max_preview_width: None,
        generate_thumb: Some(ThumbMode::Rofi),
    });
    assert_eq!(c.db_dir_path, "/b");
    assert_eq!(c.max_dedupe_depth, 1);
    assert_eq!(c.max_items, 9);
    assert_eq!(c.preview_width, 3);
    assert_eq!(c.generate_thumb, ThumbMode::Rofi);
}
