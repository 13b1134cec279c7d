use cliprust::config::{Config, ThumbMode};
use cliprust::preview::{binary_summary, bytes_to_preview, plain_summary, Kind, Preview};

const PNG_SIGNATURE: [u8; 8] = [0x89, 0x50, 0x4E, 0x47, 0x0D, 0x0A, 0x1A, 0x0A];

fn config(mode: ThumbMode, width: usize) -> Config {
    Config {
        db_dir_path: "/tmp/db".to_string(),
        max_dedupe_depth: 100,
        max_items: 750,
        preview_width: width,
        generate_thumb: mode,
    }
}

#[test]
fn png_signature_gets_thumbnail() {
    let p = Preview::from_bytes(&PNG_SIGNATURE, 5);
    assert_eq!(p, Preview::Thumb("image/png 8 B".to_string(), "5.png".to_string()));
    assert_eq!(p.to_preview(5, &config(ThumbMode::Plain, 100)), "5\timage/png 8 B");
    let wofi = p.to_preview(5, &config(ThumbMode::Wofi, 100));
    assert_eq!(wofi, "5\t:img:/tmp/db/thumbs/5.png:text:image/png 8 B");
    assert!(wofi.contains(":img:"));
    assert_eq!(
        p.to_preview(5, &config(ThumbMode::Rofi, 100)),
        "5\timage/png 8 B\0icon\x1fthumbnail:///tmp/db/thumbs/5.png"
    );
}

#[test]
fn text_renders_alike_in_every_mode() {
    let p = Preview::from_bytes(b"hello", 9);
    assert_eq!(p, Preview::Text("hello".to_string()));
    for mode in [ThumbMode::Plain, ThumbMode::Wofi, ThumbMode::Rofi] {
        assert_eq!(p.to_preview(9, &config(mode, 100)), "9\thello");
    }
}

#[test]
fn rendering_caps_width() {
    let p = Preview::Text("abcdef".to_string());
    assert_eq!(p.to_preview(12, &config(ThumbMode::Plain, 3)), "12\tabc...");
    assert_eq!(p.to_preview(12, &config(ThumbMode::Plain, 6)), "12\tabcdef");
    let t = Preview::Thumb("abcdef".to_string(), "1.png".to_string());
    assert_eq!(
        t.to_preview(1, &config(ThumbMode::Wofi, 2)),
        "1\t:img:/tmp/db/thumbs/1.png:text:ab..."
    );
}

#[test]
fn other_binary_is_text_with_mime_and_size() {
    let pdf = b"%PDF-1.4";
    assert_eq!(bytes_to_preview(pdf), "application/pdf 8 B");
    assert_eq!(Preview::from_bytes(pdf, 2), Preview::Text("application/pdf 8 B".to_string()));
}

#[test]
fn text_summary_trims_and_marks_line_breaks() {
    assert_eq!(bytes_to_preview(b"  hello\nworld \n"), "hello\u{21b5} world");
    assert_eq!(bytes_to_preview("\u{3000}x\u{a0}".as_bytes()), "x");
    assert_eq!(bytes_to_preview(b""), "");
    assert_eq!(bytes_to_preview(b" \t\n "), "");
    assert_eq!(bytes_to_preview(b"a\n\nb"), "a\u{21b5} \u{21b5} b");
}

#[test]
fn text_summary_decodes_lossily() {
    assert_eq!(bytes_to_preview(&[0x66, 0xff, 0x6f]), "f\u{fffd}o");
}

#[test]
fn text_summary_takes_first_500_chars() {
    let long = "é".repeat(600);
    assert_eq!(bytes_to_preview(long.as_bytes()), "é".repeat(500));
    let padded = format!("{}{}", " ".repeat(498), "abcd");
    assert_eq!(plain_summary(&padded), "ab");
}

#[test]
fn summaries_from_given_parts() {
    assert_eq!(binary_summary("image/gif", 2048), "image/gif 2.0 KiB");
    assert_eq!(plain_summary(" a\nb "), "a\u{21b5} b");
}

#[test]
fn preview_from_given_kind() {
    let image = Some(Kind { mime: "image/jpeg".to_string(), extension: "jpg".to_string(), image: true });
    assert_eq!(
        Preview::with_kind("s".to_string(), &image, 17),
        Preview::Thumb("s".to_string(), "17.jpg".to_string())
    );
    let font = Some(Kind { mime: "font/woff".to_string(), extension: "woff".to_string(), image: false });
    assert_eq!(Preview::with_kind("s".to_string(), &font, 17), Preview::Text("s".to_string()));
    assert_eq!(Preview::with_kind("s".to_string(), &None, 17), Preview::Text("s".to_string()));
}
