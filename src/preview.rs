//! Previews: a short summary of an item's content, computed once when it is
//! stored, and its rendering as one line for a menu.

use vstd::prelude::*;
use crate::config::{Config, ThumbMode};
use crate::text::{
    decimal, join_path, joined, limited, mark_line_breaks, push_char, push_decimal, push_str,
    size_text, size_to_string, summary_text, take_at_most, text_with_limit, trimmed,
};

verus! {

/// What content sniffing recognised: a mime type, a file extension and
/// whether the content is an image.
pub struct Kind {
    pub mime: String,
    pub extension: String,
    pub image: bool,
}

/// What `infer::get` recognises in a byte sequence, as mime type, extension
/// and whether it is an image.
pub uninterp spec fn sniffed(b: Seq<u8>) -> Option<(Seq<char>, Seq<char>, bool)>;

/// Relies on `infer::get` and the `Type` it returns: the first known
/// signature that the bytes carry, with its mime type, extension and class.
#[verifier::external_body]
pub(crate) fn sniff(bytes: &[u8]) -> (r: Option<Kind>)
    ensures
        match r {
            Some(k) => sniffed(bytes@) == Some((k.mime@, k.extension@, k.image)),
            None => sniffed(bytes@) is None,
        },
{
    match infer::get(bytes) {
        Some(t) => Some(
            Kind {
                mime: t.mime_type().to_string(),
                extension: t.extension().to_string(),
                image: matches!(t.matcher_type(), infer::MatcherType::Image),
            },
        ),
        None => None,
    }
}

/// The characters of `b` decoded as UTF-8, each invalid sequence replaced by
/// U+FFFD, as `String::from_utf8_lossy` decodes them.
pub uninterp spec fn lossy_of(b: Seq<u8>) -> Seq<char>;

/// Relies on `String::from_utf8_lossy`: UTF-8 decoding with replacement of
/// invalid sequences.
#[verifier::external_body]
pub(crate) fn decode_lossy(bytes: &[u8]) -> (r: String)
    ensures
        r@ == lossy_of(bytes@),
{
    String::from_utf8_lossy(bytes).into_owned()
}

/// How many leading characters of text content a summary looks at.
pub const TEXT_PREVIEW_CHARS: usize = 500;

/// The summary of recognised binary content: its mime type and size.
pub open spec fn binary_text(mime: Seq<char>, size: nat) -> Seq<char> {
    mime + seq![' '] + size_text(size)
}

/// The summary of unrecognised content from its decoded characters.
pub open spec fn plain_text(decoded: Seq<char>) -> Seq<char> {
    mark_line_breaks(trimmed(take_at_most(decoded, TEXT_PREVIEW_CHARS as nat)))
}

/// The summary of content `b`.
pub open spec fn bytes_text(b: Seq<u8>) -> Seq<char> {
    match sniffed(b) {
        Some(k) => binary_text(k.0, b.len()),
        None => plain_text(lossy_of(b)),
    }
}

/// The summary of recognised binary content: "<mime> <size>".
pub fn binary_summary(mime: &str, size: usize) -> (r: String)
    ensures
        r@ == binary_text(mime@, size as nat),
{
    let mut r = String::from_str(mime);
    push_char(&mut r, ' ');
    let s = size_to_string(size);
    push_str(&mut r, s.as_str());
    r
}

/// The summary of unrecognised content, given its decoded characters: the
/// leading characters, trimmed, with line breaks made visible.
pub fn plain_summary(decoded: &str) -> (r: String)
    ensures
        r@ == plain_text(decoded@),
{
    summary_text(decoded, TEXT_PREVIEW_CHARS)
}

/// The summary of `bytes`.
pub fn bytes_to_preview(bytes: &[u8]) -> (r: String)
    ensures
        r@ == bytes_text(bytes@),
{
    match sniff(bytes) {
        Some(k) => binary_summary(k.mime.as_str(), bytes.len()),
        None => {
            let d = decode_lossy(bytes);
            plain_summary(d.as_str())
        },
    }
}

/// A stored item's preview: a summary, and for an image the name of its
/// thumbnail file.
#[derive(Debug, PartialEq, Eq)]
pub enum Preview {
    Text(String),
    Thumb(String, String),
}

/// The thumbnail file name of item `id` with extension `ext`.
pub open spec fn thumb_name(id: nat, ext: Seq<char>) -> Seq<char> {
    decimal(id) + seq!['.'] + ext
}

/// Whether `p` is the preview of an item `id` whose content was sniffed as
/// `kind` and summarised as `summary`.
pub open spec fn is_preview_with(
    p: Preview,
    summary: Seq<char>,
    kind: Option<(Seq<char>, Seq<char>, bool)>,
    id: nat,
) -> bool {
    match kind {
        Some(k) if k.2 => p matches Preview::Thumb(s, f) && s@ == summary && f@ == thumb_name(
            id,
            k.1,
        ),
        _ => p matches Preview::Text(s) && s@ == summary,
    }
}

/// Whether `p` is the preview of item `id` with content `b`.
pub open spec fn is_preview_of(p: Preview, b: Seq<u8>, id: nat) -> bool {
    is_preview_with(p, bytes_text(b), sniffed(b), id)
}

/// The file under `db_dir` that holds thumbnail `file`.
pub open spec fn thumb_path(db_dir: Seq<char>, file: Seq<char>) -> Seq<char> {
    joined(joined(db_dir, "thumbs"@), file)
}

/// The rendered line of item `id` with preview `p`.
pub open spec fn preview_line(p: Preview, id: nat, config: Config) -> Seq<char> {
    let w = config.preview_width as nat;
    let body = match p {
        Preview::Text(s) => limited(s@, w),
        Preview::Thumb(s, f) => match config.generate_thumb {
            ThumbMode::Wofi => ":img:"@ + thumb_path(config.db_dir_path@, f@) + ":text:"@
                + limited(s@, w),
            ThumbMode::Rofi => limited(s@, w) + "\0icon\x1fthumbnail://"@ + thumb_path(
                config.db_dir_path@,
                f@,
            ),
            ThumbMode::Plain => limited(s@, w),
        },
    };
    decimal(id) + seq!['\t'] + body
}

impl Preview {
    /// The preview of item `index` from its summary and what sniffing found.
    pub fn with_kind(summary: String, kind: &Option<Kind>, index: usize) -> (r: Preview)
        ensures
            is_preview_with(
                r,
                summary@,
                match kind {
                    Some(k) => Some((k.mime@, k.extension@, k.image)),
                    None => None,
                },
                index as nat,
            ),
    {
        match kind {
            Some(k) => {
                if k.image {
                    let mut file = String::new();
                    push_decimal(&mut file, index);
                    push_char(&mut file, '.');
                    push_str(&mut file, k.extension.as_str());
                    assert(file@ =~= thumb_name(index as nat, k.extension@));
                    Preview::Thumb(summary, file)
                } else {
                    Preview::Text(summary)
                }
            },
            None => Preview::Text(summary),
        }
    }

    /// The preview of item `index` with content `bytes`. For an image the
    /// caller renders the thumbnail into the named file.
    pub fn from_bytes(bytes: &[u8], index: usize) -> (r: Preview)
        ensures
            is_preview_of(r, bytes@, index as nat),
    {
        let summary = bytes_to_preview(bytes);
        let kind = sniff(bytes);
        Preview::with_kind(summary, &kind, index)
    }

    /// Renders item `index` as one line for a menu: its id, a tab, and the
    /// summary capped at the configured width, with the thumbnail path woven
    /// in as the thumbnail mode asks.
    pub fn to_preview(&self, index: usize, config: &Config) -> (r: String)
        ensures
            r@ == preview_line(*self, index as nat, *config),
    {
        let mut r = String::new();
        push_decimal(&mut r, index);
        push_char(&mut r, '\t');
        let ghost head = r@;
        match self {
            Preview::Text(s) => {
                let t = text_with_limit(s.as_str(), config.preview_width);
                push_str(&mut r, t.as_str());
            },
            Preview::Thumb(s, file) => {
                let t = text_with_limit(s.as_str(), config.preview_width);
                match config.generate_thumb {
                    ThumbMode::Wofi => {
                        let dir = join_path(config.db_dir_path.as_str(), "thumbs");
                        let path = join_path(dir.as_str(), file.as_str());
                        push_str(&mut r, ":img:");
                        push_str(&mut r, path.as_str());
                        push_str(&mut r, ":text:");
                        push_str(&mut r, t.as_str());
                    },
                    ThumbMode::Rofi => {
                        let dir = join_path(config.db_dir_path.as_str(), "thumbs");
                        let path = join_path(dir.as_str(), file.as_str());
                        push_str(&mut r, t.as_str());
                        push_str(&mut r, "\0icon\x1fthumbnail://");
                        push_str(&mut r, path.as_str());
                    },
                    ThumbMode::Plain => {
                        push_str(&mut r, t.as_str());
                    },
                }
            },
        }
        assert(r@ =~= preview_line(*self, index as nat, *config));
        r
    }
}

/// A stored item: the blob file named by its id, and its preview.
#[derive(Debug, PartialEq, Eq)]
pub struct Entry {
    pub file: usize,
    pub preview: Preview,
}

impl Entry {
    /// The entry of item `index` with content `bytes`. The caller writes
    /// `bytes` to the blob file `index`.
    pub fn from_bytes(bytes: &[u8], index: usize) -> (r: Entry)
        ensures
            r.file == index,
            is_preview_of(r.preview, bytes@, index as nat),
    {
        Entry { file: index, preview: Preview::from_bytes(bytes, index) }
    }
}

} // verus!
