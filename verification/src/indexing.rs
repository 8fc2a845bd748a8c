//! The bookkeeping of an indexing run and the decisions taken for each file:
//! how it is tagged, whether its content is previewed, which tags are stored.
use vstd::prelude::*;

use crate::store::TagSource;
use crate::string_views;
use crate::text::{lowercase, str_eq, string_of, to_lowercase};

verus! {

/// The progress of an indexing run, as the user interface shows it.
#[derive(Clone)]
pub struct IndexStatus {
    pub total: usize,
    pub indexed: usize,
    pub current_file: String,
    pub is_running: bool,
}

impl Default for IndexStatus {
    fn default() -> (s: Self)
        ensures
            s.total == 0,
            s.indexed == 0,
            s.current_file@ == Seq::<char>::empty(),
            !s.is_running,
    {
        IndexStatus { total: 0, indexed: 0, current_file: String::new(), is_running: false }
    }
}

/// The decimal digit for `d`.
pub open spec fn digit_char(d: nat) -> char {
    (48 + d) as char
}

/// The decimal spelling of `n`, as `usize`'s `Display` writes it.
pub open spec fn decimal(n: nat) -> Seq<char>
    decreases n,
{
    if n < 10 {
        seq![digit_char(n)]
    } else {
        decimal(n / 10).push(digit_char(n % 10))
    }
}

/// The decimal spelling of `n`.
pub fn decimal_of(n: usize) -> (r: Vec<char>)
    ensures
        r@ == decimal(n as nat),
    decreases n,
{
    let d: u8 = (n % 10) as u8;
    let c = (48u8 + d) as char;
    assert(c == digit_char((n % 10) as nat));
    if n < 10 {
        let mut v: Vec<char> = Vec::new();
        v.push(c);
        assert(v@ =~= decimal(n as nat));
        v
    } else {
        let mut v = decimal_of(n / 10);
        v.push(c);
        v
    }
}

/// The status text while files are being counted: `Found <total> files…`.
pub open spec fn found_text(total: nat) -> Seq<char> {
    seq!['F', 'o', 'u', 'n', 'd', ' '] + decimal(total) + seq![
        ' ',
        'f',
        'i',
        'l',
        'e',
        's',
        '\u{2026}',
    ]
}

/// The status text once a run is over: `Indexing complete`.
pub open spec fn complete_text() -> Seq<char> {
    seq![
        'I',
        'n',
        'd',
        'e',
        'x',
        'i',
        'n',
        'g',
        ' ',
        'c',
        'o',
        'm',
        'p',
        'l',
        'e',
        't',
        'e',
    ]
}

impl IndexStatus {
    /// The count of indexed files never passes the total.
    pub open spec fn wf(&self) -> bool {
        self.indexed <= self.total
    }

    /// A run over `total` files starts: nothing indexed yet.
    pub fn begin(&mut self, total: usize)
        ensures
            final(self).total == total,
            final(self).indexed == 0,
            final(self).is_running,
            final(self).current_file@ == found_text(total as nat),
            final(self).wf(),
    {
        let mut cs: Vec<char> = vec!['F', 'o', 'u', 'n', 'd', ' '];
        let mut digits = decimal_of(total);
        cs.append(&mut digits);
        let mut tail: Vec<char> = vec![' ', 'f', 'i', 'l', 'e', 's', '\u{2026}'];
        cs.append(&mut tail);
        assert(cs@ =~= found_text(total as nat));
        self.total = total;
        self.indexed = 0;
        self.is_running = true;
        self.current_file = string_of(&cs);
    }

    /// The file at position `position` of the run is being indexed; its name
    /// (empty where the path has none) is shown.
    pub fn progress(&mut self, position: usize, file_name: Option<String>)
        ensures
            final(self).total == old(self).total,
            final(self).indexed == position,
            final(self).is_running == old(self).is_running,
            final(self).current_file@ == (match file_name {
                Some(n) => n@,
                None => Seq::<char>::empty(),
            }),
            position <= old(self).total ==> final(self).wf(),
    {
        self.indexed = position;
        self.current_file = match file_name {
            Some(n) => n,
            None => String::new(),
        };
    }

    /// The run is over: every file counts as indexed.
    pub fn finish(&mut self)
        ensures
            final(self).total == old(self).total,
            final(self).indexed == old(self).total,
            !final(self).is_running,
            final(self).current_file@ == complete_text(),
            final(self).wf(),
    {
        let cs: Vec<char> = vec![
            'I',
            'n',
            'd',
            'e',
            'x',
            'i',
            'n',
            'g',
            ' ',
            'c',
            'o',
            'm',
            'p',
            'l',
            'e',
            't',
            'e',
        ];
        assert(cs@ =~= complete_text());
        self.indexed = self.total;
        self.is_running = false;
        self.current_file = string_of(&cs);
    }
}

/// The extensions (lowercased) of the files that are tagged as images.
pub const IMAGE_EXTS: [&'static str; 6] = ["jpg", "jpeg", "png", "gif", "webp", "bmp"];

/// The extensions (lowercased) of the files whose first bytes are shown to the model.
pub const TEXT_EXTS: [&'static str; 28] = [
    "txt",
    "md",
    "rs",
    "js",
    "ts",
    "py",
    "html",
    "css",
    "json",
    "toml",
    "yaml",
    "yml",
    "xml",
    "csv",
    "log",
    "sh",
    "bat",
    "cfg",
    "ini",
    "conf",
    "c",
    "cpp",
    "h",
    "java",
    "rb",
    "go",
    "kt",
    "swift",
];

/// The number of bytes of a file read for its preview.
pub const PREVIEW_READ_BYTES: usize = 2000;

/// The image extensions as character sequences.
pub open spec fn image_exts() -> Seq<Seq<char>> {
    IMAGE_EXTS@.map_values(|e: &str| e@)
}

/// The previewed extensions as character sequences.
pub open spec fn text_exts() -> Seq<Seq<char>> {
    TEXT_EXTS@.map_values(|e: &str| e@)
}

/// Whether `ext` is one of the listed extensions.
fn listed(ext: &str, list: &[&'static str]) -> (r: bool)
    ensures
        r == list@.map_values(|e: &str| e@).contains(ext@),
{
    let n = list.len();
    let mut i: usize = 0;
    while i < n
        invariant
            n == list@.len(),
            i <= n,
            forall|j: int| 0 <= j < i ==> list@[j]@ != ext@,
        decreases n - i,
    {
        if str_eq(list[i], ext) {
            assert(list@.map_values(|e: &str| e@)[i as int] == ext@);
            return true;
        }
        i = i + 1;
    }
    let ghost ms = list@.map_values(|e: &str| e@);
    assert(!ms.contains(ext@)) by {
        if ms.contains(ext@) {
            let j = choose|j: int| 0 <= j < n && #[trigger] ms[j] == ext@;
            assert(list@[j]@ == ext@);
        }
    }
    false
}

/// Whether a file with this (lowercased) extension is tagged as an image.
pub fn is_image_ext(ext: &str) -> (r: bool)
    ensures
        r == image_exts().contains(ext@),
{
    listed(ext, &IMAGE_EXTS)
}

/// Whether a file with this (lowercased) extension gets a content preview.
pub fn is_text_ext(ext: &str) -> (r: bool)
    ensures
        r == text_exts().contains(ext@),
{
    listed(ext, &TEXT_EXTS)
}

/// How a file is tagged by the language model.
pub enum TaggingKind {
    /// The image is sent to the vision model.
    Image,
    /// The name, extension and a preview of the content go to the text model.
    Text,
}

/// What is done with one file found during indexing.
pub struct IndexPlan {
    /// The file name, as stored.
    pub name: String,
    /// The lowercased extension, if the file has one.
    pub ext: Option<String>,
    /// Which model tags the file.
    pub kind: TaggingKind,
}

/// The lowercased form of an optional extension.
pub open spec fn lowered_ext(extension: Option<Seq<char>>) -> Option<Seq<char>> {
    match extension {
        Some(e) => Some(lowercase(e)),
        None => None,
    }
}

/// The characters of an optional string.
pub open spec fn opt_string(o: Option<String>) -> Option<Seq<char>> {
    match o {
        Some(s) => Some(s@),
        None => None,
    }
}

/// The plan for a file with the given name and extension (both `None` where the
/// path has none, or where it is not valid Unicode). A file without a name is
/// skipped; a file whose lowercased extension is an image extension is tagged as
/// an image, any other as text.
pub fn plan_index(file_name: Option<String>, extension: Option<String>) -> (r: Option<IndexPlan>)
    ensures
        r is None <==> file_name is None,
        r matches Some(plan) ==> {
            &&& plan.name@ == file_name->0@
            &&& opt_string(plan.ext) == lowered_ext(opt_string(extension))
            &&& (plan.kind is Image <==> image_exts().contains(
                match lowered_ext(opt_string(extension)) {
                    Some(e) => e,
                    None => Seq::<char>::empty(),
                },
            ))
        },
{
    let name = match file_name {
        Some(n) => n,
        None => {
            return None;
        },
    };
    let ext: Option<String> = match &extension {
        Some(e) => Some(to_lowercase(e.as_str())),
        None => None,
    };
    let image = match &ext {
        Some(e) => is_image_ext(e.as_str()),
        None => is_image_ext(""),
    };
    proof {
        if ext is None {
            let empty: &str = "";
            assert(empty@.len() == 0) by {
                reveal_strlit("");
            }
            assert(empty@ =~= Seq::<char>::empty());
        }
    }
    let kind = if image {
        TaggingKind::Image
    } else {
        TaggingKind::Text
    };
    Some(IndexPlan { name, ext, kind })
}

/// Whether a file with this extension (`None` where it has none or it is not
/// valid Unicode) gets a content preview: its lowercased extension is listed.
pub fn previewable(extension: Option<&str>) -> (r: bool)
    ensures
        r == (extension matches Some(e) && text_exts().contains(lowercase(e@))),
{
    match extension {
        Some(e) => {
            let lowered = to_lowercase(e);
            is_text_ext(lowered.as_str())
        },
        None => false,
    }
}

/// Calls `String::from_utf8`. Claimed, as its documentation says: it succeeds
/// exactly on valid UTF-8, and then holds the characters the bytes encode.
#[verifier::external_body]
fn string_from_utf8(bytes: Vec<u8>) -> (r: Option<String>)
    ensures
        r is Some <==> vstd::utf8::valid_utf8(bytes@),
        r matches Some(s) ==> s@ == vstd::utf8::decode_utf8(bytes@),
{
    String::from_utf8(bytes).ok()
}

/// The preview made of the first bytes read from a file: their text where they
/// are valid UTF-8 (a read that cuts a character in two gives none).
pub fn preview_text(bytes: Vec<u8>) -> (r: Option<String>)
    ensures
        r is Some <==> vstd::utf8::valid_utf8(bytes@),
        r matches Some(s) ==> s@ == vstd::utf8::decode_utf8(bytes@),
{
    string_from_utf8(bytes)
}

/// A batch of tags stored for a file, replacing its earlier tags from the same source.
pub struct TagBatch {
    pub tags: Vec<String>,
    pub source: TagSource,
}

/// The tag batches stored for a file once it is in the index: its extension
/// as an automatic tag where it has one, then the model's tags where the model
/// answered with any.
pub fn tag_batches(ext: Option<String>, ai_tags: Option<Vec<String>>) -> (r: Vec<TagBatch>)
    ensures
        ({
            let has_auto = ext is Some;
            let has_ai = ai_tags matches Some(t) && t@.len() > 0;
            &&& r@.len() == (if has_auto { 1int } else { 0int }) + (if has_ai { 1int } else { 0int })
            &&& has_auto ==> r@[0].source is Auto && string_views(r@[0].tags@) == seq![ext->0@]
            &&& has_ai ==> r@[r@.len() - 1].source is Ai && r@[r@.len() - 1].tags@ == ai_tags->0@
        }),
{
    let mut out: Vec<TagBatch> = Vec::new();
    match ext {
        Some(e) => {
            let mut tags: Vec<String> = Vec::new();
            tags.push(e);
            assert(string_views(tags@) =~= seq![tags@[0]@]);
            out.push(TagBatch { tags, source: TagSource::Auto });
        },
        None => {},
    }
    match ai_tags {
        Some(t) => {
            if t.len() > 0 {
                out.push(TagBatch { tags: t, source: TagSource::Ai });
            }
        },
        None => {},
    }
    out
}

} // verus!
