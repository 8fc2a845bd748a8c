//! The rules for asking a language model for tags and for reading its answer.
use vstd::prelude::*;
use vstd::string::{StringExecFns, StringSliceAdditionalSpecFns};

use crate::text::{
    all_space, chars_of, collapse_spaces, is_blank, join_with_spaces, lowercase, string_of,
    string_views, to_lowercase, utf8_len_below, views, words, words_of,
};

verus! {

/// The characters at which a model's answer is cut into candidate tags.
pub open spec fn is_tag_separator(c: char) -> bool {
    c == ',' || c == '\n'
}

/// The pieces between separators, as `str::split` with `[',', '\n']` yields them:
/// one more piece than there are separators, empty pieces included.
pub open spec fn split_pieces(s: Seq<char>) -> Seq<Seq<char>>
    decreases s.len(),
{
    if s.len() == 0 {
        seq![seq![]]
    } else {
        let prev = split_pieces(s.drop_last());
        if is_tag_separator(s.last()) {
            prev.push(seq![])
        } else {
            prev.update(prev.len() - 1, prev.last().push(s.last()))
        }
    }
}

/// The list punctuation that models wrap tags in.
pub open spec fn is_list_punct(c: char) -> bool {
    c == '\'' || c == '"' || c == '[' || c == ']'
}

/// A piece without quotes and brackets.
pub open spec fn strip_punct(s: Seq<char>) -> Seq<char> {
    s.filter(punct_free())
}

/// The test that keeps a character of a piece: it is not list punctuation.
pub open spec fn punct_free() -> spec_fn(char) -> bool {
    |c: char| !is_list_punct(c)
}

/// The tag that one piece of the answer becomes: punctuation dropped, blanks
/// collapsed to single spaces, then lowercased.
pub open spec fn tag_candidate(piece: Seq<char>) -> Seq<char> {
    lowercase(collapse_spaces(strip_punct(piece)))
}

/// Whether a candidate is kept: not empty, shorter than 50 bytes in UTF-8, and
/// at most three words.
pub open spec fn keep_tag(t: Seq<char>) -> bool {
    &&& t.len() > 0
    &&& vstd::utf8::encode_utf8(t).len() < 50
    &&& words(t).len() <= 3
}

/// The tags read from a model's answer, in the order they appear in it.
pub open spec fn parsed_tags(raw: Seq<char>) -> Seq<Seq<char>> {
    split_pieces(raw).map_values(|p: Seq<char>| tag_candidate(p)).filter(kept())
}

/// `keep_tag` as a predicate value.
pub open spec fn kept() -> spec_fn(Seq<char>) -> bool {
    |t: Seq<char>| keep_tag(t)
}


proof fn lemma_split_pieces_nonempty(s: Seq<char>)
    ensures
        split_pieces(s).len() >= 1,
    decreases s.len(),
{
    if s.len() > 0 {
        lemma_split_pieces_nonempty(s.drop_last());
    }
}

/// The pieces of `s` between separators.
pub fn split_pieces_of(s: &Vec<char>) -> (r: Vec<Vec<char>>)
    ensures
        views(r@) == split_pieces(s@),
{
    let mut out: Vec<Vec<char>> = Vec::new();
    out.push(Vec::new());
    assert(views(out@) =~= split_pieces(s@.take(0)));
    let n = s.len();
    let mut i: usize = 0;
    while i < n
        invariant
            n == s@.len(),
            i <= n,
            views(out@) == split_pieces(s@.take(i as int)),
        decreases n - i,
    {
        let c = s[i];
        let ghost next = s@.take(i + 1);
        assert(next.drop_last() =~= s@.take(i as int));
        assert(next.last() == c);
        proof {
            lemma_split_pieces_nonempty(s@.take(i as int));
        }
        if c == ',' || c == '\n' {
            out.push(Vec::new());
            assert(views(out@) =~= split_pieces(next));
        } else {
            let mut last = out.pop().unwrap();
            last.push(c);
            out.push(last);
            assert(views(out@) =~= split_pieces(next));
        }
        i = i + 1;
    }
    assert(s@.take(n as int) =~= s@);
    out
}

/// A piece without quotes and brackets.
pub fn strip_punct_of(s: &Vec<char>) -> (r: Vec<char>)
    ensures
        r@ == strip_punct(s@),
{
    let mut out: Vec<char> = Vec::new();
    let n = s.len();
    let mut i: usize = 0;
    reveal(Seq::filter);
    assert(s@.take(0).filter(punct_free()) =~= Seq::<char>::empty());
    while i < n
        invariant
            n == s@.len(),
            i <= n,
            out@ == s@.take(i as int).filter(punct_free()),
        decreases n - i,
    {
        let c = s[i];
        let ghost next = s@.take(i + 1);
        assert(next.drop_last() =~= s@.take(i as int));
        if !(c == '\'' || c == '"' || c == '[' || c == ']') {
            out.push(c);
        }
        reveal(Seq::filter);
        assert(next.filter(punct_free()) == if punct_free()(next.last()) {
            next.drop_last().filter(punct_free()).push(next.last())
        } else {
            next.drop_last().filter(punct_free())
        });
        i = i + 1;
    }
    assert(s@.take(n as int) =~= s@);
    out
}

/// Reads the tags out of a model's answer. Models may answer with commas,
/// newlines, quotes or list brackets; each piece between commas and newlines is
/// cleaned, and run-on phrases and overlong pieces are dropped.
pub fn parse_tags(raw: &str) -> (r: Vec<String>)
    ensures
        string_views(r@) == parsed_tags(raw@),
{
    let cs = chars_of(raw);
    let pieces = split_pieces_of(&cs);
    let ghost ps = split_pieces(raw@);
    let mut out: Vec<String> = Vec::new();
    let n = pieces.len();
    let mut i: usize = 0;
    reveal(Seq::filter);
    assert(ps.take(0).map_values(|p: Seq<char>| tag_candidate(p)).filter(kept()) =~= Seq::<Seq<char>>::empty());
    while i < n
        invariant
            n == pieces@.len(),
            views(pieces@) == ps,
            i <= n,
            string_views(out@) == ps.take(i as int).map_values(|p: Seq<char>| tag_candidate(p)).filter(kept()),
        decreases n - i,
    {
        let cleaned = strip_punct_of(&pieces[i]);
        let ws = words_of(&cleaned);
        let joined = join_with_spaces(&ws);
        let js = string_of(&joined);
        let lowered = to_lowercase(js.as_str());
        let lc = chars_of(lowered.as_str());
        let lw = words_of(&lc);
        let ghost cand = tag_candidate(ps[i as int]);
        assert(pieces@[i as int]@ == ps[i as int]);
        assert(lowered@ == cand);
        let ghost mapped = ps.take(i + 1).map_values(|p: Seq<char>| tag_candidate(p));
        assert(mapped.drop_last() =~= ps.take(i as int).map_values(|p: Seq<char>| tag_candidate(p)));
        assert(mapped.last() == cand);
        let keep = lc.len() > 0 && utf8_len_below(&lc, 50) && lw.len() <= 3;
        assert(keep == keep_tag(cand)) by {
            assert(views(lw@).len() == lw@.len());
        }
        reveal(Seq::filter);
        assert(mapped.filter(kept()) == if kept()(mapped.last()) {
            mapped.drop_last().filter(kept()).push(mapped.last())
        } else {
            mapped.drop_last().filter(kept())
        });
        if keep {
            out.push(lowered);
            assert(string_views(out@) =~= mapped.filter(kept()));
        } else {
            assert(string_views(out@) =~= mapped.filter(kept()));
        }
        i = i + 1;
    }
    assert(ps.take(n as int) =~= ps);
    out
}


/// The model that tags text files.
pub const TEXT_MODEL: &'static str = "llama3.2";

/// The model that tags images.
pub const VISION_MODEL: &'static str = "moondream";

/// The opening of a text-file prompt, up to the file name.
pub const TEXT_PROMPT_INTRO: &'static str = "You are a file tagging assistant. Given the filename and optional content preview, output ONLY a comma-separated list of 3-8 short, lowercase, one-or-two-word tags. No explanations, no numbering, no quotes, no brackets \u{2014} just the tags.\n\nFilename: ";

/// What stands between the file name and the extension in a text-file prompt.
pub const TEXT_PROMPT_EXT: &'static str = "\nExtension: ";

/// What precedes the content preview in a text-file prompt.
pub const PREVIEW_HEAD: &'static str = "\n\nFirst 2000 characters of file content:\n```\n";

/// What follows the content preview in a text-file prompt.
pub const PREVIEW_TAIL: &'static str = "\n```";

/// The opening of an image prompt, up to the file name.
pub const IMAGE_PROMPT_HEAD: &'static str = "You are a file tagging assistant. The image filename is '";

/// The rest of an image prompt, after the file name.
pub const IMAGE_PROMPT_TAIL: &'static str = "'. Output ONLY a comma-separated list of 3-6 short, lowercase, one-or-two-word tags. Describe what the main subject IS and its context (e.g. cat, pet, indoor, portrait). Focus on subjects and categories \u{2014} not body parts or low-level details. No quotes, no brackets, no explanations \u{2014} just the tags.";

/// The number of bytes of a preview that go into a prompt at most.
pub const PREVIEW_BYTES: usize = 2000;

/// The characters of an optional string slice.
pub open spec fn opt_chars(o: Option<&str>) -> Option<Seq<char>> {
    match o {
        Some(p) => Some(p@),
        None => None,
    }
}

/// Whether a preview goes into the prompt: it holds something besides blanks.
pub open spec fn preview_used(preview: Option<Seq<char>>) -> bool {
    preview matches Some(p) && !all_space(p)
}

/// The start of a preview that goes into a prompt: its first 2000 bytes, or all
/// of it where it is shorter.
pub open spec fn preview_cut(p: Seq<char>) -> Seq<char> {
    let bytes = vstd::utf8::encode_utf8(p);
    vstd::utf8::decode_utf8(
        bytes.take(if bytes.len() < PREVIEW_BYTES { bytes.len() as int } else { PREVIEW_BYTES as int }),
    )
}

/// Whether a used preview can be cut at 2000 bytes: it is no longer, or byte
/// 2000 starts a character. Cutting elsewhere would split a character.
pub open spec fn preview_cuttable(preview: Option<Seq<char>>) -> bool {
    preview_used(preview) ==> {
        let bytes = vstd::utf8::encode_utf8(preview->0);
        bytes.len() <= PREVIEW_BYTES || vstd::utf8::is_char_boundary(bytes, PREVIEW_BYTES as int)
    }
}

/// The part of a text-file prompt that shows the preview, empty where none is used.
pub open spec fn preview_hint(preview: Option<Seq<char>>) -> Seq<char> {
    if preview_used(preview) {
        PREVIEW_HEAD@ + preview_cut(preview->0) + PREVIEW_TAIL@
    } else {
        seq![]
    }
}

/// The prompt that asks for the tags of a text file.
pub open spec fn text_prompt(name: Seq<char>, ext: Seq<char>, preview: Option<Seq<char>>) -> Seq<
    char,
> {
    TEXT_PROMPT_INTRO@ + name + TEXT_PROMPT_EXT@ + ext + preview_hint(preview)
}

/// The prompt that asks for the tags of an image.
pub open spec fn image_prompt(name: Seq<char>) -> Seq<char> {
    IMAGE_PROMPT_HEAD@ + name + IMAGE_PROMPT_TAIL@
}

/// The preview text that goes into a prompt: the first 2000 bytes of `p`, or all of it.
fn cut_preview(p: &str) -> (r: &str)
    requires
        !all_space(p@),
        preview_cuttable(Some(p@)),
    ensures
        r@ == preview_cut(p@),
{
    proof {
        vstd::utf8::encode_utf8_valid_utf8(p@);
        vstd::utf8::encode_utf8_decode_utf8(p@);
    }
    if p.is_char_boundary(PREVIEW_BYTES) {
        let (head, _) = p.split_at(PREVIEW_BYTES);
        proof {
            vstd::utf8::encode_utf8_decode_utf8(head@);
            assert(p.spec_bytes().len() >= PREVIEW_BYTES);
        }
        head
    } else {
        proof {
            let bytes = p.spec_bytes();
            vstd::utf8::is_char_boundary_start_end_of_seq(bytes);
            assert(bytes.len() < PREVIEW_BYTES);
            assert(bytes.take(bytes.len() as int) =~= bytes);
        }
        p
    }
}

/// The prompt that asks for the tags of a text file named `name` with extension
/// `ext`, showing the start of `preview` where it holds more than blanks.
pub fn build_prompt(name: &str, ext: &str, preview: Option<&str>) -> (r: String)
    requires
        preview_cuttable(opt_chars(preview)),
    ensures
        r@ == text_prompt(name@, ext@, opt_chars(preview)),
{
    let mut out = String::new();
    out.append(TEXT_PROMPT_INTRO);
    out.append(name);
    out.append(TEXT_PROMPT_EXT);
    out.append(ext);
    match preview {
        Some(p) => {
            if !is_blank(p) {
                let head = cut_preview(p);
                out.append(PREVIEW_HEAD);
                out.append(head);
                out.append(PREVIEW_TAIL);
            }
        },
        None => {},
    }
    assert(out@ =~= text_prompt(name@, ext@, opt_chars(preview)));
    out
}

/// The prompt that asks for the tags of the image named `name`.
pub fn image_prompt_for(name: &str) -> (r: String)
    ensures
        r@ == image_prompt(name@),
{
    let mut out = String::new();
    out.append(IMAGE_PROMPT_HEAD);
    out.append(name);
    out.append(IMAGE_PROMPT_TAIL);
    assert(out@ =~= image_prompt(name@));
    out
}


/// A request for the tags of a text file, as the model server takes it.
pub struct OllamaRequest {
    pub model: String,
    pub prompt: String,
    pub stream: bool,
}

/// A request for the tags of an image, with the image attached in base64.
pub struct OllamaVisionRequest {
    pub model: String,
    pub prompt: String,
    pub images: Vec<String>,
    pub stream: bool,
}

/// What `base64::engine::general_purpose::STANDARD.encode` makes of a byte
/// sequence: its padded base64 text in the standard alphabet.
pub uninterp spec fn base64_standard(bytes: Seq<u8>) -> Seq<char>;

/// The length of padded base64 text for `n` input bytes: four characters for
/// every started group of three bytes.
pub open spec fn base64_len(n: nat) -> nat {
    if n % 3 == 0 {
        n / 3 * 4
    } else {
        n / 3 * 4 + 4
    }
}

/// Calls `Engine::encode` of the `STANDARD` engine of the `base64` crate.
/// Claimed: the result is `base64_standard` of the bytes, and it has
/// `base64_len` characters (the crate sizes its output buffer by `encoded_len`
/// and fills it with one ASCII character per byte). The crate panics where that
/// length overflows `usize`, which `requires` rules out.
#[verifier::external_body]
fn encode_base64(bytes: &[u8]) -> (r: String)
    requires
        base64_len(bytes@.len()) <= usize::MAX,
    ensures
        r@ == base64_standard(bytes@),
        r@.len() == base64_len(bytes@.len()),
{
    base64::Engine::encode(&base64::engine::general_purpose::STANDARD, bytes)
}

/// The request that asks the text model for the tags of a text file.
pub fn text_tag_request(name: &str, ext: &str, preview: Option<&str>) -> (r: OllamaRequest)
    requires
        preview_cuttable(opt_chars(preview)),
    ensures
        r.model@ == TEXT_MODEL@,
        r.prompt@ == text_prompt(name@, ext@, opt_chars(preview)),
        !r.stream,
{
    OllamaRequest { model: TEXT_MODEL.to_owned(), prompt: build_prompt(name, ext, preview), stream: false }
}

/// The request that asks the vision model for the tags of the image named
/// `name` whose content is `bytes`.
pub fn image_tag_request(name: &str, bytes: &[u8]) -> (r: OllamaVisionRequest)
    requires
        base64_len(bytes@.len()) <= usize::MAX,
    ensures
        r.model@ == VISION_MODEL@,
        r.prompt@ == image_prompt(name@),
        r.images@.len() == 1,
        r.images@[0]@ == base64_standard(bytes@),
        !r.stream,
{
    let b64 = encode_base64(bytes);
    let prompt = image_prompt_for(name);
    let mut images: Vec<String> = Vec::new();
    images.push(b64);
    OllamaVisionRequest { model: VISION_MODEL.to_owned(), prompt, images, stream: false }
}

/// Every tag read from an answer is non-empty, shorter than 50 bytes in UTF-8
/// and at most three blank-separated words long; every piece of the answer
/// whose tag has those three properties is among the tags read.
pub proof fn law_parsed_tags_are_short(raw: Seq<char>)
    ensures
        forall|i: int|
            0 <= i < parsed_tags(raw).len() ==> {
                &&& (#[trigger] parsed_tags(raw)[i]).len() > 0
                &&& vstd::utf8::encode_utf8(parsed_tags(raw)[i]).len() < 50
                &&& words(parsed_tags(raw)[i]).len() <= 3
            },
        forall|j: int|
            #![trigger split_pieces(raw)[j]]
            0 <= j < split_pieces(raw).len() && tag_candidate(split_pieces(raw)[j]).len() > 0
                && vstd::utf8::encode_utf8(tag_candidate(split_pieces(raw)[j])).len() < 50 && words(
                tag_candidate(split_pieces(raw)[j]),
            ).len() <= 3 ==> parsed_tags(raw).contains(tag_candidate(split_pieces(raw)[j])),
{
    let cands = split_pieces(raw).map_values(|p: Seq<char>| tag_candidate(p));
    assert forall|i: int| 0 <= i < parsed_tags(raw).len() implies {
        &&& (#[trigger] parsed_tags(raw)[i]).len() > 0
        &&& vstd::utf8::encode_utf8(parsed_tags(raw)[i]).len() < 50
        &&& words(parsed_tags(raw)[i]).len() <= 3
    } by {
        cands.lemma_filter_pred(kept(), i);
    }
    assert forall|j: int|
        #![trigger split_pieces(raw)[j]]
        0 <= j < split_pieces(raw).len() && tag_candidate(split_pieces(raw)[j]).len() > 0
            && vstd::utf8::encode_utf8(tag_candidate(split_pieces(raw)[j])).len() < 50 && words(
            tag_candidate(split_pieces(raw)[j]),
        ).len() <= 3 implies parsed_tags(raw).contains(tag_candidate(split_pieces(raw)[j])) by {
        assert(cands[j] == tag_candidate(split_pieces(raw)[j]));
        assert(kept()(cands[j]));
        cands.lemma_filter_contains(kept(), j);
    }
}

/// A preview shown in a prompt takes at most 2000 bytes of UTF-8, and it is
/// the whole preview where that is 2000 bytes or shorter.
pub proof fn law_preview_fits(p: Seq<char>)
    requires
        preview_cuttable(Some(p)),
        !all_space(p),
    ensures
        vstd::utf8::encode_utf8(preview_cut(p)).len() <= PREVIEW_BYTES,
        vstd::utf8::encode_utf8(p).len() <= PREVIEW_BYTES ==> preview_cut(p) == p,
{
    let bytes = vstd::utf8::encode_utf8(p);
    vstd::utf8::encode_utf8_valid_utf8(p);
    vstd::utf8::encode_utf8_decode_utf8(p);
    if bytes.len() <= PREVIEW_BYTES {
        assert(bytes.take(bytes.len() as int) =~= bytes);
    } else {
        let head = bytes.take(PREVIEW_BYTES as int);
        assert(head =~= bytes.subrange(0, PREVIEW_BYTES as int));
        vstd::utf8::valid_utf8_split(bytes, PREVIEW_BYTES as int);
        vstd::utf8::decode_utf8_encode_utf8(head);
    }
}

} // verus!
