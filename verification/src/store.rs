//! The rules of the file index: how tags are stored, how a search pattern is
//! formed, and where a deleted file may also be recorded.
use vstd::prelude::*;

use crate::string_views;
use crate::text::{chars_of, lowercase, string_of, to_lowercase, trim, trim_of};

verus! {

/// One file found by a search, with its tags.
pub struct FileResult {
    pub id: i64,
    pub path: String,
    pub name: String,
    pub extension: Option<String>,
    pub size: Option<i64>,
    pub tags: Vec<String>,
}

/// Where a tag came from: the file's extension, or the language model.
pub enum TagSource {
    Auto,
    Ai,
}

impl TagSource {
    /// The spelling of the source in the tag table.
    pub open spec fn label(&self) -> Seq<char> {
        match self {
            TagSource::Auto => seq!['a', 'u', 't', 'o'],
            TagSource::Ai => seq!['a', 'i'],
        }
    }

    /// The spelling of the source in the tag table: `auto` or `ai`.
    pub fn as_string(&self) -> (r: String)
        ensures
            r@ == self.label(),
    {
        let cs: Vec<char> = match self {
            TagSource::Auto => vec!['a', 'u', 't', 'o'],
            TagSource::Ai => vec!['a', 'i'],
        };
        string_of(&cs)
    }
}

/// The form in which a tag is stored: without surrounding blanks, lowercased.
pub open spec fn stored_tag(t: Seq<char>) -> Seq<char> {
    lowercase(trim(t))
}

/// `non_empty` as a predicate value.
pub open spec fn non_empty() -> spec_fn(Seq<char>) -> bool {
    |t: Seq<char>| t.len() > 0
}

/// The tags that are stored for a list of tags: each in its stored form, in
/// order, those that come out empty left out.
pub open spec fn stored_tags(tags: Seq<Seq<char>>) -> Seq<Seq<char>> {
    tags.map_values(|t: Seq<char>| stored_tag(t)).filter(non_empty())
}

/// The tags to store for `tags`, as the tag table receives them.
pub fn normalize_tags(tags: &Vec<String>) -> (r: Vec<String>)
    ensures
        string_views(r@) == stored_tags(string_views(tags@)),
{
    let ghost ts = string_views(tags@);
    let mut out: Vec<String> = Vec::new();
    let n = tags.len();
    let mut i: usize = 0;
    reveal(Seq::filter);
    assert(ts.take(0).map_values(|t: Seq<char>| stored_tag(t)).filter(non_empty())
        =~= Seq::<Seq<char>>::empty());
    while i < n
        invariant
            n == tags@.len(),
            ts == string_views(tags@),
            i <= n,
            string_views(out@) == ts.take(i as int).map_values(|t: Seq<char>| stored_tag(t)).filter(
                non_empty(),
            ),
        decreases n - i,
    {
        let cs = chars_of(tags[i].as_str());
        let trimmed = trim_of(&cs);
        let ts_i = string_of(&trimmed);
        let lowered = to_lowercase(ts_i.as_str());
        let lc = chars_of(lowered.as_str());
        let ghost mapped = ts.take(i + 1).map_values(|t: Seq<char>| stored_tag(t));
        assert(mapped.drop_last() =~= ts.take(i as int).map_values(|t: Seq<char>| stored_tag(t)));
        assert(mapped.last() == lowered@);
        reveal(Seq::filter);
        assert(mapped.filter(non_empty()) == if non_empty()(mapped.last()) {
            mapped.drop_last().filter(non_empty()).push(mapped.last())
        } else {
            mapped.drop_last().filter(non_empty())
        });
        if lc.len() > 0 {
            out.push(lowered);
            assert(string_views(out@) =~= mapped.filter(non_empty()));
        }
        i = i + 1;
    }
    assert(ts.take(n as int) =~= ts);
    out
}

/// Every tag that is stored is non-empty.
pub proof fn law_stored_tags_non_empty(tags: Seq<Seq<char>>)
    ensures
        forall|i: int| 0 <= i < stored_tags(tags).len() ==> #[trigger] stored_tags(tags)[i].len() > 0,
{
    assert forall|i: int| 0 <= i < stored_tags(tags).len() implies #[trigger] stored_tags(tags)[i].len() > 0 by {
        tags.map_values(|t: Seq<char>| stored_tag(t)).lemma_filter_pred(non_empty(), i);
    }
}

/// The pattern that a search matches names, paths and tags against: the
/// lowercased query with `%` on both sides, so that it matches anywhere.
pub open spec fn search_pattern_of(query: Seq<char>) -> Seq<char> {
    seq!['%'] + lowercase(query) + seq!['%']
}

/// The pattern for a search for `query`.
pub fn search_pattern(query: &str) -> (r: String)
    ensures
        r@ == search_pattern_of(query@),
{
    let lowered = to_lowercase(query);
    let mut cs: Vec<char> = Vec::new();
    cs.push('%');
    let mut lc = chars_of(lowered.as_str());
    cs.append(&mut lc);
    cs.push('%');
    assert(cs@ =~= search_pattern_of(query@));
    string_of(&cs)
}

/// The prefix under which macOS may also report a path (`/Users` is reached
/// through `/private/Users`).
pub open spec fn private_prefix() -> Seq<char> {
    seq!['/', 'p', 'r', 'i', 'v', 'a', 't', 'e']
}

/// The other form of `path`: without `/private` where it starts with it, with
/// `/private` in front otherwise.
pub open spec fn alternate_path_of(path: Seq<char>) -> Seq<char> {
    if path.len() >= 8 && path.take(8) == private_prefix() {
        path.skip(8)
    } else {
        private_prefix() + path
    }
}

/// Whether `cs` starts with `/private`.
fn starts_with_private(cs: &Vec<char>, prefix: &Vec<char>) -> (r: bool)
    requires
        prefix@ == private_prefix(),
    ensures
        r == (cs@.len() >= 8 && cs@.take(8) == private_prefix()),
{
    if cs.len() < 8 {
        return false;
    }
    let mut i: usize = 0;
    while i < 8
        invariant
            cs@.len() >= 8,
            i <= 8,
            prefix@ == private_prefix(),
            forall|j: int| 0 <= j < i ==> cs@[j] == prefix@[j],
        decreases 8 - i,
    {
        if cs[i] != prefix[i] {
            assert(cs@.take(8)[i as int] != private_prefix()[i as int]);
            return false;
        }
        i = i + 1;
    }
    assert(cs@.take(8) =~= private_prefix());
    true
}

/// The other form under which a file event may name `path`.
pub fn alternate_path(path: &str) -> (r: String)
    ensures
        r@ == alternate_path_of(path@),
{
    let cs = chars_of(path);
    let prefix: Vec<char> = vec!['/', 'p', 'r', 'i', 'v', 'a', 't', 'e'];
    if starts_with_private(&cs, &prefix) {
        let mut out: Vec<char> = Vec::new();
        let mut k: usize = 8;
        while k < cs.len()
            invariant
                8 <= k <= cs@.len(),
                out@ == cs@.subrange(8, k as int),
            decreases cs@.len() - k,
        {
            out.push(cs[k]);
            assert(cs@.subrange(8, k + 1) =~= cs@.subrange(8, k as int).push(cs@[k as int]));
            k = k + 1;
        }
        assert(out@ =~= cs@.skip(8));
        string_of(&out)
    } else {
        let mut out = prefix;
        let mut rest = cs;
        out.append(&mut rest);
        string_of(&out)
    }
}

/// After a delete by `path` changed `changes` rows, the path to delete by next,
/// if any: the alternate form where nothing was deleted.
pub fn retry_delete_path(path: &str, changes: usize) -> (r: Option<String>)
    ensures
        changes != 0 ==> r is None,
        changes == 0 ==> (r matches Some(alt) && alt@ == alternate_path_of(path@)),
{
    if changes == 0 {
        Some(alternate_path(path))
    } else {
        None
    }
}


/// Taking the other form twice gives the path back, except for a path that
/// starts with `/private/private`: stripping removes one `/private` only.
pub proof fn law_alternate_path_round_trip(path: Seq<char>)
    requires
        !(path.len() >= 16 && path.take(8) == private_prefix() && path.skip(8).take(8)
            == private_prefix()),
    ensures
        alternate_path_of(alternate_path_of(path)) == path,
{
    if path.len() >= 8 && path.take(8) == private_prefix() {
        let q = path.skip(8);
        assert(!(q.len() >= 8 && q.take(8) == private_prefix()));
        assert(private_prefix() + q =~= path);
    } else {
        let q = private_prefix() + path;
        assert(q.take(8) =~= private_prefix());
        assert(q.skip(8) =~= path);
    }
}

/// Storing the tags of a longer list adds the new tag's stored form at the
/// end exactly when that form is non-empty, and no tags give no stored tags:
/// every tag with a non-empty stored form is stored, in input order, and no
/// other.
pub proof fn law_stored_tags_append(tags: Seq<Seq<char>>, t: Seq<char>)
    ensures
        stored_tags(tags.push(t)) == if stored_tag(t).len() > 0 {
            stored_tags(tags).push(stored_tag(t))
        } else {
            stored_tags(tags)
        },
        stored_tags(Seq::<Seq<char>>::empty()) == Seq::<Seq<char>>::empty(),
{
    let f = |x: Seq<char>| stored_tag(x);
    let longer = tags.push(t).map_values(f);
    assert(longer.drop_last() =~= tags.map_values(f));
    assert(longer.last() == stored_tag(t));
    reveal(Seq::filter);
    assert(Seq::<Seq<char>>::empty().map_values(f) =~= Seq::<Seq<char>>::empty());
}

/// Trimming leaves something exactly when the tag holds a non-blank character.
pub proof fn law_trim_keeps_non_blank(t: Seq<char>)
    ensures
        (trim(t).len() > 0) <==> !crate::text::all_space(t),
{
    crate::text::lemma_trim_empty(t);
}

/// The search pattern is the whole lowercased query between one `%` at the
/// start and one at the end.
pub proof fn law_search_pattern_wraps_query(query: Seq<char>)
    ensures
        search_pattern_of(query).len() == lowercase(query).len() + 2,
        search_pattern_of(query)[0] == '%',
        search_pattern_of(query)[search_pattern_of(query).len() - 1] == '%',
        search_pattern_of(query).subrange(1, search_pattern_of(query).len() - 1) == lowercase(query),
{
    let p = search_pattern_of(query);
    assert(p.subrange(1, p.len() - 1) =~= lowercase(query));
}

} // verus!
