//! The directory listing order and the checks made before an indexing run starts.
use vstd::prelude::*;

use crate::indexing::IndexStatus;
use crate::text::{chars_of, string_of};

verus! {

broadcast use vstd::seq_lib::group_to_multiset_ensures;

/// One entry of a directory listing.
pub struct DirEntry {
    pub name: String,
    pub path: String,
    pub is_dir: bool,
    pub size: Option<u64>,
    pub modified: Option<u64>,
    pub tags: Vec<String>,
}

/// Whether `a` comes strictly before `b` in lexicographic order of characters
/// (the order of `String`s, which compare their UTF-8 bytes, as UTF-8 keeps
/// the order of code points).
pub open spec fn chars_before(a: Seq<char>, b: Seq<char>) -> bool
    decreases a.len(),
{
    if a.len() == 0 {
        b.len() > 0
    } else if b.len() == 0 {
        false
    } else if a[0] != b[0] {
        a[0] < b[0]
    } else {
        chars_before(a.drop_first(), b.drop_first())
    }
}

/// Whether `a` may stand before `b` in a listing: directories first, then by name.
pub open spec fn entry_le(a: DirEntry, b: DirEntry) -> bool {
    ||| (a.is_dir && !b.is_dir)
    ||| (a.is_dir == b.is_dir && (a.name@ == b.name@ || chars_before(a.name@, b.name@)))
}

/// Whether two entries sort alike: both directories or both not, with one name.
pub open spec fn same_key(a: DirEntry, b: DirEntry) -> bool {
    a.is_dir == b.is_dir && a.name@ == b.name@
}

/// The entries that sort like `e`.
pub open spec fn key_class(e: DirEntry) -> spec_fn(DirEntry) -> bool {
    |y: DirEntry| same_key(y, e)
}

/// Whether a listing is in order: directories first, then by name.
pub open spec fn listing_sorted(s: Seq<DirEntry>) -> bool {
    forall|i: int, j: int| 0 <= i < j < s.len() ==> entry_le(#[trigger] s[i], #[trigger] s[j])
}

proof fn lemma_chars_before_irreflexive(a: Seq<char>)
    ensures
        !chars_before(a, a),
    decreases a.len(),
{
    if a.len() > 0 {
        lemma_chars_before_irreflexive(a.drop_first());
    }
}

proof fn lemma_chars_before_asymmetric(a: Seq<char>, b: Seq<char>)
    ensures
        !(chars_before(a, b) && chars_before(b, a)),
    decreases a.len(),
{
    if a.len() > 0 && b.len() > 0 && a[0] == b[0] {
        lemma_chars_before_asymmetric(a.drop_first(), b.drop_first());
    }
}

proof fn lemma_chars_before_transitive(a: Seq<char>, b: Seq<char>, c: Seq<char>)
    requires
        chars_before(a, b),
        chars_before(b, c),
    ensures
        chars_before(a, c),
    decreases a.len(),
{
    if a.len() > 0 && b.len() > 0 && c.len() > 0 && a[0] == b[0] && b[0] == c[0] {
        lemma_chars_before_transitive(a.drop_first(), b.drop_first(), c.drop_first());
    }
}

proof fn lemma_chars_before_total(a: Seq<char>, b: Seq<char>)
    ensures
        a == b || chars_before(a, b) || chars_before(b, a),
    decreases a.len(),
{
    if a.len() > 0 && b.len() > 0 && a[0] == b[0] {
        lemma_chars_before_total(a.drop_first(), b.drop_first());
        if a.drop_first() == b.drop_first() {
            assert(a =~= seq![a[0]] + a.drop_first());
            assert(b =~= seq![b[0]] + b.drop_first());
        }
    } else if a.len() == 0 && b.len() == 0 {
        assert(a =~= b);
    }
}

/// The listing order is a total preorder: reflexive, transitive and total, and
/// entries that sort alike may stand in either order.
pub proof fn law_listing_order(a: DirEntry, b: DirEntry, c: DirEntry)
    ensures
        entry_le(a, a),
        entry_le(a, b) && entry_le(b, c) ==> entry_le(a, c),
        entry_le(a, b) || entry_le(b, a),
        same_key(a, b) ==> entry_le(a, b) && entry_le(b, a),
        entry_le(a, b) && entry_le(b, a) ==> same_key(a, b),
{
    lemma_chars_before_total(a.name@, b.name@);
    lemma_chars_before_asymmetric(a.name@, b.name@);
    lemma_chars_before_irreflexive(a.name@);
    if entry_le(a, b) && entry_le(b, c) && a.is_dir == b.is_dir && b.is_dir == c.is_dir {
        if chars_before(a.name@, b.name@) && chars_before(b.name@, c.name@) {
            lemma_chars_before_transitive(a.name@, b.name@, c.name@);
        }
    }
}

/// Whether `a` comes strictly before `b` in lexicographic order of characters.
fn chars_before_exec(a: &Vec<char>, b: &Vec<char>) -> (r: bool)
    ensures
        r == chars_before(a@, b@),
{
    let mut i: usize = 0;
    assert(a@.skip(0) =~= a@);
    assert(b@.skip(0) =~= b@);
    while i < a.len() && i < b.len() && a[i] == b[i]
        invariant
            i <= a@.len(),
            i <= b@.len(),
            chars_before(a@, b@) == chars_before(a@.skip(i as int), b@.skip(i as int)),
        decreases a@.len() - i,
    {
        assert(a@.skip(i as int).drop_first() =~= a@.skip(i + 1));
        assert(b@.skip(i as int).drop_first() =~= b@.skip(i + 1));
        i = i + 1;
    }
    if i == a.len() {
        i < b.len()
    } else if i == b.len() {
        false
    } else {
        assert(a@.skip(i as int)[0] == a@[i as int]);
        assert(b@.skip(i as int)[0] == b@[i as int]);
        a[i] < b[i]
    }
}

/// Whether `a` may stand before `b` in a listing.
fn entry_le_exec(a: &DirEntry, b: &DirEntry) -> (r: bool)
    ensures
        r == entry_le(*a, *b),
{
    if a.is_dir != b.is_dir {
        return a.is_dir;
    }
    let an = chars_of(a.name.as_str());
    let bn = chars_of(b.name.as_str());
    if crate::text::chars_eq(&an, &bn) {
        true
    } else {
        chars_before_exec(&an, &bn)
    }
}

proof fn lemma_filter_none(s: Seq<DirEntry>, f: spec_fn(DirEntry) -> bool)
    requires
        forall|j: int| 0 <= j < s.len() ==> !f(#[trigger] s[j]),
    ensures
        s.filter(f) == Seq::<DirEntry>::empty(),
    decreases s.len(),
{
    reveal(Seq::filter);
    if s.len() > 0 {
        assert forall|j: int| 0 <= j < s.drop_last().len() implies !f(#[trigger] s.drop_last()[j]) by {
            assert(s.drop_last()[j] == s[j]);
        }
        lemma_filter_none(s.drop_last(), f);
        assert(!f(s[s.len() - 1]));
    } else {
        assert(s =~= Seq::<DirEntry>::empty());
    }
}

proof fn lemma_filter_insert(s: Seq<DirEntry>, p: int, x: DirEntry, e: DirEntry)
    requires
        0 <= p <= s.len(),
        forall|j: int| p <= j < s.len() ==> !same_key(#[trigger] s[j], x),
    ensures
        s.insert(p, x).filter(key_class(e)) == if same_key(x, e) {
            s.filter(key_class(e)).push(x)
        } else {
            s.filter(key_class(e))
        },
{
    let f = key_class(e);
    let pre = s.take(p);
    let post = s.skip(p);
    assert(s =~= pre + post);
    assert(s.insert(p, x) =~= pre.push(x) + post);
    Seq::filter_distributes_over_add(pre, post, f);
    Seq::filter_distributes_over_add(pre.push(x), post, f);
    reveal(Seq::filter);
    assert(pre.push(x).drop_last() =~= pre);
    assert(pre.push(x).filter(f) == if f(x) { pre.filter(f).push(x) } else { pre.filter(f) });
    if same_key(x, e) {
        assert forall|j: int| 0 <= j < post.len() implies !f(#[trigger] post[j]) by {
            assert(post[j] == s[p + j]);
        }
        lemma_filter_none(post, f);
        assert(pre.filter(f).push(x) + post.filter(f) =~= (pre.filter(f) + post.filter(f)).push(x));
    }
}

/// Orders a directory listing: directories first, then by name; entries that
/// sort alike keep their order (the sort is stable).
pub fn sort_listing(entries: Vec<DirEntry>) -> (r: Vec<DirEntry>)
    ensures
        listing_sorted(r@),
        r@.to_multiset() == entries@.to_multiset(),
        forall|e: DirEntry| #[trigger] r@.filter(key_class(e)) == entries@.filter(key_class(e)),
{
    let ghost orig = entries@;
    let mut input = entries;
    let mut out: Vec<DirEntry> = Vec::new();
    let n = input.len();
    let mut i: usize = 0;
    assert(orig.take(0) =~= Seq::<DirEntry>::empty());
    while i < n
        invariant
            n == orig.len(),
            i <= n,
            input@ == orig.skip(i as int),
            listing_sorted(out@),
            out@.to_multiset() == orig.take(i as int).to_multiset(),
            forall|e: DirEntry| #[trigger] out@.filter(key_class(e)) == orig.take(i as int).filter(key_class(e)),
        decreases n - i,
    {
        assert(input@[0] == orig[i as int]);
        let x = input.remove(0);
        assert(input@ =~= orig.skip(i + 1));
        let m = out.len();
        let mut p: usize = 0;
        while p < m && entry_le_exec(&out[p], &x)
            invariant
                m == out@.len(),
                p <= m,
                forall|j: int| 0 <= j < p ==> entry_le(#[trigger] out@[j], x),
            decreases m - p,
        {
            p = p + 1;
        }
        let ghost before = out@;
        proof {
            assert forall|j: int| p <= j < m implies !same_key(#[trigger] before[j], x) && entry_le(x, before[j]) by {
                law_listing_order(before[p as int], x, x);
                law_listing_order(x, before[p as int], before[j]);
                law_listing_order(before[j], x, before[p as int]);
                if j > p {
                    assert(entry_le(before[p as int], before[j]));
                    law_listing_order(before[p as int], before[j], x);
                }
            }
        }
        out.insert(p, x);
        proof {
            let after = out@;
            assert(after =~= before.insert(p as int, x));
            assert forall|a: int, b: int| 0 <= a < b < after.len() implies entry_le(#[trigger] after[a], #[trigger] after[b]) by {
                if b < p {
                    assert(after[a] == before[a] && after[b] == before[b]);
                } else if b == p {
                    assert(after[a] == before[a]);
                } else if a < p {
                    assert(after[a] == before[a] && after[b] == before[b - 1]);
                    law_listing_order(before[a], x, before[b - 1]);
                } else if a == p {
                    assert(after[b] == before[b - 1]);
                } else {
                    assert(after[a] == before[a - 1] && after[b] == before[b - 1]);
                }
            }
            vstd::seq_lib::to_multiset_insert(before, p as int, x);
            assert(orig.take(i + 1) =~= orig.take(i as int).push(x));
            assert forall|e: DirEntry| #[trigger] after.filter(key_class(e)) == orig.take(i + 1).filter(key_class(e)) by {
                lemma_filter_insert(before, p as int, x, e);
                reveal(Seq::filter);
                assert(orig.take(i + 1).drop_last() =~= orig.take(i as int));
            }
        }
        i = i + 1;
    }
    assert(orig.take(n as int) =~= orig);
    out
}

/// The errors that the library's checks report to the user interface.
pub enum AppError {
    /// A refused request, with its message.
    Other(String),
}

/// The message when a run is asked for while one is going on.
pub open spec fn busy_message() -> Seq<char> {
    seq![
        'I',
        'n',
        'd',
        'e',
        'x',
        'i',
        'n',
        'g',
        ' ',
        'a',
        'l',
        'r',
        'e',
        'a',
        'd',
        'y',
        ' ',
        'i',
        'n',
        ' ',
        'p',
        'r',
        'o',
        'g',
        'r',
        'e',
        's',
        's',
    ]
}

/// The message when the path to index is not a directory: `Not a directory: <path>`.
pub open spec fn not_a_directory_message(path: Seq<char>) -> Seq<char> {
    seq!['N', 'o', 't', ' ', 'a', ' ', 'd', 'i', 'r', 'e', 'c', 't', 'o', 'r', 'y', ':', ' ']
        + path
}

/// Whether an indexing run over `path` may start: not while another runs, and
/// only over a directory (`is_dir` says whether `path` is one).
pub fn check_index_request(status: &IndexStatus, path: &str, is_dir: bool) -> (r: Result<(), AppError>)
    ensures
        status.is_running ==> (r matches Err(AppError::Other(m)) && m@ == busy_message()),
        !status.is_running && !is_dir ==> (r matches Err(AppError::Other(m))
            && m@ == not_a_directory_message(path@)),
        !status.is_running && is_dir ==> r is Ok,
{
    if status.is_running {
        let cs: Vec<char> = vec![
            'I',
            'n',
            'd',
            'e',
            'x',
            'i',
            'n',
            'g',
            ' ',
            'a',
            'l',
            'r',
            'e',
            'a',
            'd',
            'y',
            ' ',
            'i',
            'n',
            ' ',
            'p',
            'r',
            'o',
            'g',
            'r',
            'e',
            's',
            's',
        ];
        assert(cs@ =~= busy_message());
        return Err(AppError::Other(string_of(&cs)));
    }
    if !is_dir {
        let mut cs: Vec<char> = vec![
            'N',
            'o',
            't',
            ' ',
            'a',
            ' ',
            'd',
            'i',
            'r',
            'e',
            'c',
            't',
            'o',
            'r',
            'y',
            ':',
            ' ',
        ];
        let mut p = chars_of(path);
        cs.append(&mut p);
        assert(cs@ =~= not_a_directory_message(path@));
        return Err(AppError::Other(string_of(&cs)));
    }
    Ok(())
}

/// Names are in order exactly as strings are: `a` comes before `b` when `a` is
/// a proper prefix of `b`, or when at the first position where they differ the
/// character of `a` has the smaller code point.
pub proof fn law_name_order(a: Seq<char>, b: Seq<char>)
    ensures
        chars_before(a, b) <==> {
            ||| (a.len() < b.len() && a == b.take(a.len() as int))
            ||| exists|k: int|
                0 <= k < a.len() && k < b.len() && a.take(k) == b.take(k) && a[k] < #[trigger] b[k]
        },
    decreases a.len(),
{
    if a.len() == 0 {
        assert(a =~= b.take(0));
    } else if b.len() == 0 {
    } else if a[0] != b[0] {
        if a[0] < b[0] {
            assert(a.take(0) =~= b.take(0));
        } else {
            assert(!(a.len() < b.len() && a == b.take(a.len() as int))) by {
                if a.len() < b.len() && a == b.take(a.len() as int) {
                    assert(a[0] == b.take(a.len() as int)[0]);
                }
            }
            assert forall|k: int|
                0 <= k < a.len() && k < b.len() && a.take(k) == b.take(k) implies !(a[k] < #[trigger] b[k]) by {
                if k > 0 {
                    assert(a.take(k)[0] == a[0]);
                    assert(b.take(k)[0] == b[0]);
                }
            }
        }
    } else {
        let a2 = a.drop_first();
        let b2 = b.drop_first();
        law_name_order(a2, b2);
        // prefix part
        assert((a.len() < b.len() && a == b.take(a.len() as int)) <==> (a2.len() < b2.len() && a2
            == b2.take(a2.len() as int))) by {
            if a.len() < b.len() && a == b.take(a.len() as int) {
                assert(a2 =~= b2.take(a2.len() as int));
            }
            if a2.len() < b2.len() && a2 == b2.take(a2.len() as int) {
                assert(a =~= seq![a[0]] + a2);
                assert(b.take(a.len() as int) =~= seq![b[0]] + b2.take(a2.len() as int));
                assert(a =~= b.take(a.len() as int));
            }
        }
        // first-difference part
        let ex = exists|k: int|
            0 <= k < a.len() && k < b.len() && a.take(k) == b.take(k) && a[k] < #[trigger] b[k];
        let ex2 = exists|k: int|
            0 <= k < a2.len() && k < b2.len() && a2.take(k) == b2.take(k) && a2[k] < #[trigger] b2[k];
        assert(ex <==> ex2) by {
            if ex {
                let k = choose|k: int|
                    0 <= k < a.len() && k < b.len() && a.take(k) == b.take(k) && a[k] < #[trigger] b[k];
                assert(k > 0);
                assert(a2.take(k - 1) =~= a.take(k).drop_first());
                assert(b2.take(k - 1) =~= b.take(k).drop_first());
                assert(a2[k - 1] == a[k] && b2[k - 1] == b[k]);
            }
            if ex2 {
                let k = choose|k: int|
                    0 <= k < a2.len() && k < b2.len() && a2.take(k) == b2.take(k) && a2[k] < #[trigger] b2[k];
                assert(a.take(k + 1) =~= seq![a[0]] + a2.take(k));
                assert(b.take(k + 1) =~= seq![b[0]] + b2.take(k));
                assert(a[k + 1] == a2[k] && b[k + 1] == b2[k]);
            }
        }
    }
}

} // verus!
