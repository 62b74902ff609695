//! The entry matcher: filters a listing of entries by a query string,
//! keeping the listing order. An entry matches when its display text
//! contains the query as a contiguous substring; the comparison is
//! case-sensitive.

use vstd::prelude::*;

verus! {

/// A listing item as the engine sees it: a stable numeric identifier,
/// unique within one listing, and the display text used for matching.
pub struct Entry {
    pub id: usize,
    pub text: String,
}

impl Entry {
    pub fn new(id: usize, text: String) -> (r: Entry)
        ensures
            r.id == id,
            r.text == text,
    {
        Entry { id, text }
    }
}

/// The query occurs in `t` starting at position `i`.
pub open spec fn is_match_at(t: Seq<char>, q: Seq<char>, i: int) -> bool {
    0 <= i && i + q.len() <= t.len() && t.subrange(i, i + q.len() as int) == q
}

/// The query occurs somewhere in `t`; every text contains the empty query.
pub open spec fn contains_substring(t: Seq<char>, q: Seq<char>) -> bool {
    exists|i: int| is_match_at(t, q, i)
}

/// The entry's display text contains the query.
pub open spec fn entry_matches(e: Entry, q: Seq<char>) -> bool {
    contains_substring(e.text@, q)
}

/// No two entries of the listing share an identifier.
pub open spec fn distinct_ids(s: Seq<Entry>) -> bool {
    forall|i: int, j: int| 0 <= i < j < s.len() ==> s[i].id != s[j].id
}

/// The identifiers of the matching entries, in listing order.
pub open spec fn matched_ids(s: Seq<Entry>, q: Seq<char>) -> Seq<usize>
    decreases s.len(),
{
    if s.len() == 0 {
        Seq::empty()
    } else {
        let rest = matched_ids(s.drop_last(), q);
        if entry_matches(s.last(), q) {
            rest.push(s.last().id)
        } else {
            rest
        }
    }
}

/// Every matched identifier belongs to some entry of the listing.
pub proof fn lemma_matched_ids_from_entries(s: Seq<Entry>, q: Seq<char>)
    ensures
        forall|x: usize|
            matched_ids(s, q).contains(x) ==> exists|k: int| 0 <= k < s.len() && s[k].id == x,
        matched_ids(s, q).len() <= s.len(),
    decreases s.len(),
{
    if s.len() > 0 {
        let d = s.drop_last();
        lemma_matched_ids_from_entries(d, q);
        assert forall|x: usize| matched_ids(s, q).contains(x) implies exists|k: int|
            0 <= k < s.len() && s[k].id == x by {
            let r = matched_ids(s, q);
            let j = choose|j: int| 0 <= j < r.len() && r[j] == x;
            if entry_matches(s.last(), q) && j == r.len() - 1 {
                assert(s[s.len() - 1].id == x);
            } else {
                assert(matched_ids(d, q)[j] == x);
                assert(matched_ids(d, q).contains(x));
                let k = choose|k: int| 0 <= k < d.len() && d[k].id == x;
                assert(s[k].id == x);
            }
        }
    }
}

/// On a listing with distinct identifiers, no identifier is matched twice.
pub proof fn lemma_matched_ids_no_duplicates(s: Seq<Entry>, q: Seq<char>)
    requires
        distinct_ids(s),
    ensures
        matched_ids(s, q).no_duplicates(),
    decreases s.len(),
{
    if s.len() > 0 {
        let d = s.drop_last();
        assert(forall|i: int| 0 <= i < d.len() ==> d[i] == s[i]);
        assert(distinct_ids(d));
        lemma_matched_ids_no_duplicates(d, q);
        if entry_matches(s.last(), q) {
            let rest = matched_ids(d, q);
            assert(!rest.contains(s.last().id)) by {
                lemma_matched_ids_from_entries(d, q);
                if rest.contains(s.last().id) {
                    let k = choose|k: int| 0 <= k < d.len() && d[k].id == s.last().id;
                    assert(s[k].id == s[s.len() - 1].id);
                }
            }
            let r = rest.push(s.last().id);
            assert(r.no_duplicates()) by {
                assert(forall|i: int| 0 <= i < rest.len() ==> r[i] == rest[i]);
                assert(forall|i: int| 0 <= i < rest.len() ==> rest.contains(rest[i]));
            }
        }
    }
}

/// Whether `text` contains `query` as a contiguous substring, compared
/// character by character and case-sensitively.
pub fn contains_query(text: &str, query: &str) -> (b: bool)
    ensures
        b == contains_substring(text@, query@),
{
    let n = text.unicode_len();
    let m = query.unicode_len();
    if m > n {
        proof {
            assert(forall|i: int| !is_match_at(text@, query@, i));
        }
        return false;
    }
    let mut i: usize = 0;
    while i <= n - m
        invariant
            m <= n,
            n == text@.len(),
            m == query@.len(),
            i <= n - m + 1,
            forall|k: int| 0 <= k < i ==> !is_match_at(text@, query@, k),
        decreases n + 1 - m - i,
    {
        let mut j: usize = 0;
        let mut all_equal = true;
        while j < m
            invariant
                m <= n,
                n == text@.len(),
                m == query@.len(),
                i + m <= n,
                j <= m,
                all_equal ==> forall|k: int| 0 <= k < j ==> text@[i + k] == query@[k],
                !all_equal ==> j == m && !(forall|k: int|
                    0 <= k < m ==> text@[i + k] == query@[k]),
            decreases m - j,
        {
            let tc = text.get_char(i + j);
            let qc = query.get_char(j);
            if tc != qc {
                proof {
                    assert(text@[i + j] != query@[j as int]);
                }
                all_equal = false;
                j = m;
            } else {
                proof {
                    assert(text@[i + j] == query@[j as int]);
                }
                j += 1;
            }
        }
        if all_equal {
            proof {
                assert(text@.subrange(i as int, i + m) =~= query@);
                assert(is_match_at(text@, query@, i as int));
            }
            return true;
        }
        proof {
            assert(!is_match_at(text@, query@, i as int)) by {
                if is_match_at(text@, query@, i as int) {
                    let k = choose|k: int| 0 <= k < m && text@[i + k] != query@[k];
                    assert(text@.subrange(i as int, i + m)[k] == text@[i + k]);
                }
            }
        }
        i += 1;
    }
    proof {
        assert forall|k: int| !is_match_at(text@, query@, k) by {
            if 0 <= k <= n - m {
                assert(!is_match_at(text@, query@, k));
            }
        }
    }
    false
}

/// The identifiers of the entries whose display text contains `query`,
/// in listing order.
pub fn find_matching_ids(entries: &Vec<Entry>, query: &str) -> (r: Vec<usize>)
    ensures
        r@ == matched_ids(entries@, query@),
{
    let mut r: Vec<usize> = Vec::new();
    let n = entries.len();
    let mut i: usize = 0;
    while i < n
        invariant
            i <= n,
            n == entries@.len(),
            r@ == matched_ids(entries@.take(i as int), query@),
        decreases n - i,
    {
        proof {
            assert(entries@.take(i + 1).drop_last() =~= entries@.take(i as int));
            assert(entries@.take(i + 1).last() == entries@[i as int]);
        }
        if contains_query(entries[i].text.as_str(), query) {
            r.push(entries[i].id);
        }
        i += 1;
    }
    proof {
        assert(entries@.take(n as int) =~= entries@);
    }
    r
}

} // verus!
