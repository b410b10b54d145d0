//! Name lookups over a flat (name, path) table: the exact /
//! regular-expression / edit-distance fallback chain, and the
//! similarity-based file finders.

use vstd::prelude::*;

use crate::distance::{ascii_lower, edit_dist, levenshtein_distance, nmax};
use crate::index::{key_index, lemma_key_index, find_key};
use crate::pattern::{regex_match_str, regex_matches, regex_valid};
use crate::text::{lower_of, lowercase, seq_contains, str_contains};

verus! {

/// Similarity strictly above four fifths: the case-insensitive distance is
/// less than a fifth of the longer length; two empty names always match.
pub open spec fn sim_above_four_fifths(a: Seq<char>, b: Seq<char>) -> bool {
    let m = nmax(a.len(), b.len());
    m == 0 || 5 * edit_dist(ascii_lower(a), ascii_lower(b)) < m
}

/// Decides `sim_above_four_fifths` on strings.
pub fn similar_names(a: &str, b: &str) -> (r: bool)
    ensures
        r == sim_above_four_fifths(a@, b@),
{
    let an = a.unicode_len();
    let bn = b.unicode_len();
    let m = if an >= bn {
        an
    } else {
        bn
    };
    if m == 0 {
        return true;
    }
    let d = levenshtein_distance(a, b);
    (d as u128) * 5 < m as u128
}

/// Paths of table entries whose name is similar to `q`.
pub open spec fn similar_paths(s: Seq<(String, String)>, q: Seq<char>) -> Seq<String>
    decreases s.len(),
{
    if s.len() == 0 {
        Seq::empty()
    } else {
        let r = similar_paths(s.drop_last(), q);
        if sim_above_four_fifths(s.last().0@, q) {
            r.push(s.last().1)
        } else {
            r
        }
    }
}

/// Paths of table entries whose name equals `q`.
pub open spec fn exact_paths(s: Seq<(String, String)>, q: Seq<char>) -> Seq<String>
    decreases s.len(),
{
    if s.len() == 0 {
        Seq::empty()
    } else {
        let r = exact_paths(s.drop_last(), q);
        if s.last().0@ == q {
            r.push(s.last().1)
        } else {
            r
        }
    }
}

/// Paths of table entries whose name the pattern matches.
pub open spec fn regex_paths(s: Seq<(String, String)>, pat: Seq<char>) -> Seq<String>
    decreases s.len(),
{
    if s.len() == 0 {
        Seq::empty()
    } else {
        let r = regex_paths(s.drop_last(), pat);
        if regex_matches(pat, s.last().0@) {
            r.push(s.last().1)
        } else {
            r
        }
    }
}

/// Paths of table entries whose name is within edit distance two of `q`.
pub open spec fn close_paths(s: Seq<(String, String)>, q: Seq<char>) -> Seq<String>
    decreases s.len(),
{
    if s.len() == 0 {
        Seq::empty()
    } else {
        let r = close_paths(s.drop_last(), q);
        if edit_dist(s.last().0@, q) <= 2 {
            r.push(s.last().1)
        } else {
            r
        }
    }
}

/// Ordered-table search: an exact key hit returns that one path, otherwise
/// every path whose name is more than four-fifths similar to the query.
pub fn find_file_btree(filename: &String, tree: &Vec<(String, String)>) -> (r: Vec<String>)
    ensures
        key_index(tree@, filename@) >= 0 ==> r@.len() == 1 && r@[0]@ == tree@[key_index(
            tree@,
            filename@,
        )].1@,
        key_index(tree@, filename@) < 0 ==> r@ == similar_paths(tree@, filename@),
{
    proof {
        lemma_key_index(tree@, filename@);
    }
    match find_key(tree, filename) {
        Some(i) => {
            let mut r: Vec<String> = Vec::new();
            r.push(tree[i].1.clone());
            r
        },
        None => {
            let mut r: Vec<String> = Vec::new();
            let mut i: usize = 0;
            while i < tree.len()
                invariant
                    i <= tree@.len(),
                    r@ == similar_paths(tree@.subrange(0, i as int), filename@),
                decreases tree@.len() - i,
            {
                proof {
                    assert(tree@.subrange(0, i + 1).drop_last() =~= tree@.subrange(0, i as int));
                    assert(tree@.subrange(0, i + 1).last() == tree@[i as int]);
                }
                if similar_names(tree[i].0.as_str(), filename.as_str()) {
                    r.push(tree[i].1.clone());
                }
                i += 1;
            }
            proof {
                assert(tree@.subrange(0, tree@.len() as int) =~= tree@);
            }
            r
        },
    }
}

/// Paths whose own text contains `q`, both compared lowercased.
pub open spec fn paths_containing(s: Seq<(String, String)>, q: Seq<char>) -> Seq<String>
    decreases s.len(),
{
    if s.len() == 0 {
        Seq::empty()
    } else {
        let r = paths_containing(s.drop_last(), q);
        if seq_contains(lower_of(s.last().1@), lower_of(q)) {
            r.push(s.last().1)
        } else {
            r
        }
    }
}

/// Substring search over the stored paths: every path whose lowercased
/// text contains the lowercased query, in table order.
pub fn find_paths_containing(query: &String, tree: &Vec<(String, String)>) -> (r: Vec<String>)
    ensures
        r@ == paths_containing(tree@, query@),
{
    let ql = lowercase(query.as_str());
    let mut r: Vec<String> = Vec::new();
    let mut i: usize = 0;
    while i < tree.len()
        invariant
            i <= tree@.len(),
            ql@ == lower_of(query@),
            r@ == paths_containing(tree@.subrange(0, i as int), query@),
        decreases tree@.len() - i,
    {
        proof {
            assert(tree@.subrange(0, i + 1).drop_last() =~= tree@.subrange(0, i as int));
            assert(tree@.subrange(0, i + 1).last() == tree@[i as int]);
        }
        let pl = lowercase(tree[i].1.as_str());
        if str_contains(pl.as_str(), ql.as_str()) {
            r.push(tree[i].1.clone());
        }
        i += 1;
    }
    proof {
        assert(tree@.subrange(0, tree@.len() as int) =~= tree@);
    }
    r
}

/// Index of the first entry whose name equals `q` ignoring ASCII case, or
/// `-1`.
pub open spec fn ci_index(s: Seq<(String, String)>, q: Seq<char>) -> int
    decreases s.len(),
{
    if s.len() == 0 {
        -1
    } else if ascii_lower(s[0].0@) == ascii_lower(q) {
        0
    } else {
        let r = ci_index(s.skip(1), q);
        if r < 0 {
            -1
        } else {
            r + 1
        }
    }
}

/// What `ci_index` finds.
pub proof fn lemma_ci_index(s: Seq<(String, String)>, q: Seq<char>)
    ensures
        -1 <= ci_index(s, q) < s.len(),
        ci_index(s, q) >= 0 ==> ascii_lower(s[ci_index(s, q)].0@) == ascii_lower(q),
        ci_index(s, q) == -1 ==> forall|i: int|
            0 <= i < s.len() ==> ascii_lower((#[trigger] s[i]).0@) != ascii_lower(q),
        forall|i: int|
            0 <= i < ci_index(s, q) ==> ascii_lower((#[trigger] s[i]).0@) != ascii_lower(q),
    decreases s.len(),
{
    if s.len() > 0 && ascii_lower(s[0].0@) != ascii_lower(q) {
        lemma_ci_index(s.skip(1), q);
        let r = ci_index(s.skip(1), q);
        if r < 0 {
            assert forall|i: int|
                0 <= i < s.len() implies ascii_lower((#[trigger] s[i]).0@) != ascii_lower(
                q,
            ) by {
                if i >= 1 {
                    assert(s.skip(1)[i - 1] == s[i]);
                    assert(ascii_lower(s.skip(1)[i - 1].0@) != ascii_lower(q));
                }
            }
        } else {
            assert(s.skip(1)[r] == s[r + 1]);
            assert forall|i: int|
                0 <= i < ci_index(s, q) implies ascii_lower((#[trigger] s[i]).0@)
                    != ascii_lower(q) by {
                if i >= 1 {
                    assert(s.skip(1)[i - 1] == s[i]);
                    assert(ascii_lower(s.skip(1)[i - 1].0@) != ascii_lower(q));
                }
            }
        }
    }
}

/// ASCII-case-insensitive equality of two strings.
pub fn eq_ignore_case(a: &str, b: &str) -> (r: bool)
    ensures
        r == (ascii_lower(a@) == ascii_lower(b@)),
{
    let an = a.unicode_len();
    let bn = b.unicode_len();
    if an != bn {
        proof {
            assert(ascii_lower(a@).len() == a@.len());
            assert(ascii_lower(b@).len() == b@.len());
        }
        return false;
    }
    let mut i: usize = 0;
    while i < an
        invariant
            i <= an,
            an == a@.len(),
            an == b@.len(),
            forall|j: int|
                0 <= j < i ==> ascii_lower(a@)[j] == ascii_lower(b@)[j],
        decreases an - i,
    {
        let ca = crate::distance::to_ascii_lower(a.get_char(i));
        let cb = crate::distance::to_ascii_lower(b.get_char(i));
        if ca != cb {
            proof {
                if ascii_lower(a@) == ascii_lower(b@) {
                    assert(ascii_lower(a@)[i as int] == ascii_lower(b@)[i as int]);
                }
            }
            return false;
        }
        i += 1;
    }
    proof {
        assert(ascii_lower(a@) =~= ascii_lower(b@));
    }
    true
}

/// Whole-table scan: the first name that matches ignoring case wins and is
/// returned alone; otherwise every more-than-four-fifths-similar path.
pub fn find_file(entries: &Vec<(String, String)>, filename: &String) -> (r: Vec<String>)
    ensures
        ci_index(entries@, filename@) >= 0 ==> r@.len() == 1 && r@[0]@ == entries@[ci_index(
            entries@,
            filename@,
        )].1@,
        ci_index(entries@, filename@) < 0 ==> r@ == similar_paths(entries@, filename@),
{
    proof {
        lemma_ci_index(entries@, filename@);
    }
    let mut similar: Vec<String> = Vec::new();
    let mut i: usize = 0;
    while i < entries.len()
        invariant
            i <= entries@.len(),
            similar@ == similar_paths(entries@.subrange(0, i as int), filename@),
            forall|j: int|
                0 <= j < i ==> ascii_lower((#[trigger] entries@[j]).0@) != ascii_lower(
                    filename@,
                ),
        decreases entries@.len() - i,
    {
        proof {
            assert(entries@.subrange(0, i + 1).drop_last() =~= entries@.subrange(0, i as int));
            assert(entries@.subrange(0, i + 1).last() == entries@[i as int]);
        }
        if eq_ignore_case(entries[i].0.as_str(), filename.as_str()) {
            proof {
                lemma_ci_index(entries@, filename@);
                let ci = ci_index(entries@, filename@);
                if ci < i {
                    assert(ascii_lower(entries@[ci].0@) != ascii_lower(filename@));
                }
                if ci > i || ci == -1 {
                    assert(ascii_lower(entries@[i as int].0@) != ascii_lower(filename@));
                }
            }
            let mut r: Vec<String> = Vec::new();
            r.push(entries[i].1.clone());
            return r;
        }
        if similar_names(entries[i].0.as_str(), filename.as_str()) {
            similar.push(entries[i].1.clone());
        }
        i += 1;
    }
    proof {
        assert(entries@.subrange(0, entries@.len() as int) =~= entries@);
        lemma_ci_index(entries@, filename@);
        let ci = ci_index(entries@, filename@);
        if ci >= 0 {
            assert(ascii_lower(entries@[ci].0@) != ascii_lower(filename@));
        }
    }
    similar
}

/// Three-tier fallback over a persisted (name, path) table: exact name
/// matches first; failing that, names the pattern matches (an invalid
/// pattern matches nothing); failing that, names within edit distance two.
/// The first tier models a full-text token match as exact name equality,
/// which is narrower on multi-word names: a query for one word of a name
/// passes tier one and is usually caught by the pattern tier instead.
pub fn find(rows: &Vec<(String, String)>, query: &String) -> (r: Vec<String>)
    ensures
        exact_paths(rows@, query@).len() > 0 ==> r@ == exact_paths(rows@, query@),
        exact_paths(rows@, query@).len() == 0 && regex_valid(query@) && regex_paths(
            rows@,
            query@,
        ).len() > 0 ==> r@ == regex_paths(rows@, query@),
        exact_paths(rows@, query@).len() == 0 && (!regex_valid(query@) || regex_paths(
            rows@,
            query@,
        ).len() == 0) ==> r@ == close_paths(rows@, query@),
{
    let mut exact: Vec<String> = Vec::new();
    let mut i: usize = 0;
    while i < rows.len()
        invariant
            i <= rows@.len(),
            exact@ == exact_paths(rows@.subrange(0, i as int), query@),
        decreases rows@.len() - i,
    {
        proof {
            assert(rows@.subrange(0, i + 1).drop_last() =~= rows@.subrange(0, i as int));
            assert(rows@.subrange(0, i + 1).last() == rows@[i as int]);
        }
        if rows[i].0.eq(query) {
            exact.push(rows[i].1.clone());
        }
        i += 1;
    }
    proof {
        assert(rows@.subrange(0, rows@.len() as int) =~= rows@);
    }
    if exact.len() > 0 {
        return exact;
    }
    let valid = match regex_match_str(query.as_str(), "") {
        Some(_) => true,
        None => false,
    };
    if valid {
        let mut matched: Vec<String> = Vec::new();
        let mut i: usize = 0;
        while i < rows.len()
            invariant
                i <= rows@.len(),
                regex_valid(query@),
                matched@ == regex_paths(rows@.subrange(0, i as int), query@),
            decreases rows@.len() - i,
        {
            proof {
                assert(rows@.subrange(0, i + 1).drop_last() =~= rows@.subrange(0, i as int));
                assert(rows@.subrange(0, i + 1).last() == rows@[i as int]);
            }
            let hit = match regex_match_str(query.as_str(), rows[i].0.as_str()) {
                Some(b) => b,
                None => false,
            };
            if hit {
                matched.push(rows[i].1.clone());
            }
            i += 1;
        }
        proof {
            assert(rows@.subrange(0, rows@.len() as int) =~= rows@);
        }
        if matched.len() > 0 {
            return matched;
        }
    }
    let mut close: Vec<String> = Vec::new();
    let mut i: usize = 0;
    while i < rows.len()
        invariant
            i <= rows@.len(),
            close@ == close_paths(rows@.subrange(0, i as int), query@),
        decreases rows@.len() - i,
    {
        proof {
            assert(rows@.subrange(0, i + 1).drop_last() =~= rows@.subrange(0, i as int));
            assert(rows@.subrange(0, i + 1).last() == rows@[i as int]);
        }
        let d = crate::distance::edit_distance(rows[i].0.as_str(), query.as_str());
        if d <= 2 {
            close.push(rows[i].1.clone());
        }
        i += 1;
    }
    proof {
        assert(rows@.subrange(0, rows@.len() as int) =~= rows@);
    }
    close
}

} // verus!
