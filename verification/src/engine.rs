//! The Query Engine: fuzzy and regular-expression ranking over the Index
//! Store.
//!
//! All scores are fixed-point integers on the scale `SCORE_SCALE`; the
//! floor, caps and boost factors of the ranking heuristic are applied with
//! exact integer arithmetic, so every score in a result is the value of a
//! spec function of the query and the indexed names.

use vstd::prelude::*;
use vstd::string::StringSliceAdditionalSpecFns;

use crate::SCORE_SCALE;
use crate::distance::{lemma_sim_scaled_range, sim_scaled, similarity_scaled};
use crate::index::{path_in, IndexStore};
use crate::pattern::{
    regex_find_spans, regex_match_str, regex_matches, regex_spans, regex_valid,
    spans_length_sum, spans_total,
};
use crate::text::{
    base_of, dir_of, lower_of, lowercase, base_name, parent_name, seq_contains,
    seq_starts_with, str_contains, str_starts_with,
};

verus! {

/// Results below this score are discarded.
pub const SCORE_FLOOR: u64 = 3000;

/// A result list is cut to this many entries.
pub const MAX_RESULTS: usize = 100;

/// One ranked hit.
#[derive(Clone)]
pub struct ScoredResult {
    /// The path that matched.
    pub path: String,
    /// Its score, on the scale `SCORE_SCALE`.
    pub score: u64,
}

/// The name holds one of the well-known user folder names.  The list is
/// matched case-sensitively, capitalized as configured, so a lowercased
/// indexed name never carries the boost; the ranking keeps that behavior
/// deliberately.
pub open spec fn important_name(s: Seq<char>) -> bool {
    ||| seq_contains(s, "Documents"@)
    ||| seq_contains(s, "Downloads"@)
    ||| seq_contains(s, "Desktop"@)
    ||| seq_contains(s, "Pictures"@)
    ||| seq_contains(s, "Music"@)
    ||| seq_contains(s, "Videos"@)
    ||| seq_contains(s, "Projects"@)
    ||| seq_contains(s, "Work"@)
    ||| seq_contains(s, "Personal"@)
}

/// Tests a name against the important-folder list.
pub fn important_name_check(s: &str) -> (r: bool)
    ensures
        r == important_name(s@),
{
    str_contains(s, "Documents") || str_contains(s, "Downloads") || str_contains(s, "Desktop")
        || str_contains(s, "Pictures") || str_contains(s, "Music") || str_contains(s, "Videos")
        || str_contains(s, "Projects") || str_contains(s, "Work") || str_contains(s, "Personal")
}

/// Coarse score of one query term against one indexed token: the
/// similarity, half again as much on an exact match, and a further 13/10
/// when the token's first path has an important base name.
pub open spec fn coarse_score(term: Seq<char>, token: Seq<char>, first_low: Seq<char>) -> int {
    let base = sim_scaled(term, token);
    let b1 = if token == term {
        base * 15 / 10
    } else {
        base
    };
    if important_name(first_low) {
        b1 * 13 / 10
    } else {
        b1
    }
}

/// Coarse scores stay within 0 and 19500.
pub proof fn lemma_coarse_score_range(term: Seq<char>, token: Seq<char>, first_low: Seq<char>)
    ensures
        0 <= coarse_score(term, token, first_low) <= 19500,
{
    lemma_sim_scaled_range(term, token);
    let base = sim_scaled(term, token);
    assert(0 <= base * 15 / 10 <= 15000) by (nonlinear_arith)
        requires
            0 <= base <= 10000,
    ;
    let b1 = if token == term {
        base * 15 / 10
    } else {
        base
    };
    assert(0 <= b1 * 13 / 10 <= 19500) by (nonlinear_arith)
        requires
            0 <= b1 <= 15000,
    ;
}

/// Computes the coarse score.
pub fn coarse_score_check(term: &String, token: &String, first_low: &String) -> (r: u64)
    ensures
        r as int == coarse_score(term@, token@, first_low@),
        r <= 19500,
{
    proof {
        lemma_coarse_score_range(term@, token@, first_low@);
    }
    let base = similarity_scaled(term.as_str(), token.as_str());
    let b1 = if token.eq(term) {
        base * 15 / 10
    } else {
        base
    };
    if important_name_check(first_low.as_str()) {
        b1 * 13 / 10
    } else {
        b1
    }
}

/// Score of one query term against one path's lowercased base name:
/// similarity, 12/10 when the name starts with the term, a further 11/10
/// when the parent directory name is important.
pub open spec fn term_score(term: Seq<char>, fname: Seq<char>, parent: Seq<char>) -> int {
    let base = sim_scaled(term, fname);
    let b1 = if seq_starts_with(fname, term) {
        base * 12 / 10
    } else {
        base
    };
    if important_name(parent) {
        b1 * 11 / 10
    } else {
        b1
    }
}

/// Term scores stay within 0 and 13200.
pub proof fn lemma_term_score_range(term: Seq<char>, fname: Seq<char>, parent: Seq<char>)
    ensures
        0 <= term_score(term, fname, parent) <= 13200,
{
    lemma_sim_scaled_range(term, fname);
    let base = sim_scaled(term, fname);
    assert(0 <= base * 12 / 10 <= 12000) by (nonlinear_arith)
        requires
            0 <= base <= 10000,
    ;
    let b1 = if seq_starts_with(fname, term) {
        base * 12 / 10
    } else {
        base
    };
    assert(0 <= b1 * 11 / 10 <= 13200) by (nonlinear_arith)
        requires
            0 <= b1 <= 12000,
    ;
}

/// Computes one term score.
pub fn term_score_check(term: &String, fname: &String, parent: &String) -> (r: u64)
    ensures
        r as int == term_score(term@, fname@, parent@),
        r <= 13200,
{
    proof {
        lemma_term_score_range(term@, fname@, parent@);
    }
    let base = similarity_scaled(term.as_str(), fname.as_str());
    let b1 = if str_starts_with(fname.as_str(), term.as_str()) {
        base * 12 / 10
    } else {
        base
    };
    if important_name_check(parent.as_str()) {
        b1 * 11 / 10
    } else {
        b1
    }
}

/// Sum of the term scores of the terms contained in the name.
pub open spec fn fz_total(terms: Seq<String>, fname: Seq<char>, parent: Seq<char>) -> int
    decreases terms.len(),
{
    if terms.len() == 0 {
        0
    } else {
        fz_total(terms.drop_last(), fname, parent) + (if seq_contains(fname, terms.last()@) {
            term_score(terms.last()@, fname, parent)
        } else {
            0
        })
    }
}

/// How many terms the name contains.
pub open spec fn fz_count(terms: Seq<String>, fname: Seq<char>) -> int
    decreases terms.len(),
{
    if terms.len() == 0 {
        0
    } else {
        fz_count(terms.drop_last(), fname) + (if seq_contains(fname, terms.last()@) {
            1int
        } else {
            0int
        })
    }
}

/// The best term score over all terms, contained or not.
pub open spec fn fz_best(terms: Seq<String>, fname: Seq<char>, parent: Seq<char>) -> int
    decreases terms.len(),
{
    if terms.len() == 0 {
        0
    } else {
        let rest = fz_best(terms.drop_last(), fname, parent);
        let ts = term_score(terms.last()@, fname, parent);
        if ts >= rest {
            ts
        } else {
            rest
        }
    }
}

/// The accumulated quantities stay in range.
pub proof fn lemma_fz_ranges(terms: Seq<String>, fname: Seq<char>, parent: Seq<char>)
    ensures
        0 <= fz_count(terms, fname) <= terms.len(),
        0 <= fz_total(terms, fname, parent) <= fz_count(terms, fname) * 13200,
        0 <= fz_best(terms, fname, parent) <= 13200,
    decreases terms.len(),
{
    if terms.len() > 0 {
        lemma_fz_ranges(terms.drop_last(), fname, parent);
        lemma_term_score_range(terms.last()@, fname, parent);
        let c0 = fz_count(terms.drop_last(), fname);
        assert(c0 * 13200 + 13200 == (c0 + 1) * 13200) by (nonlinear_arith);
    }
}

/// Final fuzzy score of a path: the blend of the average contained-term
/// score and the best term score, clamped to the scale.
pub open spec fn fuzzy_path_score(terms: Seq<String>, fname: Seq<char>, parent: Seq<char>) -> int {
    let total = fz_total(terms, fname, parent);
    let count = fz_count(terms, fname);
    let best = fz_best(terms, fname, parent);
    let raw = if count > 0 {
        (total * 7) / (count * 10) + (best * 3) / 10
    } else {
        best
    };
    if raw > SCORE_SCALE as int {
        SCORE_SCALE as int
    } else if raw < 0 {
        0
    } else {
        raw
    }
}

/// Computes the fuzzy score of one path against all terms.
pub fn fuzzy_score_check(terms: &Vec<String>, fname: &String, parent: &String) -> (r: u64)
    ensures
        r as int == fuzzy_path_score(terms@, fname@, parent@),
        r <= SCORE_SCALE,
{
    let mut total: u128 = 0;
    let mut count: u64 = 0;
    let mut best: u64 = 0;
    let mut w: usize = 0;
    proof {
        assert(terms@.subrange(0, 0) =~= Seq::<String>::empty());
    }
    while w < terms.len()
        invariant
            w <= terms@.len(),
            total == fz_total(terms@.subrange(0, w as int), fname@, parent@),
            count == fz_count(terms@.subrange(0, w as int), fname@),
            best == fz_best(terms@.subrange(0, w as int), fname@, parent@),
            count <= w,
            total <= count as int * 13200,
            best <= 13200,
        decreases terms@.len() - w,
    {
        proof {
            assert(terms@.subrange(0, w + 1).drop_last() =~= terms@.subrange(0, w as int));
            assert(terms@.subrange(0, w + 1).last() == terms@[w as int]);
            lemma_term_score_range(terms@[w as int]@, fname@, parent@);
        }
        let ts = term_score_check(&terms[w], fname, parent);
        if str_contains(fname.as_str(), terms[w].as_str()) {
            total = total + ts as u128;
            count = count + 1;
            proof {
                assert((count - 1) * 13200 + 13200 == count as int * 13200) by (nonlinear_arith);
            }
        }
        if ts > best {
            best = ts;
        }
        w += 1;
    }
    proof {
        assert(terms@.subrange(0, terms@.len() as int) =~= terms@);
        lemma_fz_ranges(terms@, fname@, parent@);
    }
    let raw: u128 = if count > 0 {
        let avg7: u128 = (total * 7) / (count as u128 * 10);
        proof {
            assert(total * 7 <= count as int * 132000) by (nonlinear_arith)
                requires
                    total <= count as int * 13200,
            ;
            assert((total * 7) as int / (count as int * 10) <= 13200) by (nonlinear_arith)
                requires
                    total * 7 <= count as int * 132000,
                    count > 0,
            ;
        }
        avg7 + (best as u128 * 3) / 10
    } else {
        best as u128
    };
    if raw > SCORE_SCALE as u128 {
        SCORE_SCALE
    } else {
        raw as u64
    }
}

/// Score of a path in regex mode: matched bytes over name bytes, on the
/// scale; an empty name scores zero.
pub open spec fn regex_path_score(pat: Seq<char>, fname: Seq<char>) -> int {
    let n = vstd::utf8::encode_utf8(fname).len() as usize;
    if n == 0 {
        0
    } else {
        spans_total(regex_spans(pat, fname)) * (SCORE_SCALE as int) / (n as int)
    }
}

/// Computes the regex-mode score of one lowercased base name; `None` when
/// the pattern does not compile.  A name the pattern does not match at all
/// scores zero.
pub fn regex_score_check(pat: &str, fname: &String) -> (r: Option<u64>)
    ensures
        r is Some <==> regex_valid(pat@),
        r is Some ==> r.unwrap() as int == regex_path_score(pat@, fname@),
        r is Some ==> r.unwrap() <= SCORE_SCALE,
        r is Some && !regex_matches(pat@, fname@) ==> r.unwrap() == 0,
{
    let s = fname.as_str();
    let n = s.len();
    proof {
        assert(s.spec_bytes() == vstd::utf8::encode_utf8(fname@));
    }
    match regex_find_spans(pat, s) {
        None => None,
        Some(sp) => {
            if n == 0 {
                Some(0)
            } else {
                let tot = spans_length_sum(&sp, n);
                let q: u128 = (tot as u128 * SCORE_SCALE as u128) / (n as u128);
                proof {
                    assert(tot as int * (SCORE_SCALE as int) / (n as int) <= SCORE_SCALE)
                        by (nonlinear_arith)
                        requires
                            0 <= tot <= n,
                            n > 0,
                    ;
                }
                Some(q as u64)
            }
        },
    }
}

/// The query is a regex query: exactly one term, wrapped in `/.../`.
pub open spec fn is_regex_query(terms: Seq<String>) -> bool {
    terms.len() == 1 && terms[0]@.len() >= 2 && terms[0]@[0] == '/' && terms[0]@[terms[0]@.len()
        - 1] == '/'
}

/// The pattern inside the slashes.
pub open spec fn pattern_of(terms: Seq<String>) -> Seq<char> {
    terms[0]@.subrange(1, terms[0]@.len() - 1)
}

/// Term `w` and token `i` make path `p` a fuzzy candidate: the path is
/// filed under the token and the coarse score clears the floor.
pub open spec fn fuzzy_trigger(
    store: IndexStore,
    terms: Seq<String>,
    p: Seq<char>,
    w: int,
    i: int,
) -> bool {
    &&& 0 <= w < terms.len()
    &&& 0 <= i < store.tokens@.len()
    &&& path_in(store.tokens@[i].1@, p)
    &&& coarse_score(
        terms[w]@,
        store.tokens@[i].0@,
        lower_of(base_of(store.tokens@[i].1@[0]@)),
    ) >= SCORE_FLOOR as int
}

/// Some term and token make `p` a fuzzy candidate.
pub open spec fn fuzzy_candidate(store: IndexStore, terms: Seq<String>, p: Seq<char>) -> bool {
    exists|w: int, i: int| #[trigger] fuzzy_trigger(store, terms, p, w, i)
}

/// The fuzzy score of a path, from its own name and its parent's name.
pub open spec fn fuzzy_result_score(terms: Seq<String>, p: Seq<char>) -> int {
    fuzzy_path_score(terms, lower_of(base_of(p)), lower_of(base_of(dir_of(p))))
}

/// Token `i` matches the pattern and files path `p`.
pub open spec fn regex_trigger(store: IndexStore, pat: Seq<char>, p: Seq<char>, i: int) -> bool {
    &&& 0 <= i < store.tokens@.len()
    &&& regex_matches(pat, store.tokens@[i].0@)
    &&& path_in(store.tokens@[i].1@, p)
}

/// Some matching token files `p`.
pub open spec fn regex_candidate(store: IndexStore, pat: Seq<char>, p: Seq<char>) -> bool {
    exists|i: int| #[trigger] regex_trigger(store, pat, p, i)
}

/// The regex-mode score of a path.
pub open spec fn regex_result_score(terms: Seq<String>, p: Seq<char>) -> int {
    regex_path_score(pattern_of(terms), lower_of(base_of(p)))
}

/// The score a result for `p` carries, in whichever mode the query is in.
pub open spec fn result_score(terms: Seq<String>, p: Seq<char>) -> int {
    if is_regex_query(terms) {
        regex_result_score(terms, p)
    } else {
        fuzzy_result_score(terms, p)
    }
}

/// Path `p` belongs in the result set of the query over this store.
pub open spec fn in_result_set(store: IndexStore, terms: Seq<String>, p: Seq<char>) -> bool {
    if is_regex_query(terms) {
        regex_valid(pattern_of(terms)) && regex_candidate(store, pattern_of(terms), p)
            && regex_result_score(terms, p) >= SCORE_FLOOR as int
    } else {
        fuzzy_candidate(store, terms, p) && fuzzy_result_score(terms, p) >= SCORE_FLOOR as int
    }
}

/// `p` is the path of some listed result.
pub open spec fn path_listed(r: Seq<ScoredResult>, p: Seq<char>) -> bool {
    exists|x: int| 0 <= x < r.len() && (#[trigger] r[x]).path@ == p
}

/// A path that no token files cannot be in any result set.
pub proof fn lemma_unfiled_path_never_results(
    store: IndexStore,
    terms: Seq<String>,
    p: Seq<char>,
)
    requires
        forall|t: Seq<char>| !store.token_has_path(t, p),
    ensures
        !in_result_set(store, terms, p),
{
    if is_regex_query(terms) {
        if regex_candidate(store, pattern_of(terms), p) {
            let i = choose|i: int| #[trigger] regex_trigger(store, pattern_of(terms), p, i);
            assert(store.token_has_path(store.tokens@[i].0@, p));
        }
    } else {
        if fuzzy_candidate(store, terms, p) {
            let (w, i) = choose|w: int, i: int| #[trigger] fuzzy_trigger(store, terms, p, w, i);
            assert(store.token_has_path(store.tokens@[i].0@, p));
        }
    }
}

/// Distinct paths that all appear in a duplicate-free result list cannot
/// outnumber it.
proof fn lemma_listed_distinct_bound(r: Seq<ScoredResult>, cand: Seq<Seq<char>>)
    requires
        forall|a: int, b: int|
            0 <= a < b < r.len() ==> (#[trigger] r[a]).path@ != (#[trigger] r[b]).path@,
        forall|a: int, b: int| 0 <= a < b < cand.len() ==> cand[a] != cand[b],
        forall|x: int| 0 <= x < cand.len() ==> path_listed(r, #[trigger] cand[x]),
    ensures
        cand.len() <= r.len(),
    decreases cand.len(),
{
    if cand.len() > 0 {
        let p = cand.last();
        assert(path_listed(r, p));
        let x = choose|x: int| 0 <= x < r.len() && (#[trigger] r[x]).path@ == p;
        let r2 = r.remove(x);
        assert(forall|a: int| 0 <= a < x ==> r2[a] == r[a]);
        assert(forall|a: int| x <= a < r2.len() ==> r2[a] == r[a + 1]);
        let cd = cand.drop_last();
        assert forall|y: int| 0 <= y < cd.len() implies path_listed(r2, #[trigger] cd[y]) by {
            assert(cd[y] == cand[y]);
            assert(path_listed(r, cand[y]));
            let xy = choose|xy: int| 0 <= xy < r.len() && (#[trigger] r[xy]).path@ == cand[y];
            assert(cand[y] != p);
            assert(xy != x);
            if xy < x {
                assert(r2[xy].path@ == cd[y]);
            } else {
                assert(r2[xy - 1].path@ == cd[y]);
            }
        }
        assert forall|a: int, b: int|
            0 <= a < b < r2.len() implies (#[trigger] r2[a]).path@ != (
        #[trigger] r2[b]).path@ by {
            let oa = if a < x {
                a
            } else {
                a + 1
            };
            let ob = if b < x {
                b
            } else {
                b + 1
            };
            assert(r2[a] == r[oa] && r2[b] == r[ob]);
        }
        lemma_listed_distinct_bound(r2, cd);
    }
}

/// When at least `MAX_RESULTS` distinct paths belong in the result set,
/// the returned list is full: the cut returns exactly `MAX_RESULTS` hits.
/// The hypotheses are the postconditions of `search_files`, together with
/// a list of that many distinct qualifying paths.
pub proof fn lemma_enough_matches_fill_the_cut(
    store: IndexStore,
    terms: Seq<String>,
    r: Seq<ScoredResult>,
    cand: Seq<Seq<char>>,
)
    requires
        r.len() <= MAX_RESULTS,
        forall|a: int, b: int|
            0 <= a < b < r.len() ==> (#[trigger] r[a]).path@ != (#[trigger] r[b]).path@,
        forall|p: Seq<char>|
            #[trigger] in_result_set(store, terms, p) ==> path_listed(r, p) || (r.len()
                == MAX_RESULTS && result_score(terms, p) <= r[MAX_RESULTS - 1].score),
        forall|a: int, b: int| 0 <= a < b < cand.len() ==> cand[a] != cand[b],
        forall|x: int| 0 <= x < cand.len() ==> in_result_set(store, terms, #[trigger] cand[x]),
        cand.len() >= MAX_RESULTS,
    ensures
        r.len() == MAX_RESULTS,
{
    if r.len() < MAX_RESULTS {
        assert forall|x: int| 0 <= x < cand.len() implies path_listed(r, #[trigger] cand[x]) by {
            assert(in_result_set(store, terms, cand[x]));
        }
        lemma_listed_distinct_bound(r, cand);
        assert(false);
    }
}

/// Linear membership scan over a result list.
fn result_contains(r: &Vec<ScoredResult>, p: &String) -> (b: bool)
    ensures
        b == path_listed(r@, p@),
{
    let mut x: usize = 0;
    while x < r.len()
        invariant
            x <= r@.len(),
            forall|y: int| 0 <= y < x ==> (#[trigger] r@[y]).path@ != p@,
        decreases r@.len() - x,
    {
        if r[x].path.eq(p) {
            return true;
        }
        x += 1;
    }
    false
}

/// Computes the fuzzy score of a path from the path string alone.
fn fuzzy_path_score_check(terms: &Vec<String>, p: &String) -> (r: u64)
    ensures
        r as int == fuzzy_result_score(terms@, p@),
        r <= SCORE_SCALE,
{
    let bn = base_name(p.as_str());
    let fl = lowercase(bn.as_str());
    let pn = parent_name(p.as_str());
    let pl = lowercase(pn.as_str());
    fuzzy_score_check(terms, &fl, &pl)
}

/// Fuzzy candidates seen so far: some term before `wlim`, or term `w` with
/// a token before `ilim`, triggers `p`.
pub open spec fn fuzzy_cand_upto(
    store: IndexStore,
    terms: Seq<String>,
    p: Seq<char>,
    wlim: int,
    ilim: int,
) -> bool {
    exists|w: int, i: int|
        (w < wlim || (w == wlim && i < ilim)) && #[trigger] fuzzy_trigger(store, terms, p, w, i)
}

/// Gathers every fuzzy candidate above the floor, scored, each path once.
fn collect_fuzzy(store: &IndexStore, terms: &Vec<String>) -> (out: Vec<ScoredResult>)
    requires
        store.wf(),
    ensures
        forall|x: int|
            0 <= x < out@.len() ==> fuzzy_candidate(*store, terms@, (#[trigger] out@[x]).path@)
                && out@[x].score as int == fuzzy_result_score(terms@, out@[x].path@)
                && out@[x].score >= SCORE_FLOOR && out@[x].score <= SCORE_SCALE,
        forall|x: int, y: int|
            0 <= x < y < out@.len() ==> (#[trigger] out@[x]).path@ != (#[trigger] out@[y]).path@,
        forall|p: Seq<char>|
            fuzzy_candidate(*store, terms@, p) && fuzzy_result_score(terms@, p)
                >= SCORE_FLOOR as int ==> #[trigger] path_listed(out@, p),
{
    let mut out: Vec<ScoredResult> = Vec::new();
    let mut w: usize = 0;
    while w < terms.len()
        invariant
            w <= terms@.len(),
            store.wf(),
            forall|x: int|
                0 <= x < out@.len() ==> fuzzy_candidate(
                    *store,
                    terms@,
                    (#[trigger] out@[x]).path@,
                ) && out@[x].score as int == fuzzy_result_score(terms@, out@[x].path@)
                    && out@[x].score >= SCORE_FLOOR && out@[x].score <= SCORE_SCALE,
            forall|x: int, y: int|
                0 <= x < y < out@.len() ==> (#[trigger] out@[x]).path@ != (
                #[trigger] out@[y]).path@,
            forall|p: Seq<char>|
                fuzzy_cand_upto(*store, terms@, p, w as int, 0) && fuzzy_result_score(terms@, p)
                    >= SCORE_FLOOR as int ==> #[trigger] path_listed(out@, p),
        decreases terms@.len() - w,
    {
        let mut i: usize = 0;
        while i < store.tokens.len()
            invariant
                w < terms@.len(),
                i <= store.tokens@.len(),
                store.wf(),
                forall|x: int|
                    0 <= x < out@.len() ==> fuzzy_candidate(
                        *store,
                        terms@,
                        (#[trigger] out@[x]).path@,
                    ) && out@[x].score as int == fuzzy_result_score(terms@, out@[x].path@)
                        && out@[x].score >= SCORE_FLOOR && out@[x].score <= SCORE_SCALE,
                forall|x: int, y: int|
                    0 <= x < y < out@.len() ==> (#[trigger] out@[x]).path@ != (
                    #[trigger] out@[y]).path@,
                forall|p: Seq<char>|
                    fuzzy_cand_upto(*store, terms@, p, w as int, i as int) && fuzzy_result_score(
                        terms@,
                        p,
                    ) >= SCORE_FLOOR as int ==> #[trigger] path_listed(out@, p),
            decreases store.tokens@.len() - i,
        {
            let first_base = base_name(store.tokens[i].1[0].as_str());
            let first_low = lowercase(first_base.as_str());
            let cs = coarse_score_check(&terms[w], &store.tokens[i].0, &first_low);
            if cs >= SCORE_FLOOR {
                let mut j: usize = 0;
                while j < store.tokens[i].1.len()
                    invariant
                        w < terms@.len(),
                        i < store.tokens@.len(),
                        j <= store.tokens@[i as int].1@.len(),
                        store.wf(),
                        coarse_score(
                            terms@[w as int]@,
                            store.tokens@[i as int].0@,
                            lower_of(base_of(store.tokens@[i as int].1@[0]@)),
                        ) >= SCORE_FLOOR as int,
                        forall|x: int|
                            0 <= x < out@.len() ==> fuzzy_candidate(
                                *store,
                                terms@,
                                (#[trigger] out@[x]).path@,
                            ) && out@[x].score as int == fuzzy_result_score(
                                terms@,
                                out@[x].path@,
                            ) && out@[x].score >= SCORE_FLOOR && out@[x].score <= SCORE_SCALE,
                        forall|x: int, y: int|
                            0 <= x < y < out@.len() ==> (#[trigger] out@[x]).path@ != (
                            #[trigger] out@[y]).path@,
                        forall|p: Seq<char>|
                            (fuzzy_cand_upto(*store, terms@, p, w as int, i as int) || (exists|
                                jj: int,
                            |
                                0 <= jj < j && (
                                #[trigger] store.tokens@[i as int].1@[jj])@ == p))
                                && fuzzy_result_score(terms@, p) >= SCORE_FLOOR as int
                                ==> #[trigger] path_listed(out@, p),
                    decreases store.tokens@[i as int].1@.len() - j,
                {
                    let p = &store.tokens[i].1[j];
                    let ghost prev_out = out@;
                    let already = result_contains(&out, p);
                    let ps = fuzzy_path_score_check(terms, p);
                    if !already && ps >= SCORE_FLOOR {
                        proof {
                            assert(fuzzy_trigger(*store, terms@, p@, w as int, i as int));
                        }
                        out.push(ScoredResult { path: p.clone(), score: ps });
                    }
                    proof {
                        let pv = p@;
                        assert forall|q: Seq<char>|
                            (fuzzy_cand_upto(*store, terms@, q, w as int, i as int) || (exists|
                                jj: int,
                            |
                                0 <= jj < j + 1 && (
                                #[trigger] store.tokens@[i as int].1@[jj])@ == q))
                                && fuzzy_result_score(terms@, q) >= SCORE_FLOOR as int implies #[trigger] path_listed(
                            out@,
                            q,
                        ) by {
                            let fresh_case = !fuzzy_cand_upto(
                                *store,
                                terms@,
                                q,
                                w as int,
                                i as int,
                            ) && !(exists|jj: int|
                                0 <= jj < j && (
                                #[trigger] store.tokens@[i as int].1@[jj])@ == q);
                            if fresh_case {
                                let jj = choose|jj: int|
                                    0 <= jj < j + 1 && (
                                    #[trigger] store.tokens@[i as int].1@[jj])@ == q;
                                assert(jj == j);
                                assert(q == pv);
                                if already {
                                    assert(path_listed(prev_out, q));
                                    let x = choose|x: int|
                                        0 <= x < prev_out.len() && (
                                        #[trigger] prev_out[x]).path@ == q;
                                    assert(out@[x] == prev_out[x]);
                                } else {
                                    assert(ps >= SCORE_FLOOR);
                                    assert(out@[out@.len() - 1].path@ == pv);
                                }
                            } else {
                                assert(path_listed(prev_out, q));
                                let x = choose|x: int|
                                    0 <= x < prev_out.len() && (#[trigger] prev_out[x]).path@
                                        == q;
                                assert(out@[x] == prev_out[x]);
                            }
                        }
                    }
                    j += 1;
                }
                proof {
                    assert forall|p: Seq<char>|
                        fuzzy_cand_upto(*store, terms@, p, w as int, i + 1)
                            && fuzzy_result_score(terms@, p) >= SCORE_FLOOR as int implies #[trigger] path_listed(
                        out@,
                        p,
                    ) by {
                        if !fuzzy_cand_upto(*store, terms@, p, w as int, i as int) {
                            let (w2, i2) = choose|w2: int, i2: int|
                                (w2 < w || (w2 == w && i2 < i + 1))
                                    && #[trigger] fuzzy_trigger(*store, terms@, p, w2, i2);
                            assert(i2 == i);
                            assert(path_in(store.tokens@[i as int].1@, p));
                        }
                    }
                }
            } else {
                proof {
                    assert forall|p: Seq<char>|
                        fuzzy_cand_upto(*store, terms@, p, w as int, i + 1)
                            && fuzzy_result_score(terms@, p) >= SCORE_FLOOR as int implies #[trigger] path_listed(
                        out@,
                        p,
                    ) by {
                        if !fuzzy_cand_upto(*store, terms@, p, w as int, i as int) {
                            let (w2, i2) = choose|w2: int, i2: int|
                                (w2 < w || (w2 == w && i2 < i + 1))
                                    && #[trigger] fuzzy_trigger(*store, terms@, p, w2, i2);
                            assert(i2 == i);
                            assert(false);
                        }
                    }
                }
            }
            i += 1;
        }
        proof {
            assert forall|p: Seq<char>|
                fuzzy_cand_upto(*store, terms@, p, w + 1, 0) && fuzzy_result_score(terms@, p)
                    >= SCORE_FLOOR as int implies #[trigger] path_listed(out@, p) by {
                let (w2, i2) = choose|w2: int, i2: int|
                    (w2 < w + 1 || (w2 == w + 1 && i2 < 0)) && #[trigger] fuzzy_trigger(
                        *store,
                        terms@,
                        p,
                        w2,
                        i2,
                    );
                assert(fuzzy_cand_upto(*store, terms@, p, w as int, store.tokens@.len() as int));
            }
        }
        w += 1;
    }
    proof {
        assert forall|p: Seq<char>|
            fuzzy_candidate(*store, terms@, p) && fuzzy_result_score(terms@, p)
                >= SCORE_FLOOR as int implies #[trigger] path_listed(out@, p) by {
            let (w2, i2) = choose|w2: int, i2: int| #[trigger] fuzzy_trigger(
                *store,
                terms@,
                p,
                w2,
                i2,
            );
            assert(fuzzy_cand_upto(*store, terms@, p, terms@.len() as int, 0));
        }
    }
    out
}

/// Regex candidates over tokens before `ilim`.
pub open spec fn regex_cand_upto(
    store: IndexStore,
    pat: Seq<char>,
    p: Seq<char>,
    ilim: int,
) -> bool {
    exists|i: int| i < ilim && #[trigger] regex_trigger(store, pat, p, i)
}

/// Gathers every regex-mode candidate above the floor; an invalid pattern
/// yields nothing.
fn collect_regex(store: &IndexStore, pat: &String) -> (out: Vec<ScoredResult>)
    requires
        store.wf(),
    ensures
        forall|x: int|
            0 <= x < out@.len() ==> regex_valid(pat@) && regex_candidate(
                *store,
                pat@,
                (#[trigger] out@[x]).path@,
            ) && out@[x].score as int == regex_path_score(pat@, lower_of(base_of(out@[x].path@)))
                && out@[x].score >= SCORE_FLOOR && out@[x].score <= SCORE_SCALE,
        forall|x: int, y: int|
            0 <= x < y < out@.len() ==> (#[trigger] out@[x]).path@ != (#[trigger] out@[y]).path@,
        forall|p: Seq<char>|
            regex_valid(pat@) && regex_candidate(*store, pat@, p) && regex_path_score(
                pat@,
                lower_of(base_of(p)),
            ) >= SCORE_FLOOR as int ==> #[trigger] path_listed(out@, p),
{
    let mut out: Vec<ScoredResult> = Vec::new();
    match regex_match_str(pat.as_str(), "") {
        None => {
            return out;
        },
        Some(_) => {},
    }
    let mut i: usize = 0;
    while i < store.tokens.len()
        invariant
            i <= store.tokens@.len(),
            store.wf(),
            regex_valid(pat@),
            forall|x: int|
                0 <= x < out@.len() ==> regex_candidate(
                    *store,
                    pat@,
                    (#[trigger] out@[x]).path@,
                ) && out@[x].score as int == regex_path_score(
                    pat@,
                    lower_of(base_of(out@[x].path@)),
                ) && out@[x].score >= SCORE_FLOOR && out@[x].score <= SCORE_SCALE,
            forall|x: int, y: int|
                0 <= x < y < out@.len() ==> (#[trigger] out@[x]).path@ != (
                #[trigger] out@[y]).path@,
            forall|p: Seq<char>|
                regex_cand_upto(*store, pat@, p, i as int) && regex_path_score(
                    pat@,
                    lower_of(base_of(p)),
                ) >= SCORE_FLOOR as int ==> #[trigger] path_listed(out@, p),
        decreases store.tokens@.len() - i,
    {
        let matched = match regex_match_str(pat.as_str(), store.tokens[i].0.as_str()) {
            Some(b) => b,
            None => false,
        };
        if matched {
            let mut j: usize = 0;
            while j < store.tokens[i].1.len()
                invariant
                    i < store.tokens@.len(),
                    j <= store.tokens@[i as int].1@.len(),
                    store.wf(),
                    regex_valid(pat@),
                    regex_matches(pat@, store.tokens@[i as int].0@),
                    forall|x: int|
                        0 <= x < out@.len() ==> regex_candidate(
                            *store,
                            pat@,
                            (#[trigger] out@[x]).path@,
                        ) && out@[x].score as int == regex_path_score(
                            pat@,
                            lower_of(base_of(out@[x].path@)),
                        ) && out@[x].score >= SCORE_FLOOR && out@[x].score <= SCORE_SCALE,
                    forall|x: int, y: int|
                        0 <= x < y < out@.len() ==> (#[trigger] out@[x]).path@ != (
                        #[trigger] out@[y]).path@,
                    forall|p: Seq<char>|
                        (regex_cand_upto(*store, pat@, p, i as int) || (exists|jj: int|
                            0 <= jj < j && (#[trigger] store.tokens@[i as int].1@[jj])@ == p))
                            && regex_path_score(pat@, lower_of(base_of(p)))
                            >= SCORE_FLOOR as int ==> #[trigger] path_listed(out@, p),
                decreases store.tokens@[i as int].1@.len() - j,
            {
                let p = &store.tokens[i].1[j];
                let ghost prev_out = out@;
                let already = result_contains(&out, p);
                let bn = base_name(p.as_str());
                let fl = lowercase(bn.as_str());
                let rs = match regex_score_check(pat.as_str(), &fl) {
                    Some(v) => v,
                    None => 0,
                };
                if !already && rs >= SCORE_FLOOR {
                    proof {
                        assert(regex_trigger(*store, pat@, p@, i as int));
                    }
                    out.push(ScoredResult { path: p.clone(), score: rs });
                }
                proof {
                    let pv = p@;
                    assert forall|q: Seq<char>|
                        (regex_cand_upto(*store, pat@, q, i as int) || (exists|jj: int|
                            0 <= jj < j + 1 && (#[trigger] store.tokens@[i as int].1@[jj])@
                                == q)) && regex_path_score(pat@, lower_of(base_of(q)))
                            >= SCORE_FLOOR as int implies #[trigger] path_listed(out@, q) by {
                        let fresh_case = !regex_cand_upto(*store, pat@, q, i as int) && !(exists|
                            jj: int,
                        |
                            0 <= jj < j && (#[trigger] store.tokens@[i as int].1@[jj])@ == q);
                        if fresh_case {
                            let jj = choose|jj: int|
                                0 <= jj < j + 1 && (
                                #[trigger] store.tokens@[i as int].1@[jj])@ == q;
                            assert(jj == j);
                            assert(q == pv);
                            if already {
                                assert(path_listed(prev_out, q));
                                let x = choose|x: int|
                                    0 <= x < prev_out.len() && (#[trigger] prev_out[x]).path@
                                        == q;
                                assert(out@[x] == prev_out[x]);
                            } else {
                                assert(rs >= SCORE_FLOOR);
                                assert(out@[out@.len() - 1].path@ == pv);
                            }
                        } else {
                            assert(path_listed(prev_out, q));
                            let x = choose|x: int|
                                0 <= x < prev_out.len() && (#[trigger] prev_out[x]).path@ == q;
                            assert(out@[x] == prev_out[x]);
                        }
                    }
                }
                j += 1;
            }
            proof {
                assert forall|p: Seq<char>|
                    regex_cand_upto(*store, pat@, p, i + 1) && regex_path_score(
                        pat@,
                        lower_of(base_of(p)),
                    ) >= SCORE_FLOOR as int implies #[trigger] path_listed(out@, p) by {
                    if !regex_cand_upto(*store, pat@, p, i as int) {
                        let i2 = choose|i2: int|
                            i2 < i + 1 && #[trigger] regex_trigger(*store, pat@, p, i2);
                        assert(i2 == i);
                        assert(path_in(store.tokens@[i as int].1@, p));
                    }
                }
            }
        } else {
            proof {
                assert forall|p: Seq<char>|
                    regex_cand_upto(*store, pat@, p, i + 1) && regex_path_score(
                        pat@,
                        lower_of(base_of(p)),
                    ) >= SCORE_FLOOR as int implies #[trigger] path_listed(out@, p) by {
                    if !regex_cand_upto(*store, pat@, p, i as int) {
                        let i2 = choose|i2: int|
                            i2 < i + 1 && #[trigger] regex_trigger(*store, pat@, p, i2);
                        assert(i2 == i);
                        assert(false);
                    }
                }
            }
        }
        i += 1;
    }
    proof {
        assert forall|p: Seq<char>|
            regex_valid(pat@) && regex_candidate(*store, pat@, p) && regex_path_score(
                pat@,
                lower_of(base_of(p)),
            ) >= SCORE_FLOOR as int implies #[trigger] path_listed(out@, p) by {
            let i2 = choose|i2: int| #[trigger] regex_trigger(*store, pat@, p, i2);
            assert(regex_cand_upto(*store, pat@, p, store.tokens@.len() as int));
        }
    }
    out
}

/// `e` is one of the first `bound` elements of `inp`.
pub open spec fn from_input(inp: Seq<ScoredResult>, bound: int, e: ScoredResult) -> bool {
    exists|y: int| 0 <= y < bound && e == #[trigger] inp[y]
}

/// Sorts results by descending score, keeping exactly the same hits.
fn sort_desc(input: Vec<ScoredResult>) -> (r: Vec<ScoredResult>)
    requires
        forall|x: int, y: int|
            0 <= x < y < input@.len() ==> (#[trigger] input@[x]).path@ != (
            #[trigger] input@[y]).path@,
    ensures
        r@.len() == input@.len(),
        forall|x: int, y: int|
            0 <= x < y < r@.len() ==> (#[trigger] r@[x]).score >= (#[trigger] r@[y]).score,
        forall|p: Seq<char>| #[trigger] path_listed(r@, p) == path_listed(input@, p),
        forall|x: int|
            0 <= x < r@.len() ==> from_input(input@, input@.len() as int, #[trigger] r@[x]),
        forall|x: int, y: int|
            0 <= x < y < r@.len() ==> (#[trigger] r@[x]).path@ != (#[trigger] r@[y]).path@,
{
    let mut out: Vec<ScoredResult> = Vec::new();
    let mut idx: usize = 0;
    while idx < input.len()
        invariant
            idx <= input@.len(),
            out@.len() == idx,
            forall|x: int, y: int|
                0 <= x < y < input@.len() ==> (#[trigger] input@[x]).path@ != (
                #[trigger] input@[y]).path@,
            forall|x: int, y: int|
                0 <= x < y < out@.len() ==> (#[trigger] out@[x]).score >= (
                #[trigger] out@[y]).score,
            forall|p: Seq<char>|
                #[trigger] path_listed(out@, p) == path_listed(input@.subrange(0, idx as int), p),
            forall|x: int|
                0 <= x < out@.len() ==> from_input(input@, idx as int, #[trigger] out@[x]),
            forall|x: int, y: int|
                0 <= x < y < out@.len() ==> (#[trigger] out@[x]).path@ != (
                #[trigger] out@[y]).path@,
        decreases input@.len() - idx,
    {
        let ghost prev = out@;
        let ghost prefix = input@.subrange(0, idx as int);
        let e = ScoredResult { path: input[idx].path.clone(), score: input[idx].score };
        proof {
            assert(e == input@[idx as int]);
            if path_listed(prev, e.path@) {
                assert(path_listed(prefix, e.path@));
                let y = choose|y: int|
                    0 <= y < prefix.len() && (#[trigger] prefix[y]).path@ == e.path@;
                assert(input@[y].path@ == input@[idx as int].path@);
                assert(false);
            }
        }
        let mut pos: usize = 0;
        while pos < out.len() && out[pos].score >= e.score
            invariant
                pos <= out@.len(),
                forall|a: int| 0 <= a < pos ==> (#[trigger] out@[a]).score >= e.score,
            decreases out@.len() - pos,
        {
            pos += 1;
        }
        out.insert(pos, e);
        proof {
            let cur = out@;
            assert(cur == prev.insert(pos as int, e));
            assert(forall|a: int| 0 <= a < pos ==> cur[a] == prev[a]);
            assert(forall|a: int| pos < a < cur.len() ==> cur[a] == prev[a - 1]);
            assert(cur[pos as int] == e);
            assert forall|a: int, b: int| 0 <= a < b < cur.len() implies (
            #[trigger] cur[a]).score >= (#[trigger] cur[b]).score by {
                if a == pos {
                    assert(cur[b] == prev[b - 1]);
                    assert(prev[b - 1].score < e.score || b - 1 >= pos);
                } else if b == pos {
                    assert(cur[a] == prev[a]);
                } else {
                }
            }
            assert forall|p: Seq<char>| #[trigger] path_listed(cur, p) == path_listed(
                input@.subrange(0, idx + 1),
                p,
            ) by {
                assert(input@.subrange(0, idx + 1) =~= prefix.push(input@[idx as int]));
                if path_listed(cur, p) {
                    let x = choose|x: int|
                        0 <= x < cur.len() && (#[trigger] cur[x]).path@ == p;
                    if x == pos {
                        assert(input@.subrange(0, idx + 1)[idx as int].path@ == p);
                    } else {
                        let ox = if x < pos {
                            x
                        } else {
                            x - 1
                        };
                        assert(prev[ox].path@ == p);
                        assert(path_listed(prev, p));
                        assert(path_listed(prefix, p));
                        let y = choose|y: int|
                            0 <= y < prefix.len() && (#[trigger] prefix[y]).path@ == p;
                        assert(input@.subrange(0, idx + 1)[y].path@ == p);
                    }
                }
                if path_listed(input@.subrange(0, idx + 1), p) {
                    let y = choose|y: int|
                        0 <= y < idx + 1 && (#[trigger] input@.subrange(0, idx + 1)[y]).path@
                            == p;
                    if y == idx {
                        assert(cur[pos as int].path@ == p);
                    } else {
                        assert(prefix[y].path@ == p);
                        assert(path_listed(prev, p));
                        let x = choose|x: int|
                            0 <= x < prev.len() && (#[trigger] prev[x]).path@ == p;
                        let cx = if x < pos {
                            x
                        } else {
                            x + 1
                        };
                        assert(cur[cx] == prev[x]);
                    }
                }
            }
            assert forall|a: int, b: int| 0 <= a < b < cur.len() implies (
            #[trigger] cur[a]).path@ != (#[trigger] cur[b]).path@ by {
                if a == pos {
                    assert(cur[b] == prev[b - 1]);
                    if cur[b].path@ == e.path@ {
                        assert(path_listed(prev, e.path@));
                        assert(false);
                    }
                } else if b == pos {
                    assert(cur[a] == prev[a]);
                    if cur[a].path@ == e.path@ {
                        assert(path_listed(prev, e.path@));
                        assert(false);
                    }
                } else {
                }
            }
            assert forall|x: int| 0 <= x < cur.len() implies from_input(
                input@,
                idx + 1,
                #[trigger] cur[x],
            ) by {
                if x == pos {
                    assert(cur[x] == input@[idx as int]);
                } else {
                    let ox = if x < pos {
                        x
                    } else {
                        x - 1
                    };
                    assert(cur[x] == prev[ox]);
                    assert(from_input(input@, idx as int, prev[ox]));
                    let y = choose|y: int| 0 <= y < idx && prev[ox] == #[trigger] input@[y];
                    assert(cur[x] == input@[y]);
                }
            }
        }
        idx += 1;
    }
    proof {
        assert(input@.subrange(0, input@.len() as int) =~= input@);
        assert forall|x: int| 0 <= x < out@.len() implies from_input(
            input@,
            input@.len() as int,
            #[trigger] out@[x],
        ) by {
            assert(from_input(input@, idx as int, out@[x]));
            let y = choose|y: int| 0 <= y < idx && out@[x] == #[trigger] input@[y];
            assert(out@[x] == input@[y]);
        }
    }
    out
}

/// Ranked search over the Index Store.  One term wrapped in `/.../` runs in
/// regex mode on the interior pattern; anything else, a bare `/` included,
/// runs in fuzzy mode.
/// Results are deduplicated by path, scored exactly, sorted by descending
/// score and cut to `MAX_RESULTS`; everything at or above the floor is kept
/// unless the cut drops it behind equally-or-better-scored hits.
pub fn search_files(store: &IndexStore, terms: &Vec<String>) -> (r: Vec<ScoredResult>)
    requires
        store.wf(),
    ensures
        r@.len() <= MAX_RESULTS,
        forall|x: int|
            0 <= x < r@.len() ==> in_result_set(*store, terms@, (#[trigger] r@[x]).path@) && (
            #[trigger] r@[x]).score as int == result_score(terms@, r@[x].path@) && r@[x].score
                <= SCORE_SCALE,
        forall|x: int, y: int|
            0 <= x < y < r@.len() ==> (#[trigger] r@[x]).path@ != (#[trigger] r@[y]).path@,
        forall|x: int, y: int|
            0 <= x < y < r@.len() ==> (#[trigger] r@[x]).score >= (#[trigger] r@[y]).score,
        forall|p: Seq<char>|
            #[trigger] in_result_set(*store, terms@, p) ==> path_listed(r@, p) || (r@.len()
                == MAX_RESULTS && result_score(terms@, p) <= r@[MAX_RESULTS - 1].score),
{
    let regex_mode = terms.len() == 1 && terms[0].as_str().unicode_len() >= 2 && terms[0]
        .as_str()
        .get_char(0) == '/' && terms[0].as_str().get_char(
        terms[0].as_str().unicode_len() - 1,
    ) == '/';
    proof {
        assert(regex_mode == is_regex_query(terms@));
    }
    let scored = if regex_mode {
        let first = &terms[0];
        let n = first.as_str().unicode_len();
        let pat = first.as_str().substring_char(1, n - 1).to_owned();
        proof {
            assert(pat@ == pattern_of(terms@));
        }
        collect_regex(store, &pat)
    } else {
        collect_fuzzy(store, terms)
    };
    proof {
        assert forall|x: int|
            0 <= x < scored@.len() implies in_result_set(
            *store,
            terms@,
            (#[trigger] scored@[x]).path@,
        ) && (#[trigger] scored@[x]).score as int == result_score(terms@, scored@[x].path@)
            && (#[trigger] scored@[x]).score <= SCORE_SCALE by {
        }
        assert forall|p: Seq<char>| #[trigger] in_result_set(*store, terms@, p) implies path_listed(
            scored@,
            p,
        ) by {
        }
    }
    let mut sorted = sort_desc(scored);
    let ghost full = sorted@;
    if sorted.len() > MAX_RESULTS {
        sorted.truncate(MAX_RESULTS);
    }
    proof {
        if full.len() > MAX_RESULTS {
            assert(sorted@ == full.subrange(0, MAX_RESULTS as int));
        } else {
            assert(sorted@ == full);
        }
        assert forall|x: int| 0 <= x < sorted@.len() implies in_result_set(
            *store,
            terms@,
            (#[trigger] sorted@[x]).path@,
        ) && (#[trigger] sorted@[x]).score as int == result_score(
            terms@,
            sorted@[x].path@,
        ) && (#[trigger] sorted@[x]).score <= SCORE_SCALE by {
            assert(sorted@[x] == full[x]);
            assert(from_input(scored@, scored@.len() as int, full[x]));
            let y = choose|y: int| 0 <= y < scored@.len() && full[x] == #[trigger] scored@[y];
            assert(in_result_set(*store, terms@, scored@[y].path@));
        }
        assert forall|p: Seq<char>| #[trigger] in_result_set(*store, terms@, p) implies path_listed(
            sorted@,
            p,
        ) || (sorted@.len() == MAX_RESULTS && result_score(terms@, p) <= sorted@[MAX_RESULTS
            - 1].score) by {
            assert(path_listed(scored@, p));
            assert(path_listed(full, p));
            let x = choose|x: int| 0 <= x < full.len() && (#[trigger] full[x]).path@ == p;
            if x < MAX_RESULTS {
                assert(sorted@[x] == full[x]);
                assert(path_listed(sorted@, p));
            } else {
                assert(full.len() > MAX_RESULTS);
                assert(full[x].score <= full[MAX_RESULTS - 1].score);
                assert(from_input(scored@, scored@.len() as int, full[x]));
                let y = choose|y: int|
                    0 <= y < scored@.len() && full[x] == #[trigger] scored@[y];
                assert(full[x].score as int == result_score(terms@, p));
                assert(sorted@[MAX_RESULTS - 1] == full[MAX_RESULTS - 1]);
            }
        }
    }
    sorted
}

} // verus!
