//! Edit distance and the normalized similarity score built on it.
//!
//! `edit_dist` is the mathematical Levenshtein distance over character
//! sequences; `edit_distance` computes it by dynamic programming over
//! suffixes, and `similarity_scaled` turns it into the fixed-point
//! similarity `1 - d / max(|a|, |b|)` used for ranking.

use vstd::prelude::*;

use crate::SCORE_SCALE;

verus! {

/// The smaller of two naturals.
pub open spec fn nmin(x: nat, y: nat) -> nat {
    if x <= y {
        x
    } else {
        y
    }
}

/// The larger of two naturals.
pub open spec fn nmax(x: nat, y: nat) -> nat {
    if x >= y {
        x
    } else {
        y
    }
}

/// Levenshtein distance: the least number of single-character insertions,
/// deletions and substitutions that turn `a` into `b`.
pub open spec fn edit_dist(a: Seq<char>, b: Seq<char>) -> nat
    decreases a.len() + b.len(),
{
    if a.len() == 0 {
        b.len()
    } else if b.len() == 0 {
        a.len()
    } else {
        let tail = edit_dist(a.skip(1), b.skip(1)) + (if a[0] == b[0] {
            0nat
        } else {
            1nat
        });
        nmin(nmin(edit_dist(a.skip(1), b) + 1, edit_dist(a, b.skip(1)) + 1), tail)
    }
}

/// The distance never exceeds the longer length.
pub proof fn lemma_edit_dist_le_max(a: Seq<char>, b: Seq<char>)
    ensures
        edit_dist(a, b) <= nmax(a.len(), b.len()),
    decreases a.len() + b.len(),
{
    if a.len() > 0 && b.len() > 0 {
        lemma_edit_dist_le_max(a.skip(1), b.skip(1));
    }
}

/// The recurrence over suffixes `a[i..]` and `b[j..]`.
proof fn lemma_edit_dist_step(a: Seq<char>, b: Seq<char>, i: int, j: int)
    requires
        0 <= i < a.len(),
        0 <= j < b.len(),
    ensures
        edit_dist(a.skip(i), b.skip(j)) == nmin(
            nmin(
                edit_dist(a.skip(i + 1), b.skip(j)) + 1,
                edit_dist(a.skip(i), b.skip(j + 1)) + 1,
            ),
            edit_dist(a.skip(i + 1), b.skip(j + 1)) + (if a[i] == b[j] {
                0nat
            } else {
                1nat
            }),
        ),
{
    assert(a.skip(i).skip(1) =~= a.skip(i + 1));
    assert(b.skip(j).skip(1) =~= b.skip(j + 1));
    assert(a.skip(i)[0] == a[i]);
    assert(b.skip(j)[0] == b[j]);
}

/// Core dynamic program over suffixes of two character vectors.
fn edit_dist_chars(a: &Vec<char>, b: &Vec<char>) -> (d: usize)
    ensures
        d == edit_dist(a@, b@),
{
    let an = a.len();
    let bn = b.len();
    // row for i == an: distance from the empty suffix of `a`
    let mut row: Vec<u128> = Vec::new();
    let mut j: usize = 0;
    loop
        invariant_except_break
            j <= bn,
            bn == b@.len(),
            row@.len() == j,
            forall|k: int| 0 <= k < j ==> row@[k] == bn - k,
        ensures
            row@.len() == bn + 1,
            forall|k: int| 0 <= k <= bn ==> row@[k] == bn - k,
        decreases bn - j,
    {
        row.push((bn - j) as u128);
        if j == bn {
            break;
        }
        j += 1;
    }
    proof {
        assert forall|k: int| 0 <= k <= bn implies row@[k] == edit_dist(
            a@.skip(an as int),
            b@.skip(k),
        ) by {
            assert(a@.skip(an as int).len() == 0);
            assert(b@.skip(k).len() == bn - k);
        }
    }
    let mut i: usize = an;
    while i > 0
        invariant
            i <= an,
            an == a@.len(),
            bn == b@.len(),
            row@.len() == bn + 1,
            forall|k: int|
                0 <= k <= bn ==> row@[k] == edit_dist(a@.skip(i as int), b@.skip(k)),
        decreases i,
    {
        let ni = i - 1;
        let mut next: Vec<u128> = Vec::new();
        next.push((an - ni) as u128);
        proof {
            assert(b@.skip(bn as int).len() == 0);
            assert(a@.skip(ni as int).len() == an - ni);
            assert(next@[0] == edit_dist(a@.skip(ni as int), b@.skip(bn as int)));
        }
        // `next` is built from column bn downward, so it is kept reversed:
        // next[t] == edit_dist(a[ni..], b[(bn - t)..])
        let mut j: usize = bn;
        while j > 0
            invariant
                j <= bn,
                an == a@.len(),
                bn == b@.len(),
                0 <= ni < an,
                i == ni + 1,
                row@.len() == bn + 1,
                forall|k: int|
                    0 <= k <= bn ==> row@[k] == edit_dist(a@.skip(ni + 1), b@.skip(k)),
                next@.len() == bn - j + 1,
                forall|t: int|
                    0 <= t <= bn - j ==> next@[t] == edit_dist(
                        a@.skip(ni as int),
                        b@.skip(bn - t),
                    ),
            decreases j,
        {
            let nj = j - 1;
            proof {
                lemma_edit_dist_step(a@, b@, ni as int, nj as int);
                lemma_edit_dist_le_max(a@.skip(ni + 1), b@.skip(nj as int));
                lemma_edit_dist_le_max(a@.skip(ni as int), b@.skip(nj + 1));
                lemma_edit_dist_le_max(a@.skip(ni + 1), b@.skip(nj + 1));
            }
            let del: u128 = row[nj] + 1;
            let ins: u128 = next[bn - nj - 1] + 1;
            let cost: u128 = if a[ni] == b[nj] {
                0
            } else {
                1
            };
            let sub: u128 = row[nj + 1] + cost;
            let mut best = if del <= ins {
                del
            } else {
                ins
            };
            if sub < best {
                best = sub;
            }
            next.push(best);
            j -= 1;
        }
        // un-reverse `next` into `row`
        let mut fresh: Vec<u128> = Vec::new();
        let mut k: usize = 0;
        loop
            invariant_except_break
                k <= bn,
                an == a@.len(),
                bn == b@.len(),
                0 <= ni < an,
                next@.len() == bn + 1,
                forall|t: int|
                    0 <= t <= bn ==> next@[t] == edit_dist(a@.skip(ni as int), b@.skip(bn - t)),
                fresh@.len() == k,
                forall|t: int|
                    0 <= t < k ==> fresh@[t] == edit_dist(a@.skip(ni as int), b@.skip(t)),
            ensures
                fresh@.len() == bn + 1,
                forall|t: int|
                    0 <= t <= bn ==> fresh@[t] == edit_dist(a@.skip(ni as int), b@.skip(t)),
            decreases bn - k,
        {
            fresh.push(next[bn - k]);
            if k == bn {
                break;
            }
            k += 1;
        }
        row = fresh;
        i = ni;
    }
    proof {
        assert(a@.skip(0) =~= a@);
        assert(b@.skip(0) =~= b@);
        lemma_edit_dist_le_max(a@, b@);
    }
    row[0] as usize
}

/// Collects the characters of `s` into a vector.
fn chars_of(s: &str) -> (r: Vec<char>)
    ensures
        r@ == s@,
{
    let n = s.unicode_len();
    let mut r: Vec<char> = Vec::new();
    let mut i: usize = 0;
    while i < n
        invariant
            i <= n,
            n == s@.len(),
            r@ == s@.subrange(0, i as int),
        decreases n - i,
    {
        r.push(s.get_char(i));
        proof {
            assert(r@ =~= s@.subrange(0, i + 1));
        }
        i += 1;
    }
    proof {
        assert(r@ =~= s@);
    }
    r
}

/// Levenshtein distance between two strings.
pub fn edit_distance(a: &str, b: &str) -> (d: usize)
    ensures
        d == edit_dist(a@, b@),
{
    let av = chars_of(a);
    let bv = chars_of(b);
    edit_dist_chars(&av, &bv)
}

/// The ASCII lowercase mapping of one character.
pub open spec fn ascii_lower_char(c: char) -> char {
    if 'A' <= c && c <= 'Z' {
        (((c as u32) + 32) as char)
    } else {
        c
    }
}

/// The ASCII lowercase mapping of a character sequence.
pub open spec fn ascii_lower(s: Seq<char>) -> Seq<char> {
    s.map_values(|c: char| ascii_lower_char(c))
}

/// Lowercases one ASCII letter, leaving every other character alone.
pub fn to_ascii_lower(c: char) -> (r: char)
    ensures
        r == ascii_lower_char(c),
{
    let u = c as u32;
    if 65 <= u && u <= 90 {
        proof {
            vstd::utf8::char_u32_cast(c, u);
        }
        ((u + 32) as u8) as char
    } else {
        c
    }
}

/// Collects the ASCII-lowercased characters of `s`.
fn chars_lower(s: &str) -> (r: Vec<char>)
    ensures
        r@ == ascii_lower(s@),
{
    let n = s.unicode_len();
    let mut r: Vec<char> = Vec::new();
    let mut i: usize = 0;
    while i < n
        invariant
            i <= n,
            n == s@.len(),
            r@ == ascii_lower(s@.subrange(0, i as int)),
        decreases n - i,
    {
        r.push(to_ascii_lower(s.get_char(i)));
        proof {
            assert(r@ =~= ascii_lower(s@.subrange(0, i + 1)));
        }
        i += 1;
    }
    proof {
        assert(s@.subrange(0, n as int) =~= s@);
    }
    r
}

/// Levenshtein distance after ASCII-lowercasing both inputs, the
/// case-insensitive distance the name lookups rank by.
pub fn levenshtein_distance(s1: &str, s2: &str) -> (d: usize)
    ensures
        d == edit_dist(ascii_lower(s1@), ascii_lower(s2@)),
{
    let av = chars_lower(s1);
    let bv = chars_lower(s2);
    edit_dist_chars(&av, &bv)
}

/// Similarity of `a` and `b` on the fixed-point scale:
/// `(1 - distance / max_len) * SCORE_SCALE`, rounded down; two empty
/// strings count as identical.
pub open spec fn sim_scaled(a: Seq<char>, b: Seq<char>) -> int {
    let m = nmax(a.len(), b.len());
    if m == 0 {
        SCORE_SCALE as int
    } else {
        (m - edit_dist(a, b)) * (SCORE_SCALE as int) / (m as int)
    }
}

/// The similarity never exceeds the scale.
pub proof fn lemma_sim_scaled_range(a: Seq<char>, b: Seq<char>)
    ensures
        0 <= sim_scaled(a, b) <= SCORE_SCALE,
{
    let m = nmax(a.len(), b.len());
    if m > 0 {
        lemma_edit_dist_le_max(a, b);
        let x = m - edit_dist(a, b);
        assert(0 <= x <= m);
        assert(x * (SCORE_SCALE as int) <= m * (SCORE_SCALE as int)) by (nonlinear_arith)
            requires
                0 <= x <= m,
        ;
        assert(0 <= x * (SCORE_SCALE as int) / (m as int)) by (nonlinear_arith)
            requires
                0 <= x,
                m > 0,
        ;
        assert(x * (SCORE_SCALE as int) / (m as int) <= SCORE_SCALE) by (nonlinear_arith)
            requires
                0 <= x <= m,
                m > 0,
        ;
    }
}

/// Fixed-point similarity of two strings.
pub fn similarity_scaled(a: &str, b: &str) -> (r: u64)
    ensures
        r == sim_scaled(a@, b@),
        r <= SCORE_SCALE,
{
    proof {
        lemma_sim_scaled_range(a@, b@);
    }
    let an = a.unicode_len();
    let bn = b.unicode_len();
    let m = if an >= bn {
        an
    } else {
        bn
    };
    if m == 0 {
        return SCORE_SCALE;
    }
    let d = edit_distance(a, b);
    proof {
        lemma_edit_dist_le_max(a@, b@);
    }
    let num = (m - d) as u128 * (SCORE_SCALE as u128);
    let q = num / (m as u128);
    proof {
        assert(q == sim_scaled(a@, b@));
    }
    q as u64
}

} // verus!
