//! Character and string groundwork: case folding, character classes,
//! substring tests, lexicographic ordering, and path-name splitting.
//!
//! Everything here works on `Seq<char>` views.  The two Unicode-table
//! operations (case folding and the alphanumeric class) are taken on trust
//! from the standard library; the rest is verified.

use vstd::prelude::*;

verus! {

/// The sequence of characters that `str::to_lowercase` returns for `s`.
/// The result depends on the characters of `s` alone.
pub uninterp spec fn lower_of(s: Seq<char>) -> Seq<char>;

/// Whether `char::is_alphanumeric` holds of `c`.
pub uninterp spec fn is_alnum(c: char) -> bool;

/// Relies on str::to_lowercase: the Unicode lowercase mapping of the
/// characters of `s`, and nothing else; an empty string stays empty.
#[verifier::external_body]
pub(crate) fn lowercase(s: &str) -> (r: String)
    ensures
        r@ == lower_of(s@),
        s@.len() == 0 ==> r@.len() == 0,
{
    s.to_lowercase()
}

/// Relies on char::is_alphanumeric: membership of `c` in the Unicode
/// Alphabetic, Nd, Nl or No classes, a function of `c` alone.
#[verifier::external_body]
pub(crate) fn alnum_char(c: char) -> (r: bool)
    ensures
        r == is_alnum(c),
{
    c.is_alphanumeric()
}

/// `needle` occurs in `hay` starting at position `i`.
pub open spec fn contains_at(hay: Seq<char>, needle: Seq<char>, i: int) -> bool {
    0 <= i && i + needle.len() <= hay.len() && hay.subrange(i, i + needle.len() as int)
        == needle
}

/// `needle` occurs somewhere in `hay`.
pub open spec fn seq_contains(hay: Seq<char>, needle: Seq<char>) -> bool {
    exists|i: int| contains_at(hay, needle, i)
}

/// `s` begins with `prefix`.
pub open spec fn seq_starts_with(s: Seq<char>, prefix: Seq<char>) -> bool {
    prefix.len() <= s.len() && s.subrange(0, prefix.len() as int) == prefix
}

/// Compares `needle` against `hay` at offset `i`.
fn match_at(hay: &str, needle: &str, i: usize) -> (r: bool)
    requires
        i + needle@.len() <= hay@.len(),
    ensures
        r == contains_at(hay@, needle@, i as int),
{
    let h = hay.unicode_len();
    let n = needle.unicode_len();
    let mut j: usize = 0;
    while j < n
        invariant
            j <= n,
            h == hay@.len(),
            n == needle@.len(),
            i + n <= h,
            forall|k: int| 0 <= k < j ==> hay@[i + k] == needle@[k],
        decreases n - j,
    {
        if hay.get_char(i + j) != needle.get_char(j) {
            assert(!contains_at(hay@, needle@, i as int)) by {
                if hay@.subrange(i as int, i + n) == needle@ {
                    assert(hay@.subrange(i as int, i + n)[j as int] == hay@[i + j]);
                }
            }
            return false;
        }
        j += 1;
    }
    assert(hay@.subrange(i as int, i + n) =~= needle@);
    true
}

/// Substring test: does `hay` contain `needle` anywhere?
pub fn str_contains(hay: &str, needle: &str) -> (r: bool)
    ensures
        r == seq_contains(hay@, needle@),
{
    let h = hay.unicode_len();
    let n = needle.unicode_len();
    if n > h {
        assert(forall|i: int| !contains_at(hay@, needle@, i));
        return false;
    }
    if n == 0 {
        assert(hay@.subrange(0, 0) =~= needle@);
        assert(contains_at(hay@, needle@, 0));
        return true;
    }
    let mut i: usize = 0;
    while i <= h - n
        invariant
            i <= h - n + 1,
            h == hay@.len(),
            n == needle@.len(),
            0 < n <= h,
            forall|k: int| 0 <= k < i ==> !contains_at(hay@, needle@, k),
        decreases h + 1 - i,
    {
        if match_at(hay, needle, i) {
            return true;
        }
        i += 1;
    }
    assert(forall|k: int| k >= i ==> !contains_at(hay@, needle@, k));
    false
}

/// Prefix test with an exact contract.
pub fn str_starts_with(s: &str, prefix: &str) -> (r: bool)
    ensures
        r == seq_starts_with(s@, prefix@),
{
    let n = prefix.unicode_len();
    if n > s.unicode_len() {
        return false;
    }
    match_at(s, prefix, 0)
}

/// Suffix test: does `s` end with `suffix`?
pub fn str_ends_with(s: &str, suffix: &str) -> (r: bool)
    ensures
        r == (suffix@.len() <= s@.len() && s@.subrange(
            s@.len() - suffix@.len(),
            s@.len() as int,
        ) == suffix@),
{
    let h = s.unicode_len();
    let n = suffix.unicode_len();
    if n > h {
        return false;
    }
    match_at(s, suffix, h - n)
}

/// Strict lexicographic order on character sequences, comparing Unicode
/// scalar values position by position; a proper prefix sorts first.
pub open spec fn lex_lt(a: Seq<char>, b: Seq<char>) -> bool
    decreases a.len(),
{
    if b.len() == 0 {
        false
    } else if a.len() == 0 {
        true
    } else if a[0] == b[0] {
        lex_lt(a.skip(1), b.skip(1))
    } else {
        (a[0] as u32) < (b[0] as u32)
    }
}

/// When two sequences agree on their first `i` characters, their order is
/// decided by what follows.
proof fn lemma_lex_skip(a: Seq<char>, b: Seq<char>, i: int)
    requires
        0 <= i <= a.len(),
        i <= b.len(),
        forall|k: int| 0 <= k < i ==> a[k] == b[k],
    ensures
        lex_lt(a, b) == lex_lt(a.skip(i), b.skip(i)),
    decreases i,
{
    if i > 0 {
        assert(a.len() > 0 && b.len() > 0);
        assert(a[0] == b[0]);
        lemma_lex_skip(a.skip(1), b.skip(1), i - 1);
        assert(a.skip(1).skip(i - 1) =~= a.skip(i));
        assert(b.skip(1).skip(i - 1) =~= b.skip(i));
    } else {
        assert(a.skip(0) =~= a);
        assert(b.skip(0) =~= b);
    }
}

/// Exactly one of `lex_lt(a, b)`, `a == b`, `lex_lt(b, a)` holds; this
/// proves the first disjunct that applies.
pub proof fn lemma_lex_total(a: Seq<char>, b: Seq<char>)
    ensures
        lex_lt(a, b) || lex_lt(b, a) || a == b,
        lex_lt(a, b) ==> !lex_lt(b, a) && a != b,
    decreases a.len(),
{
    if a.len() == 0 && b.len() == 0 {
        assert(a =~= b);
    } else if a.len() > 0 && b.len() > 0 {
        if a[0] == b[0] {
            lemma_lex_total(a.skip(1), b.skip(1));
            if a.skip(1) == b.skip(1) {
                assert(a.len() == b.len());
                assert forall|k: int| 0 <= k < a.len() implies a[k] == b[k] by {
                    if k >= 1 {
                        assert(a[k] == a.skip(1)[k - 1]);
                        assert(b[k] == b.skip(1)[k - 1]);
                    }
                }
                assert(a =~= b);
            }
            if a == b {
                assert(a.skip(1) =~= b.skip(1));
            }
        } else {
            if (a[0] as u32) == (b[0] as u32) {
                vstd::utf8::char_u32_cast(a[0], a[0] as u32);
                vstd::utf8::char_u32_cast(b[0], b[0] as u32);
                assert(false);
            }
        }
    }
}

/// Lexicographic order is transitive.
pub proof fn lemma_lex_trans(a: Seq<char>, b: Seq<char>, c: Seq<char>)
    requires
        lex_lt(a, b),
        lex_lt(b, c),
    ensures
        lex_lt(a, c),
    decreases a.len(),
{
    broadcast use vstd::utf8::char_u32_cast;

    if a.len() == 0 {
        assert(b.len() > 0);
        assert(c.len() > 0);
    } else {
        assert(b.len() > 0 && c.len() > 0);
        if a[0] == b[0] && b[0] == c[0] {
            lemma_lex_trans(a.skip(1), b.skip(1), c.skip(1));
        }
    }
}

/// Three-way comparison of two strings in lexicographic order.
pub fn str_lt(a: &str, b: &str) -> (r: bool)
    ensures
        r == lex_lt(a@, b@),
{
    let an = a.unicode_len();
    let bn = b.unicode_len();
    let mut i: usize = 0;
    while i < an && i < bn
        invariant
            an == a@.len(),
            bn == b@.len(),
            i <= an,
            i <= bn,
            forall|k: int| 0 <= k < i ==> a@[k] == b@[k],
        decreases an - i,
    {
        let ca = a.get_char(i);
        let cb = b.get_char(i);
        if ca != cb {
            proof {
                lemma_lex_skip(a@, b@, i as int);
            }
            return (ca as u32) < (cb as u32);
        }
        i += 1;
    }
    proof {
        lemma_lex_skip(a@, b@, i as int);
    }
    an < bn
}

/// Index of the last `/` in `s`, or `-1` when there is none.
pub open spec fn last_sep(s: Seq<char>) -> int
    decreases s.len(),
{
    if s.len() == 0 {
        -1
    } else if s[s.len() - 1] == '/' {
        s.len() - 1
    } else {
        last_sep(s.drop_last())
    }
}

/// The base name of a `/`-separated path: everything after the last
/// separator, or the whole string when there is none.
pub open spec fn base_of(s: Seq<char>) -> Seq<char> {
    s.subrange(last_sep(s) + 1, s.len() as int)
}

/// The path with its last component removed (empty when `s` has no `/`).
pub open spec fn dir_of(s: Seq<char>) -> Seq<char> {
    if last_sep(s) >= 0 {
        s.subrange(0, last_sep(s))
    } else {
        Seq::empty()
    }
}

/// What `last_sep` promises: it points at the rightmost separator.
pub proof fn lemma_last_sep(s: Seq<char>)
    ensures
        -1 <= last_sep(s) < s.len(),
        last_sep(s) >= 0 ==> s[last_sep(s)] == '/',
        forall|j: int| last_sep(s) < j < s.len() ==> s[j] != '/',
    decreases s.len(),
{
    if s.len() > 0 && s[s.len() - 1] != '/' {
        lemma_last_sep(s.drop_last());
        assert forall|j: int| last_sep(s) < j < s.len() implies s[j] != '/' by {
            if j < s.len() - 1 {
                assert(s.drop_last()[j] != '/');
                assert(s.drop_last()[j] == s[j]);
            }
        }
        if last_sep(s) >= 0 {
            assert(s.drop_last()[last_sep(s)] == s[last_sep(s)]);
        }
    }
}

/// Finds the position of the last `/` of `path`, if any.
pub fn last_slash(path: &str) -> (r: Option<usize>)
    ensures
        r is Some <==> last_sep(path@) >= 0,
        r is Some ==> r.unwrap() as int == last_sep(path@),
{
    let n = path.unicode_len();
    let mut i: usize = n;
    while i > 0
        invariant
            i <= n,
            n == path@.len(),
            forall|k: int| i <= k < n ==> path@[k] != '/',
        decreases i,
    {
        if path.get_char(i - 1) == '/' {
            proof {
                lemma_last_sep(path@);
                let ls = last_sep(path@);
                if ls < i - 1 {
                    assert(path@[i - 1] != '/');
                }
                if ls > i - 1 {
                    assert(path@[ls] != '/');
                }
            }
            return Some(i - 1);
        }
        i -= 1;
    }
    proof {
        lemma_last_sep(path@);
        let ls = last_sep(path@);
        if ls >= 0 {
            assert(path@[ls] != '/');
        }
    }
    None
}

/// The base name of `path` under the library's path model: the component
/// after the last `/`.
pub fn base_name(path: &str) -> (r: String)
    ensures
        r@ == base_of(path@),
{
    proof {
        lemma_last_sep(path@);
    }
    let n = path.unicode_len();
    match last_slash(path) {
        Some(p) => path.substring_char(p + 1, n).to_owned(),
        None => path.to_owned(),
    }
}

/// The name of the directory that holds `path`: the component between the
/// last two separators.
pub fn parent_name(path: &str) -> (r: String)
    ensures
        r@ == base_of(dir_of(path@)),
{
    proof {
        lemma_last_sep(path@);
    }
    match last_slash(path) {
        Some(p) => {
            let d = path.substring_char(0, p);
            base_name(d)
        },
        None => {
            let r = String::new();
            assert(r@ =~= base_of(dir_of(path@)));
            r
        },
    }
}

/// Whether `char::is_whitespace` holds of `c`.
pub uninterp spec fn is_space(c: char) -> bool;

/// Relies on char::is_whitespace: membership of `c` in the Unicode
/// White_Space class, a function of `c` alone.
#[verifier::external_body]
pub(crate) fn space_char(c: char) -> (r: bool)
    ensures
        r == is_space(c),
{
    c.is_whitespace()
}

/// Exact equality of two strings.
pub fn str_eq(a: &str, b: &str) -> (r: bool)
    ensures
        r == (a@ == b@),
{
    let an = a.unicode_len();
    let bn = b.unicode_len();
    if an != bn {
        return false;
    }
    let r = match_at(a, b, 0);
    proof {
        assert(a@.subrange(0, an as int) =~= a@);
        if a@ == b@ {
            assert(contains_at(a@, b@, 0));
        }
    }
    r
}

/// `s[i..j]` is a maximal run of non-whitespace characters.
pub open spec fn term_run(s: Seq<char>, i: int, j: int) -> bool {
    &&& 0 <= i < j <= s.len()
    &&& (forall|k: int| i <= k < j ==> !is_space(s[k]))
    &&& (i == 0 || is_space(s[i - 1]))
    &&& (j == s.len() || is_space(s[j]))
}

/// The word `s[i..j]` appears somewhere in `toks`.
pub open spec fn term_emitted(s: Seq<char>, toks: Seq<String>, i: int, j: int) -> bool {
    exists|t: int| 0 <= t < toks.len() && #[trigger] toks[t]@ == s.subrange(i, j)
}

/// `w` is one of the whitespace-separated terms of `s`.
pub open spec fn is_term_of(s: Seq<char>, w: Seq<char>) -> bool {
    exists|i: int, j: int| term_run(s, i, j) && w == #[trigger] s.subrange(i, j)
}

/// The tokens are exactly the runs `s[starts[x]..ends[x]]`, one output
/// index per run, in left-to-right order; since runs are disjoint and the
/// ends strictly grow, each run appears exactly once.
pub open spec fn terms_in_order(
    s: Seq<char>,
    toks: Seq<String>,
    starts: Seq<int>,
    ends: Seq<int>,
) -> bool {
    &&& starts.len() == toks.len()
    &&& ends.len() == toks.len()
    &&& (forall|x: int|
        0 <= x < toks.len() ==> term_run(s, #[trigger] starts[x], ends[x]) && toks[x]@
            == s.subrange(starts[x], ends[x]))
    &&& (forall|x: int, y: int|
        0 <= x < y < toks.len() ==> #[trigger] ends[x] <= #[trigger] starts[y])
}

/// Splits a query on whitespace: every maximal non-whitespace run, in
/// order; an all-whitespace query yields nothing.
pub fn split_terms(s: &str) -> (r: Vec<String>)
    ensures
        forall|t: int| 0 <= t < r@.len() ==> is_term_of(s@, #[trigger] r@[t]@),
        forall|i: int, j: int|
            #[trigger] term_run(s@, i, j) ==> term_emitted(s@, r@, i, j),
        exists|starts: Seq<int>, ends: Seq<int>|
            #[trigger] terms_in_order(s@, r@, starts, ends) && (forall|i: int, j: int|
                #[trigger] term_run(s@, i, j) ==> exists|x: int|
                    0 <= x < r@.len() && #[trigger] starts[x] == i && ends[x] == j),
{
    let n = s.unicode_len();
    let mut out: Vec<String> = Vec::new();
    let ghost mut gstarts: Seq<int> = Seq::empty();
    let ghost mut gends: Seq<int> = Seq::empty();
    let mut pos: usize = 0;
    while pos < n
        invariant
            pos <= n,
            n == s@.len(),
            pos == n || pos == 0 || is_space(s@[pos - 1]) || (pos < n && is_space(
                s@[pos as int],
            )),
            forall|t: int| 0 <= t < out@.len() ==> is_term_of(s@, #[trigger] out@[t]@),
            forall|i: int, j: int|
                #[trigger] term_run(s@, i, j) && j <= pos ==> term_emitted(s@, out@, i, j),
            terms_in_order(s@, out@, gstarts, gends),
            forall|x: int| 0 <= x < gends.len() ==> #[trigger] gends[x] <= pos,
            forall|i: int, j: int|
                #[trigger] term_run(s@, i, j) && j <= pos ==> exists|x: int|
                    0 <= x < out@.len() && #[trigger] gstarts[x] == i && gends[x] == j,
        decreases n - pos,
    {
        if space_char(s.get_char(pos)) {
            assert forall|i: int, j: int|
                #[trigger] term_run(s@, i, j) && j <= pos + 1 implies term_emitted(
                s@,
                out@,
                i,
                j,
            ) && (exists|x: int|
                0 <= x < out@.len() && #[trigger] gstarts[x] == i && gends[x] == j) by {
                if j == pos + 1 {
                    assert(!is_space(s@[j - 1]));
                }
            }
            pos += 1;
        } else {
            let start = pos;
            let mut end = pos + 1;
            loop
                invariant_except_break
                    pos < n,
                    n == s@.len(),
                    pos < end <= n,
                    forall|k: int| pos <= k < end ==> !is_space(s@[k]),
                ensures
                    pos < end <= n,
                    forall|k: int| pos <= k < end ==> !is_space(s@[k]),
                    end == n || is_space(s@[end as int]),
                decreases n - end,
            {
                if end >= n {
                    break;
                }
                if space_char(s.get_char(end)) {
                    break;
                }
                end += 1;
            }
            let ghost prev = out@;
            let ghost pstarts = gstarts;
            let ghost pends = gends;
            let tok = s.substring_char(start, end).to_owned();
            out.push(tok);
            proof {
                gstarts = gstarts.push(start as int);
                gends = gends.push(end as int);
                assert(term_run(s@, start as int, end as int));
                assert(out@[prev.len() as int]@ == s@.subrange(start as int, end as int));
                assert(is_term_of(s@, out@[prev.len() as int]@));
                assert forall|t: int| 0 <= t < out@.len() implies is_term_of(
                    s@,
                    #[trigger] out@[t]@,
                ) by {
                    if t < prev.len() {
                        assert(is_term_of(s@, prev[t]@));
                        assert(out@[t] == prev[t]);
                    }
                }
                assert(terms_in_order(s@, out@, gstarts, gends)) by {
                    assert(forall|x: int|
                        0 <= x < prev.len() ==> out@[x] == prev[x] && #[trigger] gstarts[x]
                            == pstarts[x] && gends[x] == pends[x]);
                    assert(gstarts[prev.len() as int] == start as int);
                    assert(gends[prev.len() as int] == end as int);
                    assert forall|x: int, y: int|
                        0 <= x < y < out@.len() implies #[trigger] gends[x]
                            <= #[trigger] gstarts[y] by {
                        if y == prev.len() {
                            assert(gends[x] == pends[x]);
                            assert(pends[x] <= pos);
                        }
                    }
                }
                assert forall|i: int, j: int|
                    #[trigger] term_run(s@, i, j) && j <= end implies term_emitted(
                    s@,
                    out@,
                    i,
                    j,
                ) && (exists|x: int|
                    0 <= x < out@.len() && #[trigger] gstarts[x] == i && gends[x] == j) by {
                    if j <= pos {
                        assert(term_emitted(s@, prev, i, j));
                        let t = choose|t: int|
                            0 <= t < prev.len() && #[trigger] prev[t]@ == s@.subrange(i, j);
                        assert(out@[t] == prev[t]);
                        assert(out@[t]@ == s@.subrange(i, j));
                        let x = choose|x: int|
                            0 <= x < prev.len() && #[trigger] pstarts[x] == i && pends[x]
                                == j;
                        assert(gstarts[x] == i && gends[x] == j);
                    } else {
                        if j < end {
                            assert(!is_space(s@[j]));
                        }
                        if i < start {
                            assert(!is_space(s@[start - 1]));
                        }
                        if i > start {
                            assert(!is_space(s@[i - 1]));
                        }
                        assert(i == start && j == end);
                        assert(gstarts[prev.len() as int] == i && gends[prev.len() as int]
                            == j);
                    }
                }
            }
            pos = end;
        }
    }
    proof {
        assert(terms_in_order(s@, out@, gstarts, gends));
        assert forall|i: int, j: int| #[trigger] term_run(s@, i, j) implies exists|x: int|
            0 <= x < out@.len() && #[trigger] gstarts[x] == i && gends[x] == j by {
        }
    }
    out
}

/// Lowercases a raw query and splits it on whitespace: the caller-visible
/// tokenization of queries.
pub fn parse_query(raw: &str) -> (r: Vec<String>)
    ensures
        forall|t: int|
            0 <= t < r@.len() ==> is_term_of(lower_of(raw@), #[trigger] r@[t]@),
        forall|i: int, j: int|
            #[trigger] term_run(lower_of(raw@), i, j) ==> term_emitted(
                lower_of(raw@),
                r@,
                i,
                j,
            ),
        exists|starts: Seq<int>, ends: Seq<int>|
            #[trigger] terms_in_order(lower_of(raw@), r@, starts, ends) && (forall|
                i: int,
                j: int,
            |
                #[trigger] term_run(lower_of(raw@), i, j) ==> exists|x: int|
                    0 <= x < r@.len() && #[trigger] starts[x] == i && ends[x] == j),
        raw@.len() == 0 ==> r@.len() == 0,
{
    let low = lowercase(raw);
    let r = split_terms(low.as_str());
    proof {
        if raw@.len() == 0 && r@.len() > 0 {
            assert(is_term_of(lower_of(raw@), r@[0]@));
            let (i, j) = choose|i: int, j: int|
                term_run(lower_of(raw@), i, j) && r@[0]@ == #[trigger] lower_of(raw@).subrange(
                    i,
                    j,
                );
        }
    }
    r
}

/// `s[i..j]` is a maximal run of alphanumeric characters.
pub open spec fn alnum_run(s: Seq<char>, i: int, j: int) -> bool {
    &&& 0 <= i < j <= s.len()
    &&& (forall|k: int| i <= k < j ==> is_alnum(s[k]))
    &&& (i == 0 || !is_alnum(s[i - 1]))
    &&& (j == s.len() || !is_alnum(s[j]))
}

/// `w` is one of the words of `s`: a maximal alphanumeric run of more than
/// one character.
pub open spec fn is_word_of(s: Seq<char>, w: Seq<char>) -> bool {
    exists|i: int, j: int| alnum_run(s, i, j) && j - i > 1 && w == #[trigger] s.subrange(i, j)
}

/// The word `s[i..j]` appears somewhere in `toks`.
pub open spec fn word_emitted(s: Seq<char>, toks: Seq<String>, i: int, j: int) -> bool {
    exists|t: int| 0 <= t < toks.len() && #[trigger] toks[t]@ == s.subrange(i, j)
}

/// The words are exactly the long-enough maximal alphanumeric runs
/// `s[starts[x]..ends[x]]`, one output index per run, in left-to-right
/// order.
pub open spec fn words_in_order(
    s: Seq<char>,
    toks: Seq<String>,
    starts: Seq<int>,
    ends: Seq<int>,
) -> bool {
    &&& starts.len() == toks.len()
    &&& ends.len() == toks.len()
    &&& (forall|x: int|
        0 <= x < toks.len() ==> alnum_run(s, #[trigger] starts[x], ends[x]) && ends[x]
            - starts[x] > 1 && toks[x]@ == s.subrange(starts[x], ends[x]))
    &&& (forall|x: int, y: int|
        0 <= x < y < toks.len() ==> #[trigger] ends[x] <= #[trigger] starts[y])
}

/// The words of a name: every maximal alphanumeric run of more than one
/// character, in order of appearance (repeated words appear repeatedly).
pub fn word_tokens(s: &str) -> (r: Vec<String>)
    ensures
        forall|t: int| 0 <= t < r@.len() ==> is_word_of(s@, #[trigger] r@[t]@),
        forall|i: int, j: int|
            #[trigger] alnum_run(s@, i, j) && j - i > 1 ==> word_emitted(s@, r@, i, j),
        exists|starts: Seq<int>, ends: Seq<int>|
            #[trigger] words_in_order(s@, r@, starts, ends) && (forall|i: int, j: int|
                #[trigger] alnum_run(s@, i, j) && j - i > 1 ==> exists|x: int|
                    0 <= x < r@.len() && #[trigger] starts[x] == i && ends[x] == j),
{
    let n = s.unicode_len();
    let mut out: Vec<String> = Vec::new();
    let ghost mut gstarts: Seq<int> = Seq::empty();
    let ghost mut gends: Seq<int> = Seq::empty();
    let mut pos: usize = 0;
    while pos < n
        invariant
            pos <= n,
            n == s@.len(),
            pos == n || pos == 0 || !is_alnum(s@[pos - 1]) || (pos < n && !is_alnum(s@[pos as int])),
            forall|t: int| 0 <= t < out@.len() ==> is_word_of(s@, #[trigger] out@[t]@),
            forall|i: int, j: int|
                #[trigger] alnum_run(s@, i, j) && j - i > 1 && j <= pos ==> word_emitted(
                    s@,
                    out@,
                    i,
                    j,
                ),
            words_in_order(s@, out@, gstarts, gends),
            forall|x: int| 0 <= x < gends.len() ==> #[trigger] gends[x] <= pos,
            forall|i: int, j: int|
                #[trigger] alnum_run(s@, i, j) && j - i > 1 && j <= pos ==> exists|x: int|
                    0 <= x < out@.len() && #[trigger] gstarts[x] == i && gends[x] == j,
        decreases n - pos,
    {
        if !alnum_char(s.get_char(pos)) {
            assert forall|i: int, j: int|
                #[trigger] alnum_run(s@, i, j) && j - i > 1 && j <= pos + 1 implies word_emitted(
                s@,
                out@,
                i,
                j,
            ) && (exists|x: int|
                0 <= x < out@.len() && #[trigger] gstarts[x] == i && gends[x] == j) by {
                if j == pos + 1 {
                    assert(is_alnum(s@[j - 1]));
                }
            }
            pos += 1;
        } else {
            let start = pos;
            let mut end = pos + 1;
            loop
                invariant_except_break
                    pos < n,
                    n == s@.len(),
                    pos < end <= n,
                    forall|k: int| pos <= k < end ==> is_alnum(s@[k]),
                ensures
                    pos < end <= n,
                    forall|k: int| pos <= k < end ==> is_alnum(s@[k]),
                    end == n || !is_alnum(s@[end as int]),
                decreases n - end,
            {
                if end >= n {
                    break;
                }
                if !alnum_char(s.get_char(end)) {
                    break;
                }
                end += 1;
            }
            let ghost prev = out@;
            let ghost pstarts = gstarts;
            let ghost pends = gends;
            if end - start > 1 {
                let tok = s.substring_char(start, end).to_owned();
                out.push(tok);
                proof {
                    gstarts = gstarts.push(start as int);
                    gends = gends.push(end as int);
                }
            }
            proof {
                assert(alnum_run(s@, start as int, end as int));
                if end - start > 1 {
                    assert(out@[prev.len() as int]@ == s@.subrange(start as int, end as int));
                    assert(is_word_of(s@, out@[prev.len() as int]@));
                }
                assert forall|t: int| 0 <= t < out@.len() implies is_word_of(
                    s@,
                    #[trigger] out@[t]@,
                ) by {
                    if t < prev.len() {
                        assert(is_word_of(s@, prev[t]@));
                        assert(out@[t] == prev[t]);
                    }
                }
                assert(words_in_order(s@, out@, gstarts, gends)) by {
                    assert(forall|x: int|
                        0 <= x < prev.len() ==> out@[x] == prev[x] && #[trigger] gstarts[x]
                            == pstarts[x] && gends[x] == pends[x]);
                    if end - start > 1 {
                        assert(gstarts[prev.len() as int] == start as int);
                        assert(gends[prev.len() as int] == end as int);
                    }
                    assert forall|x: int, y: int|
                        0 <= x < y < out@.len() implies #[trigger] gends[x]
                            <= #[trigger] gstarts[y] by {
                        if y == prev.len() {
                            assert(gends[x] == pends[x]);
                            assert(pends[x] <= pos);
                        }
                    }
                }
                assert forall|i: int, j: int|
                    #[trigger] alnum_run(s@, i, j) && j - i > 1 && j <= end implies word_emitted(
                    s@,
                    out@,
                    i,
                    j,
                ) && (exists|x: int|
                    0 <= x < out@.len() && #[trigger] gstarts[x] == i && gends[x] == j) by {
                    if j <= pos {
                        assert(word_emitted(s@, prev, i, j));
                        let t = choose|t: int|
                            0 <= t < prev.len() && #[trigger] prev[t]@ == s@.subrange(i, j);
                        assert(out@[t] == prev[t]);
                        assert(out@[t]@ == s@.subrange(i, j));
                        let x = choose|x: int|
                            0 <= x < prev.len() && #[trigger] pstarts[x] == i && pends[x]
                                == j;
                        assert(gstarts[x] == i && gends[x] == j);
                    } else {
                        if j < end {
                            assert(is_alnum(s@[j]));
                        }
                        if i < start {
                            assert(is_alnum(s@[start - 1]));
                        }
                        if i > start {
                            assert(is_alnum(s@[i - 1]));
                        }
                        assert(i == start && j == end);
                        assert(out@[prev.len() as int]@ == s@.subrange(i, j));
                        assert(gstarts[prev.len() as int] == i && gends[prev.len() as int]
                            == j);
                    }
                }
            }
            pos = end;
        }
    }
    proof {
        assert(words_in_order(s@, out@, gstarts, gends));
    }
    out
}

} // verus!
