//! The Index Store: an inverted token index, an ordered name index and a
//! modification-time table, kept in step by every mutation.
//!
//! Tokens and name keys are lowercased; paths are stored as given.  The
//! ordered name index is kept strictly sorted so that prefix scans return
//! their results in name order.

use vstd::prelude::*;

use crate::ignore::IgnorePolicy;
use crate::text::{
    alnum_run, is_word_of, lex_lt, lemma_lex_total, lemma_lex_trans, lower_of, lowercase,
    str_lt, str_starts_with, seq_starts_with, word_emitted, word_tokens,
};

verus! {

/// How long a full rebuild stays fresh: repeated rebuilds within this many
/// time units of the last one are no-ops.
pub const REBUILD_FRESH_FOR: u64 = 300;

/// One crawled filesystem entry, as handed to the store.
#[derive(Clone)]
pub struct IndexEntry {
    /// Absolute path, `/`-separated.
    pub path: String,
    /// Base name of the path, as read from the filesystem.
    pub name: String,
    /// Modification time, in seconds.
    pub modified_at: u64,
    /// Whether the entry is a directory.
    pub is_directory: bool,
}

/// Index of the first pair in `s` whose key reads `k`, or `-1`.
pub open spec fn key_index<V>(s: Seq<(String, V)>, k: Seq<char>) -> int
    decreases s.len(),
{
    if s.len() == 0 {
        -1
    } else if s[0].0@ == k {
        0
    } else {
        let r = key_index(s.skip(1), k);
        if r < 0 {
            -1
        } else {
            r + 1
        }
    }
}

/// What `key_index` finds: the first occurrence of the key, if any.
pub proof fn lemma_key_index<V>(s: Seq<(String, V)>, k: Seq<char>)
    ensures
        -1 <= key_index(s, k) < s.len(),
        key_index(s, k) >= 0 ==> s[key_index(s, k)].0@ == k,
        key_index(s, k) == -1 ==> forall|i: int| 0 <= i < s.len() ==> (#[trigger] s[i]).0@ != k,
        forall|i: int| 0 <= i < key_index(s, k) ==> (#[trigger] s[i]).0@ != k,
    decreases s.len(),
{
    if s.len() > 0 && s[0].0@ != k {
        lemma_key_index(s.skip(1), k);
        let r = key_index(s.skip(1), k);
        if r < 0 {
            assert forall|i: int| 0 <= i < s.len() implies (#[trigger] s[i]).0@ != k by {
                if i >= 1 {
                    assert(s.skip(1)[i - 1] == s[i]);
                    assert(s.skip(1)[i - 1].0@ != k);
                }
            }
        } else {
            assert(s.skip(1)[r] == s[r + 1]);
            assert forall|i: int| 0 <= i < key_index(s, k) implies (#[trigger] s[i]).0@ != k by {
                if i >= 1 {
                    assert(s.skip(1)[i - 1] == s[i]);
                    assert(s.skip(1)[i - 1].0@ != k);
                }
            }
        }
    }
}

/// Locates a key in an association vector: the first pair whose key equals
/// `k`.
pub fn find_key<V>(v: &Vec<(String, V)>, k: &String) -> (r: Option<usize>)
    ensures
        r is Some <==> key_index(v@, k@) >= 0,
        r is Some ==> r.unwrap() as int == key_index(v@, k@),
{
    proof {
        lemma_key_index(v@, k@);
    }
    let mut i: usize = 0;
    while i < v.len()
        invariant
            i <= v@.len(),
            forall|j: int| 0 <= j < i ==> (#[trigger] v@[j]).0@ != k@,
        decreases v@.len() - i,
    {
        if v[i].0 == *k {
            proof {
                lemma_key_index(v@, k@);
                let ki = key_index(v@, k@);
                if ki < i {
                    assert(v@[ki].0@ != k@);
                }
                if ki > i || ki == -1 {
                    assert(v@[i as int].0@ != k@);
                }
            }
            return Some(i);
        }
        i += 1;
    }
    proof {
        lemma_key_index(v@, k@);
        let ki = key_index(v@, k@);
        if ki >= 0 {
            assert(v@[ki].0@ != k@);
        }
    }
    None
}

/// `p` occurs among `paths`.
pub open spec fn path_in(paths: Seq<String>, p: Seq<char>) -> bool {
    exists|j: int| 0 <= j < paths.len() && (#[trigger] paths[j])@ == p
}

/// Path `p` is filed under token `t` somewhere in an inverted-index table.
pub open spec fn table_has(s: Seq<(String, Vec<String>)>, t: Seq<char>, p: Seq<char>) -> bool {
    exists|i: int|
        0 <= i < s.len() && (#[trigger] s[i]).0@ == t && path_in(s[i].1@, p)
}

/// The pair `(n, v)` stands in an association table.
pub open spec fn names_has(s: Seq<(String, String)>, n: Seq<char>, v: Seq<char>) -> bool {
    exists|i: int| 0 <= i < s.len() && (#[trigger] s[i]).0@ == n && s[i].1@ == v
}

/// The pair `(p, m)` stands in the modification-time table.
pub open spec fn meta_has(s: Seq<(String, u64)>, p: Seq<char>, m: u64) -> bool {
    exists|i: int| 0 <= i < s.len() && (#[trigger] s[i]).0@ == p && s[i].1 == m
}

/// `t` is one of the tokens of the lowercased name `nl`: the whole name, or
/// one of its words.
pub open spec fn is_token_of(nl: Seq<char>, t: Seq<char>) -> bool {
    t == nl || is_word_of(nl, t)
}

/// Membership in a pushed path list.
proof fn lemma_path_in_push(paths: Seq<String>, e: String, q: Seq<char>)
    ensures
        path_in(paths.push(e), q) == (path_in(paths, q) || e@ == q),
{
    if path_in(paths, q) {
        let j = choose|j: int| 0 <= j < paths.len() && (#[trigger] paths[j])@ == q;
        assert(paths.push(e)[j]@ == q);
    }
    if e@ == q {
        assert(paths.push(e)[paths.len() as int]@ == q);
    }
    if path_in(paths.push(e), q) {
        let j = choose|j: int|
            0 <= j < paths.push(e).len() && (#[trigger] paths.push(e)[j])@ == q;
        if j < paths.len() {
            assert(paths[j]@ == q);
        }
    }
}

/// Copies `paths` without any occurrence of `p`.
fn filter_paths(paths: &Vec<String>, p: &String) -> (r: Vec<String>)
    ensures
        !path_in(r@, p@),
        forall|q: Seq<char>| q != p@ ==> path_in(r@, q) == path_in(paths@, q),
{
    let mut r: Vec<String> = Vec::new();
    let mut i: usize = 0;
    while i < paths.len()
        invariant
            i <= paths@.len(),
            !path_in(r@, p@),
            forall|q: Seq<char>|
                q != p@ ==> path_in(r@, q) == path_in(paths@.subrange(0, i as int), q),
        decreases paths@.len() - i,
    {
        let ghost prevr = r@;
        let ghost prefix = paths@.subrange(0, i as int);
        let keep = !(paths[i] == *p);
        if keep {
            r.push(paths[i].clone());
        }
        proof {
            assert(paths@.subrange(0, i + 1) =~= prefix.push(paths@[i as int]));
            assert forall|q: Seq<char>| q != p@ implies path_in(r@, q) == path_in(
                paths@.subrange(0, i + 1),
                q,
            ) by {
                lemma_path_in_push(prefix, paths@[i as int], q);
                if keep {
                    lemma_path_in_push(prevr, r@.last(), q);
                    assert(r@ =~= prevr.push(r@.last()));
                }
            }
            if keep {
                lemma_path_in_push(prevr, r@.last(), p@);
                assert(r@ =~= prevr.push(r@.last()));
            }
        }
        i += 1;
    }
    proof {
        assert(paths@.subrange(0, paths@.len() as int) =~= paths@);
    }
    r
}

/// Unique keys in an association table.
pub open spec fn keys_unique<V>(s: Seq<(String, V)>) -> bool {
    forall|i: int, j: int|
        0 <= i < j < s.len() ==> (#[trigger] s[i]).0@ != (#[trigger] s[j]).0@
}

/// Strictly sorted keys.
pub open spec fn keys_sorted<V>(s: Seq<(String, V)>) -> bool {
    forall|i: int, j: int|
        0 <= i < j < s.len() ==> lex_lt((#[trigger] s[i]).0@, (#[trigger] s[j]).0@)
}

/// Rebuilds the inverted index without path `p`; tokens left with no path
/// disappear.
fn remove_from_tokens(tokens: &Vec<(String, Vec<String>)>, p: &String) -> (r: Vec<
    (String, Vec<String>),
>)
    requires
        keys_unique(tokens@),
    ensures
        keys_unique(r@),
        forall|i: int| 0 <= i < r@.len() ==> (#[trigger] r@[i]).1@.len() > 0,
        forall|t: Seq<char>| !table_has(r@, t, p@),
        forall|t: Seq<char>, q: Seq<char>|
            q != p@ ==> table_has(r@, t, q) == table_has(tokens@, t, q),
{
    let mut r: Vec<(String, Vec<String>)> = Vec::new();
    let mut c: usize = 0;
    while c < tokens.len()
        invariant
            c <= tokens@.len(),
            keys_unique(tokens@),
            keys_unique(r@),
            forall|i: int, cc: int|
                0 <= i < r@.len() && c <= cc < tokens@.len() ==> (#[trigger] r@[i]).0@ != (
                #[trigger] tokens@[cc]).0@,
            forall|i: int| 0 <= i < r@.len() ==> (#[trigger] r@[i]).1@.len() > 0,
            forall|t: Seq<char>| !table_has(r@, t, p@),
            forall|t: Seq<char>, q: Seq<char>|
                q != p@ ==> table_has(r@, t, q) == table_has(
                    tokens@.subrange(0, c as int),
                    t,
                    q,
                ),
        decreases tokens@.len() - c,
    {
        let ghost prevr = r@;
        let ghost prefix = tokens@.subrange(0, c as int);
        let fl = filter_paths(&tokens[c].1, p);
        let kept = fl.len() > 0;
        if kept {
            r.push((tokens[c].0.clone(), fl));
        }
        proof {
            assert(tokens@.subrange(0, c + 1) =~= prefix.push(tokens@[c as int]));
            if kept {
                assert(r@ =~= prevr.push(r@.last()));
            }
            assert forall|t: Seq<char>| !table_has(r@, t, p@) by {
                if table_has(r@, t, p@) {
                    let i = choose|i: int|
                        0 <= i < r@.len() && (#[trigger] r@[i]).0@ == t && path_in(r@[i].1@, p@);
                    if i < prevr.len() {
                        assert(table_has(prevr, t, p@));
                    }
                }
            }
            assert forall|t: Seq<char>, q: Seq<char>| q != p@ implies table_has(r@, t, q)
                == table_has(tokens@.subrange(0, c + 1), t, q) by {
                let nx = tokens@[c as int];
                if table_has(r@, t, q) {
                    let i = choose|i: int|
                        0 <= i < r@.len() && (#[trigger] r@[i]).0@ == t && path_in(r@[i].1@, q);
                    if i < prevr.len() {
                        assert(table_has(prevr, t, q));
                        let i2 = choose|i2: int|
                            0 <= i2 < prefix.len() && (#[trigger] prefix[i2]).0@ == t && path_in(
                                prefix[i2].1@,
                                q,
                            );
                        assert(tokens@.subrange(0, c + 1)[i2] == prefix[i2]);
                        assert(table_has(tokens@.subrange(0, c + 1), t, q));
                    } else {
                        assert(path_in(nx.1@, q));
                        assert(tokens@.subrange(0, c + 1)[c as int] == nx);
                        assert(table_has(tokens@.subrange(0, c + 1), t, q));
                    }
                }
                if table_has(tokens@.subrange(0, c + 1), t, q) {
                    let i = choose|i: int|
                        0 <= i < c + 1 && (#[trigger] tokens@.subrange(0, c + 1)[i]).0@ == t
                            && path_in(tokens@.subrange(0, c + 1)[i].1@, q);
                    if i < c {
                        assert(prefix[i] == tokens@.subrange(0, c + 1)[i]);
                        assert(table_has(prefix, t, q));
                        assert(table_has(prevr, t, q));
                        let i2 = choose|i2: int|
                            0 <= i2 < prevr.len() && (#[trigger] prevr[i2]).0@ == t && path_in(
                                prevr[i2].1@,
                                q,
                            );
                        assert(r@[i2] == prevr[i2]);
                        assert(table_has(r@, t, q));
                    } else {
                        assert(nx.0@ == t && path_in(nx.1@, q));
                        assert(kept);
                        assert(r@[prevr.len() as int].0@ == t);
                        assert(path_in(r@[prevr.len() as int].1@, q));
                        assert(table_has(r@, t, q));
                    }
                }
            }
        }
        c += 1;
    }
    proof {
        assert(tokens@.subrange(0, tokens@.len() as int) =~= tokens@);
    }
    r
}

/// Rebuilds an association table without the pairs whose value is `p`,
/// keeping the key order.
fn remove_from_names(names: &Vec<(String, String)>, p: &String) -> (r: Vec<(String, String)>)
    requires
        keys_sorted(names@),
    ensures
        keys_sorted(r@),
        forall|n: Seq<char>, v: Seq<char>|
            names_has(r@, n, v) == (names_has(names@, n, v) && v != p@),
{
    let mut r: Vec<(String, String)> = Vec::new();
    let mut c: usize = 0;
    while c < names.len()
        invariant
            c <= names@.len(),
            keys_sorted(names@),
            keys_sorted(r@),
            forall|i: int, cc: int|
                0 <= i < r@.len() && c <= cc < names@.len() ==> lex_lt(
                    (#[trigger] r@[i]).0@,
                    (#[trigger] names@[cc]).0@,
                ),
            forall|n: Seq<char>, v: Seq<char>|
                names_has(r@, n, v) == (names_has(names@.subrange(0, c as int), n, v) && v
                    != p@),
        decreases names@.len() - c,
    {
        let ghost prevr = r@;
        let ghost prefix = names@.subrange(0, c as int);
        let kept = !(names[c].1 == *p);
        if kept {
            r.push((names[c].0.clone(), names[c].1.clone()));
        }
        proof {
            assert(names@.subrange(0, c + 1) =~= prefix.push(names@[c as int]));
            if kept {
                assert(r@ =~= prevr.push(r@.last()));
            }
            assert forall|n: Seq<char>, v: Seq<char>| names_has(r@, n, v) == (names_has(
                names@.subrange(0, c + 1),
                n,
                v,
            ) && v != p@) by {
                let nx = names@[c as int];
                if names_has(r@, n, v) {
                    let i = choose|i: int|
                        0 <= i < r@.len() && (#[trigger] r@[i]).0@ == n && r@[i].1@ == v;
                    if i < prevr.len() {
                        assert(names_has(prevr, n, v));
                        let i2 = choose|i2: int|
                            0 <= i2 < prefix.len() && (#[trigger] prefix[i2]).0@ == n
                                && prefix[i2].1@ == v;
                        assert(names@.subrange(0, c + 1)[i2] == prefix[i2]);
                    } else {
                        assert(names@.subrange(0, c + 1)[c as int] == nx);
                    }
                }
                if names_has(names@.subrange(0, c + 1), n, v) && v != p@ {
                    let i = choose|i: int|
                        0 <= i < c + 1 && (#[trigger] names@.subrange(0, c + 1)[i]).0@ == n
                            && names@.subrange(0, c + 1)[i].1@ == v;
                    if i < c {
                        assert(prefix[i] == names@.subrange(0, c + 1)[i]);
                        assert(names_has(prefix, n, v));
                        assert(names_has(prevr, n, v));
                        let i2 = choose|i2: int|
                            0 <= i2 < prevr.len() && (#[trigger] prevr[i2]).0@ == n
                                && prevr[i2].1@ == v;
                        assert(r@[i2] == prevr[i2]);
                    } else {
                        assert(nx.0@ == n && nx.1@ == v);
                        assert(kept);
                        assert(r@[prevr.len() as int].0@ == n && r@[prevr.len() as int].1@
                            == v);
                    }
                }
            }
        }
        c += 1;
    }
    proof {
        assert(names@.subrange(0, names@.len() as int) =~= names@);
    }
    r
}

/// Rebuilds the modification-time table without path `p`.
fn remove_from_meta(meta: &Vec<(String, u64)>, p: &String) -> (r: Vec<(String, u64)>)
    requires
        keys_unique(meta@),
    ensures
        keys_unique(r@),
        forall|q: Seq<char>, m: u64|
            meta_has(r@, q, m) == (meta_has(meta@, q, m) && q != p@),
{
    let mut r: Vec<(String, u64)> = Vec::new();
    let mut c: usize = 0;
    while c < meta.len()
        invariant
            c <= meta@.len(),
            keys_unique(meta@),
            keys_unique(r@),
            forall|i: int, cc: int|
                0 <= i < r@.len() && c <= cc < meta@.len() ==> (#[trigger] r@[i]).0@ != (
                #[trigger] meta@[cc]).0@,
            forall|q: Seq<char>, m: u64|
                meta_has(r@, q, m) == (meta_has(meta@.subrange(0, c as int), q, m) && q != p@),
        decreases meta@.len() - c,
    {
        let ghost prevr = r@;
        let ghost prefix = meta@.subrange(0, c as int);
        let kept = !(meta[c].0 == *p);
        if kept {
            r.push((meta[c].0.clone(), meta[c].1));
        }
        proof {
            assert(meta@.subrange(0, c + 1) =~= prefix.push(meta@[c as int]));
            if kept {
                assert(r@ =~= prevr.push(r@.last()));
            }
            assert forall|q: Seq<char>, m: u64| meta_has(r@, q, m) == (meta_has(
                meta@.subrange(0, c + 1),
                q,
                m,
            ) && q != p@) by {
                let nx = meta@[c as int];
                if meta_has(r@, q, m) {
                    let i = choose|i: int|
                        0 <= i < r@.len() && (#[trigger] r@[i]).0@ == q && r@[i].1 == m;
                    if i < prevr.len() {
                        assert(meta_has(prevr, q, m));
                        let i2 = choose|i2: int|
                            0 <= i2 < prefix.len() && (#[trigger] prefix[i2]).0@ == q
                                && prefix[i2].1 == m;
                        assert(meta@.subrange(0, c + 1)[i2] == prefix[i2]);
                    } else {
                        assert(meta@.subrange(0, c + 1)[c as int] == nx);
                    }
                }
                if meta_has(meta@.subrange(0, c + 1), q, m) && q != p@ {
                    let i = choose|i: int|
                        0 <= i < c + 1 && (#[trigger] meta@.subrange(0, c + 1)[i]).0@ == q
                            && meta@.subrange(0, c + 1)[i].1 == m;
                    if i < c {
                        assert(prefix[i] == meta@.subrange(0, c + 1)[i]);
                        assert(meta_has(prefix, q, m));
                        assert(meta_has(prevr, q, m));
                        let i2 = choose|i2: int|
                            0 <= i2 < prevr.len() && (#[trigger] prevr[i2]).0@ == q
                                && prevr[i2].1 == m;
                        assert(r@[i2] == prevr[i2]);
                    } else {
                        assert(nx.0@ == q && nx.1 == m);
                        assert(kept);
                        assert(r@[prevr.len() as int].0@ == q && r@[prevr.len() as int].1
                            == m);
                    }
                }
            }
        }
        c += 1;
    }
    proof {
        assert(meta@.subrange(0, meta@.len() as int) =~= meta@);
    }
    r
}

/// Files `path` under every token of `toks`, creating tokens as needed.
fn tokens_add(tokens: &mut Vec<(String, Vec<String>)>, toks: &Vec<String>, path: &String)
    requires
        keys_unique(old(tokens)@),
        forall|i: int| 0 <= i < old(tokens)@.len() ==> (#[trigger] old(tokens)@[i]).1@.len() > 0,
        forall|t: Seq<char>| !table_has(old(tokens)@, t, path@),
    ensures
        keys_unique(final(tokens)@),
        forall|i: int| 0 <= i < final(tokens)@.len() ==> (#[trigger] final(tokens)@[i]).1@.len() > 0,
        forall|t: Seq<char>|
            table_has(final(tokens)@, t, path@) == (exists|w: int|
                0 <= w < toks@.len() && (#[trigger] toks@[w])@ == t),
        forall|t: Seq<char>, q: Seq<char>|
            q != path@ ==> table_has(final(tokens)@, t, q) == table_has(old(tokens)@, t, q),
{
    let mut w: usize = 0;
    while w < toks.len()
        invariant
            w <= toks@.len(),
            keys_unique(tokens@),
            forall|i: int| 0 <= i < tokens@.len() ==> (#[trigger] tokens@[i]).1@.len() > 0,
            forall|t: Seq<char>|
                table_has(tokens@, t, path@) == (exists|w2: int|
                    0 <= w2 < w && (#[trigger] toks@[w2])@ == t),
            forall|t: Seq<char>, q: Seq<char>|
                q != path@ ==> table_has(tokens@, t, q) == table_has(old(tokens)@, t, q),
        decreases toks@.len() - w,
    {
        let ghost prev = tokens@;
        let tok = &toks[w];
        match find_key(tokens, tok) {
            Some(i) => {
                proof {
                    lemma_key_index(prev, tok@);
                }
                let mut lst = clone_paths(&tokens[i].1);
                lst.push(path.clone());
                let key = tokens[i].0.clone();
                let ghost newpair = (key@, lst@);
                tokens.set(i, (key, lst));
                proof {
                    assert(tokens@ =~= prev.update(i as int, tokens@[i as int]));
                    let cur = tokens@;
                    assert(cur[i as int].0@ == tok@);
                    assert(cur[i as int].1@ == prev[i as int].1@.push(cur[i as int].1@.last()));
                    assert forall|t: Seq<char>| table_has(cur, t, path@) == (exists|w2: int|
                        0 <= w2 < w + 1 && (#[trigger] toks@[w2])@ == t) by {
                        lemma_path_in_push(prev[i as int].1@, cur[i as int].1@.last(), path@);
                        if table_has(cur, t, path@) {
                            let ii = choose|ii: int|
                                0 <= ii < cur.len() && (#[trigger] cur[ii]).0@ == t && path_in(
                                    cur[ii].1@,
                                    path@,
                                );
                            if ii != i {
                                assert(cur[ii] == prev[ii]);
                                assert(table_has(prev, t, path@));
                            } else {
                                if path_in(prev[i as int].1@, path@) {
                                    assert(table_has(prev, t, path@));
                                } else {
                                    assert(t == toks@[w as int]@);
                                }
                            }
                        }
                        if exists|w2: int| 0 <= w2 < w + 1 && (#[trigger] toks@[w2])@ == t {
                            let w2 = choose|w2: int|
                                0 <= w2 < w + 1 && (#[trigger] toks@[w2])@ == t;
                            if w2 < w {
                                assert(table_has(prev, t, path@));
                                let ii = choose|ii: int|
                                    0 <= ii < prev.len() && (#[trigger] prev[ii]).0@ == t
                                        && path_in(prev[ii].1@, path@);
                                if ii != i {
                                    assert(cur[ii] == prev[ii]);
                                    assert(table_has(cur, t, path@));
                                } else {
                                    assert(path_in(cur[i as int].1@, path@));
                                    assert(table_has(cur, t, path@));
                                }
                            } else {
                                assert(path_in(cur[i as int].1@, path@));
                                assert(table_has(cur, t, path@));
                            }
                        }
                    }
                    assert forall|t: Seq<char>, q: Seq<char>| q != path@ implies table_has(
                        cur,
                        t,
                        q,
                    ) == table_has(prev, t, q) by {
                        lemma_path_in_push(prev[i as int].1@, cur[i as int].1@.last(), q);
                        if table_has(cur, t, q) {
                            let ii = choose|ii: int|
                                0 <= ii < cur.len() && (#[trigger] cur[ii]).0@ == t && path_in(
                                    cur[ii].1@,
                                    q,
                                );
                            if ii != i {
                                assert(cur[ii] == prev[ii]);
                            } else {
                                assert(path_in(prev[i as int].1@, q));
                            }
                            assert(table_has(prev, t, q));
                        }
                        if table_has(prev, t, q) {
                            let ii = choose|ii: int|
                                0 <= ii < prev.len() && (#[trigger] prev[ii]).0@ == t && path_in(
                                    prev[ii].1@,
                                    q,
                                );
                            if ii != i {
                                assert(cur[ii] == prev[ii]);
                            } else {
                                assert(path_in(cur[i as int].1@, q));
                            }
                            assert(table_has(cur, t, q));
                        }
                    }
                }
            },
            None => {
                proof {
                    lemma_key_index(prev, tok@);
                }
                let mut lst: Vec<String> = Vec::new();
                lst.push(path.clone());
                tokens.push((tok.clone(), lst));
                proof {
                    let cur = tokens@;
                    assert(cur =~= prev.push(cur.last()));
                    assert(cur.last().0@ == tok@);
                    assert(cur.last().1@[0]@ == path@);
                    assert forall|t: Seq<char>| table_has(cur, t, path@) == (exists|w2: int|
                        0 <= w2 < w + 1 && (#[trigger] toks@[w2])@ == t) by {
                        if table_has(cur, t, path@) {
                            let ii = choose|ii: int|
                                0 <= ii < cur.len() && (#[trigger] cur[ii]).0@ == t && path_in(
                                    cur[ii].1@,
                                    path@,
                                );
                            if ii < prev.len() {
                                assert(cur[ii] == prev[ii]);
                                assert(table_has(prev, t, path@));
                            } else {
                                assert(t == toks@[w as int]@);
                            }
                        }
                        if exists|w2: int| 0 <= w2 < w + 1 && (#[trigger] toks@[w2])@ == t {
                            let w2 = choose|w2: int|
                                0 <= w2 < w + 1 && (#[trigger] toks@[w2])@ == t;
                            if w2 < w {
                                assert(table_has(prev, t, path@));
                                let ii = choose|ii: int|
                                    0 <= ii < prev.len() && (#[trigger] prev[ii]).0@ == t
                                        && path_in(prev[ii].1@, path@);
                                assert(cur[ii] == prev[ii]);
                                assert(table_has(cur, t, path@));
                            } else {
                                assert(path_in(cur.last().1@, path@));
                                assert(table_has(cur, t, path@));
                            }
                        }
                    }
                    assert forall|t: Seq<char>, q: Seq<char>| q != path@ implies table_has(
                        cur,
                        t,
                        q,
                    ) == table_has(prev, t, q) by {
                        if table_has(cur, t, q) {
                            let ii = choose|ii: int|
                                0 <= ii < cur.len() && (#[trigger] cur[ii]).0@ == t && path_in(
                                    cur[ii].1@,
                                    q,
                                );
                            if ii < prev.len() {
                                assert(cur[ii] == prev[ii]);
                                assert(table_has(prev, t, q));
                            } else {
                                assert(cur[ii].1@.len() == 1);
                                assert(cur[ii].1@[0]@ == path@);
                                let jj = choose|jj: int|
                                    0 <= jj < cur[ii].1@.len() && (#[trigger] cur[ii].1@[jj])@
                                        == q;
                                assert(false);
                            }
                        }
                        if table_has(prev, t, q) {
                            let ii = choose|ii: int|
                                0 <= ii < prev.len() && (#[trigger] prev[ii]).0@ == t && path_in(
                                    prev[ii].1@,
                                    q,
                                );
                            assert(cur[ii] == prev[ii]);
                            assert(table_has(cur, t, q));
                        }
                    }
                    assert forall|a: int, b: int| 0 <= a < b < cur.len() implies (
                    #[trigger] cur[a]).0@ != (#[trigger] cur[b]).0@ by {
                        if b == cur.len() - 1 {
                            assert(cur[a] == prev[a]);
                            assert(prev[a].0@ != tok@);
                        }
                    }
                }
            },
        }
        w += 1;
    }
}

/// Sets `key` to `val` in the ordered name index, keeping it sorted.
fn names_put(names: &mut Vec<(String, String)>, key: &String, val: &String)
    requires
        keys_sorted(old(names)@),
    ensures
        keys_sorted(final(names)@),
        forall|n: Seq<char>, v: Seq<char>|
            names_has(final(names)@, n, v) == (if n == key@ {
                v == val@
            } else {
                names_has(old(names)@, n, v)
            }),
{
    let ghost orig = names@;
    let mut pos: usize = 0;
    loop
        invariant_except_break
            pos <= names@.len(),
            names@ == orig,
            keys_sorted(orig),
            forall|i: int| 0 <= i < pos ==> lex_lt((#[trigger] orig[i]).0@, key@),
        ensures
            pos <= orig.len(),
            names@ == orig,
            forall|i: int| 0 <= i < pos ==> lex_lt((#[trigger] orig[i]).0@, key@),
            pos < orig.len() ==> !lex_lt(orig[pos as int].0@, key@),
        decreases names@.len() - pos,
    {
        if pos >= names.len() {
            break;
        }
        if !str_lt(&names[pos].0, key) {
            break;
        }
        pos += 1;
    }
    if pos < names.len() && names[pos].0 == *key {
        names.set(pos, (key.clone(), val.clone()));
        proof {
            let cur = names@;
            assert(cur =~= orig.update(pos as int, cur[pos as int]));
            assert forall|a: int, b: int| 0 <= a < b < cur.len() implies lex_lt(
                (#[trigger] cur[a]).0@,
                (#[trigger] cur[b]).0@,
            ) by {
                assert(orig[a].0@ == cur[a].0@ && orig[b].0@ == cur[b].0@);
            }
            assert forall|n: Seq<char>, v: Seq<char>| names_has(cur, n, v) == (if n == key@ {
                v == val@
            } else {
                names_has(orig, n, v)
            }) by {
                lemma_lex_total(n, key@);
                if names_has(cur, n, v) {
                    let i = choose|i: int|
                        0 <= i < cur.len() && (#[trigger] cur[i]).0@ == n && cur[i].1@ == v;
                    if i != pos {
                        assert(cur[i] == orig[i]);
                        if n == key@ {
                            if i < pos {
                                assert(lex_lt(orig[i].0@, orig[pos as int].0@));
                            } else {
                                assert(lex_lt(orig[pos as int].0@, orig[i].0@));
                            }
                            assert(false);
                        }
                    }
                }
                if n == key@ && v == val@ {
                    assert(cur[pos as int].0@ == n && cur[pos as int].1@ == v);
                }
                if n != key@ && names_has(orig, n, v) {
                    let i = choose|i: int|
                        0 <= i < orig.len() && (#[trigger] orig[i]).0@ == n && orig[i].1@ == v;
                    assert(i != pos);
                    assert(cur[i] == orig[i]);
                }
            }
        }
    } else {
        proof {
            if pos < orig.len() {
                lemma_lex_total(orig[pos as int].0@, key@);
            }
        }
        names.insert(pos, (key.clone(), val.clone()));
        proof {
            let cur = names@;
            assert(cur == orig.insert(pos as int, cur[pos as int]));
            assert(cur[pos as int].0@ == key@ && cur[pos as int].1@ == val@);
            assert(forall|i: int| 0 <= i < pos ==> cur[i] == orig[i]);
            assert(forall|i: int| pos < i < cur.len() ==> cur[i] == orig[i - 1]);
            assert forall|a: int, b: int| 0 <= a < b < cur.len() implies lex_lt(
                (#[trigger] cur[a]).0@,
                (#[trigger] cur[b]).0@,
            ) by {
                if a == pos {
                    assert(cur[b] == orig[b - 1]);
                    if b - 1 == pos {
                        assert(lex_lt(key@, orig[pos as int].0@));
                    } else {
                        assert(lex_lt(key@, orig[pos as int].0@));
                        assert(lex_lt(orig[pos as int].0@, orig[b - 1].0@));
                        lemma_lex_trans(key@, orig[pos as int].0@, orig[b - 1].0@);
                    }
                } else if b == pos {
                    assert(cur[a] == orig[a]);
                    assert(lex_lt(orig[a].0@, key@));
                } else if a < pos && b > pos {
                    assert(cur[a] == orig[a] && cur[b] == orig[b - 1]);
                    if b - 1 == a {
                        assert(lex_lt(orig[a].0@, key@));
                        assert(lex_lt(key@, orig[pos as int].0@));
                    } else {
                        assert(lex_lt(orig[a].0@, orig[b - 1].0@));
                    }
                } else {
                    assert(cur[a] == if a < pos { orig[a] } else { orig[a - 1] });
                    assert(cur[b] == if b < pos { orig[b] } else { orig[b - 1] });
                }
            }
            assert forall|n: Seq<char>, v: Seq<char>| names_has(cur, n, v) == (if n == key@ {
                v == val@
            } else {
                names_has(orig, n, v)
            }) by {
                lemma_lex_total(n, key@);
                if names_has(cur, n, v) {
                    let i = choose|i: int|
                        0 <= i < cur.len() && (#[trigger] cur[i]).0@ == n && cur[i].1@ == v;
                    if i != pos {
                        let oi = if i < pos { i } else { i - 1 };
                        assert(cur[i] == orig[oi]);
                        if n == key@ {
                            if oi < pos {
                                assert(lex_lt(orig[oi].0@, key@));
                            } else {
                                assert(!lex_lt(orig[pos as int].0@, key@));
                                assert(orig[pos as int].0@ != key@);
                                assert(lex_lt(key@, orig[pos as int].0@));
                                if oi == pos {
                                } else {
                                    assert(lex_lt(orig[pos as int].0@, orig[oi].0@));
                                    lemma_lex_trans(key@, orig[pos as int].0@, orig[oi].0@);
                                }
                            }
                            assert(false);
                        }
                    }
                }
                if n == key@ && v == val@ {
                    assert(cur[pos as int].0@ == n && cur[pos as int].1@ == v);
                }
                if n != key@ && names_has(orig, n, v) {
                    let i = choose|i: int|
                        0 <= i < orig.len() && (#[trigger] orig[i]).0@ == n && orig[i].1@ == v;
                    let ci = if i < pos { i } else { i + 1 };
                    assert(cur[ci] == orig[i]);
                }
            }
        }
    }
}

/// Sets the stored modification time of `p` to `m`.
fn meta_put(meta: &mut Vec<(String, u64)>, p: &String, m: u64)
    requires
        keys_unique(old(meta)@),
    ensures
        keys_unique(final(meta)@),
        forall|q: Seq<char>, mm: u64|
            meta_has(final(meta)@, q, mm) == (if q == p@ {
                mm == m
            } else {
                meta_has(old(meta)@, q, mm)
            }),
{
    let ghost orig = meta@;
    match find_key(meta, p) {
        Some(i) => {
            proof {
                lemma_key_index(orig, p@);
            }
            meta.set(i, (p.clone(), m));
            proof {
                let cur = meta@;
                assert(cur =~= orig.update(i as int, cur[i as int]));
                assert forall|q: Seq<char>, mm: u64| meta_has(cur, q, mm) == (if q == p@ {
                    mm == m
                } else {
                    meta_has(orig, q, mm)
                }) by {
                    if meta_has(cur, q, mm) {
                        let ii = choose|ii: int|
                            0 <= ii < cur.len() && (#[trigger] cur[ii]).0@ == q && cur[ii].1
                                == mm;
                        if ii != i {
                            assert(cur[ii] == orig[ii]);
                            assert(orig[i as int].0@ == p@);
                            if q == p@ {
                                assert(false);
                            }
                        }
                    }
                    if q == p@ && mm == m {
                        assert(cur[i as int].0@ == q && cur[i as int].1 == mm);
                    }
                    if q != p@ && meta_has(orig, q, mm) {
                        let ii = choose|ii: int|
                            0 <= ii < orig.len() && (#[trigger] orig[ii]).0@ == q && orig[ii].1
                                == mm;
                        assert(ii != i);
                        assert(cur[ii] == orig[ii]);
                    }
                }
            }
        },
        None => {
            proof {
                lemma_key_index(orig, p@);
            }
            meta.push((p.clone(), m));
            proof {
                let cur = meta@;
                assert(cur =~= orig.push(cur.last()));
                assert forall|q: Seq<char>, mm: u64| meta_has(cur, q, mm) == (if q == p@ {
                    mm == m
                } else {
                    meta_has(orig, q, mm)
                }) by {
                    if meta_has(cur, q, mm) {
                        let ii = choose|ii: int|
                            0 <= ii < cur.len() && (#[trigger] cur[ii]).0@ == q && cur[ii].1
                                == mm;
                        if ii < orig.len() {
                            assert(cur[ii] == orig[ii]);
                            assert(orig[ii].0@ != p@);
                        }
                    }
                    if q == p@ && mm == m {
                        assert(cur[cur.len() - 1].0@ == q && cur[cur.len() - 1].1 == mm);
                    }
                    if q != p@ && meta_has(orig, q, mm) {
                        let ii = choose|ii: int|
                            0 <= ii < orig.len() && (#[trigger] orig[ii]).0@ == q && orig[ii].1
                                == mm;
                        assert(cur[ii] == orig[ii]);
                    }
                }
                assert forall|a: int, b: int| 0 <= a < b < cur.len() implies (
                #[trigger] cur[a]).0@ != (#[trigger] cur[b]).0@ by {
                    if b == cur.len() - 1 {
                        assert(cur[a] == orig[a]);
                        assert(orig[a].0@ != p@);
                    }
                }
            }
        },
    }
}

/// The two co-maintained index structures and the modification-time table.
pub struct IndexStore {
    /// Inverted index: token to the paths filed under it, in insertion
    /// order.
    pub tokens: Vec<(String, Vec<String>)>,
    /// Ordered name index: lowercased base name to path, strictly sorted by
    /// key.
    pub names: Vec<(String, String)>,
    /// Modification-time table: path to the time stored for it.
    pub meta: Vec<(String, u64)>,
    /// When the last full rebuild ran, if ever.
    pub last_rebuild: Option<u64>,
}

impl IndexStore {
    /// Structural invariant: unique token and path keys, a strictly sorted
    /// name index, and no token filed without a path.
    pub open spec fn wf(self) -> bool {
        &&& keys_unique(self.tokens@)
        &&& (forall|i: int|
            0 <= i < self.tokens@.len() ==> (#[trigger] self.tokens@[i]).1@.len() > 0)
        &&& keys_sorted(self.names@)
        &&& keys_unique(self.meta@)
    }

    /// Path `p` is filed under token `t`.
    pub open spec fn token_has_path(self, t: Seq<char>, p: Seq<char>) -> bool {
        table_has(self.tokens@, t, p)
    }

    /// Path `p` is filed somewhere in the inverted index.
    pub open spec fn has_path(self, p: Seq<char>) -> bool {
        exists|t: Seq<char>| self.token_has_path(t, p)
    }

    /// What the ordered name index maps `n` to, if anything.
    pub open spec fn name_lookup(self, n: Seq<char>) -> Option<Seq<char>> {
        let i = key_index(self.names@, n);
        if i >= 0 {
            Some(self.names@[i].1@)
        } else {
            None
        }
    }

    /// The stored modification time of path `p`, if any.
    pub open spec fn mtime_of(self, p: Seq<char>) -> Option<u64> {
        let i = key_index(self.meta@, p);
        if i >= 0 {
            Some(self.meta@[i].1)
        } else {
            None
        }
    }

    /// A store with nothing in it.
    pub fn new() -> (r: IndexStore)
        ensures
            r.wf(),
            r.tokens@.len() == 0,
            r.names@.len() == 0,
            r.meta@.len() == 0,
            r.last_rebuild is None,
    {
        IndexStore {
            tokens: Vec::new(),
            names: Vec::new(),
            meta: Vec::new(),
            last_rebuild: None,
        }
    }

    /// Deletes path `p` from both indexes and from the modification-time
    /// table; tokens and names that pointed only at `p` disappear with it.
    pub fn remove(&mut self, p: &String)
        requires
            old(self).wf(),
        ensures
            final(self).wf(),
            forall|t: Seq<char>| !final(self).token_has_path(t, p@),
            forall|t: Seq<char>, q: Seq<char>|
                q != p@ ==> final(self).token_has_path(t, q) == old(self).token_has_path(t, q),
            forall|n: Seq<char>, v: Seq<char>|
                names_has(final(self).names@, n, v) == (names_has(old(self).names@, n, v) && v
                    != p@),
            forall|q: Seq<char>, m: u64|
                meta_has(final(self).meta@, q, m) == (meta_has(old(self).meta@, q, m) && q
                    != p@),
            final(self).mtime_of(p@) is None,
            forall|n: Seq<char>|
                #[trigger] final(self).name_lookup(n) is Some ==> final(self).name_lookup(
                    n,
                ).unwrap() != p@,
            final(self).last_rebuild == old(self).last_rebuild,
    {
        let new_tokens = remove_from_tokens(&self.tokens, p);
        let new_names = remove_from_names(&self.names, p);
        let new_meta = remove_from_meta(&self.meta, p);
        self.tokens = new_tokens;
        self.names = new_names;
        self.meta = new_meta;
        proof {
            lemma_key_index(self.meta@, p@);
            let ki = key_index(self.meta@, p@);
            if ki >= 0 {
                assert(meta_has(self.meta@, p@, self.meta@[ki].1));
                assert(false);
            }
            assert forall|n: Seq<char>|
                #[trigger] self.name_lookup(n) is Some implies self.name_lookup(n).unwrap()
                    != p@ by {
                lemma_key_index(self.names@, n);
                let ni = key_index(self.names@, n);
                assert(names_has(self.names@, n, self.names@[ni].1@));
            }
        }
    }

    /// Exact lookup in the ordered name index.  The key is expected
    /// lowercased, as the index stores it.
    pub fn lookup_exact(&self, name: &String) -> (r: Option<String>)
        ensures
            r is Some <==> self.name_lookup(name@) is Some,
            r is Some ==> r.unwrap()@ == self.name_lookup(name@).unwrap(),
    {
        proof {
            lemma_key_index(self.names@, name@);
        }
        match find_key(&self.names, name) {
            Some(i) => Some(self.names[i].1.clone()),
            None => None,
        }
    }

    /// All paths filed under one token, in their stored order; empty when
    /// the token is unknown.
    pub fn lookup_by_token(&self, token: &String) -> (r: Vec<String>)
        ensures
            key_index(self.tokens@, token@) >= 0 ==> r@ == self.tokens@[key_index(
                self.tokens@,
                token@,
            )].1@,
            key_index(self.tokens@, token@) < 0 ==> r@.len() == 0,
            forall|p: Seq<char>| path_in(r@, p) ==> self.token_has_path(token@, p),
    {
        proof {
            lemma_key_index(self.tokens@, token@);
        }
        match find_key(&self.tokens, token) {
            Some(i) => clone_paths(&self.tokens[i].1),
            None => Vec::new(),
        }
    }

    /// The last rebuild is still fresh at time `now`.
    pub open spec fn fresh_at(self, now: u64) -> bool {
        match self.last_rebuild {
            Option::Some(t) => t <= now && now - t < REBUILD_FRESH_FOR,
            Option::None => false,
        }
    }

    /// Whether a rebuild at time `now` would do any work.
    pub fn needs_rebuild(&self, now: u64) -> (r: bool)
        ensures
            r == !self.fresh_at(now),
    {
        match self.last_rebuild {
            Some(t) => !(t <= now && now - t < REBUILD_FRESH_FOR),
            None => true,
        }
    }

    /// Files a fresh entry in all three structures.  The path must not be
    /// present anywhere yet.
    fn insert_entry(&mut self, e: &IndexEntry)
        requires
            old(self).wf(),
            forall|t: Seq<char>| !old(self).token_has_path(t, e.path@),
            forall|n: Seq<char>, v: Seq<char>| names_has(old(self).names@, n, v) ==> v != e.path@,
            forall|m: u64| !meta_has(old(self).meta@, e.path@, m),
        ensures
            final(self).wf(),
            forall|t: Seq<char>|
                final(self).token_has_path(t, e.path@) == is_token_of(lower_of(e.name@), t),
            forall|t: Seq<char>, q: Seq<char>|
                q != e.path@ ==> final(self).token_has_path(t, q) == old(self).token_has_path(
                    t,
                    q,
                ),
            forall|n: Seq<char>, v: Seq<char>|
                names_has(final(self).names@, n, v) == (if n == lower_of(e.name@) {
                    v == e.path@
                } else {
                    names_has(old(self).names@, n, v)
                }),
            forall|q: Seq<char>, m: u64|
                meta_has(final(self).meta@, q, m) == (if q == e.path@ {
                    m == e.modified_at
                } else {
                    meta_has(old(self).meta@, q, m)
                }),
            final(self).last_rebuild == old(self).last_rebuild,
    {
        proof {
            assert forall|t: Seq<char>| !table_has(self.tokens@, t, e.path@) by {
                assert(!old(self).token_has_path(t, e.path@));
            }
        }
        let toks = tokenize(e.name.as_str());
        tokens_add(&mut self.tokens, &toks, &e.path);
        names_put(&mut self.names, &toks[0], &e.path);
        meta_put(&mut self.meta, &e.path, e.modified_at);
        proof {
            let nl = lower_of(e.name@);
            assert forall|t: Seq<char>|
                final(self).token_has_path(t, e.path@) == is_token_of(nl, t) by {
                if final(self).token_has_path(t, e.path@) {
                    let w = choose|w: int| 0 <= w < toks@.len() && (#[trigger] toks@[w])@ == t;
                    if w == 0 {
                        assert(t == nl);
                    } else {
                        assert(is_word_of(nl, toks@[w]@));
                    }
                }
                if is_token_of(nl, t) {
                    if t == nl {
                        assert(toks@[0]@ == t);
                    } else {
                        let (i, j) = choose|i: int, j: int|
                            alnum_run(nl, i, j) && j - i > 1 && t == #[trigger] nl.subrange(
                                i,
                                j,
                            );
                        assert(word_emitted(nl, toks@, i, j));
                        let w = choose|w: int|
                            0 <= w < toks@.len() && (#[trigger] toks@[w])@ == nl.subrange(i, j);
                        assert(toks@[w]@ == t);
                    }
                    assert(exists|w: int| 0 <= w < toks@.len() && (#[trigger] toks@[w])@ == t);
                }
            }
        }
    }

    /// Inserts or refreshes one entry.  When the stored modification time
    /// for the path already equals the new one the call is a no-op and the
    /// store is left untouched; otherwise the old entry, if any, is removed
    /// and the entry is filed afresh under all its tokens.
    pub fn upsert(&mut self, e: &IndexEntry)
        requires
            old(self).wf(),
        ensures
            final(self).wf(),
            old(self).mtime_of(e.path@) == Some(e.modified_at) ==> *final(self) == *old(self),
            final(self).mtime_of(e.path@) == Some(e.modified_at),
            final(self).last_rebuild == old(self).last_rebuild,
            old(self).mtime_of(e.path@) != Some(e.modified_at) ==> {
                &&& (forall|t: Seq<char>|
                    final(self).token_has_path(t, e.path@) == is_token_of(lower_of(e.name@), t))
                &&& (forall|t: Seq<char>, q: Seq<char>|
                    q != e.path@ ==> final(self).token_has_path(t, q) == old(
                        self,
                    ).token_has_path(t, q))
                &&& (forall|n: Seq<char>, v: Seq<char>|
                    names_has(final(self).names@, n, v) == (if n == lower_of(e.name@) {
                        v == e.path@
                    } else {
                        names_has(old(self).names@, n, v) && v != e.path@
                    }))
                &&& (forall|q: Seq<char>, m: u64|
                    q != e.path@ ==> meta_has(final(self).meta@, q, m) == meta_has(
                        old(self).meta@,
                        q,
                        m,
                    ))
            },
    {
        proof {
            lemma_key_index(self.meta@, e.path@);
        }
        match find_key(&self.meta, &e.path) {
            Some(i) => {
                if self.meta[i].1 == e.modified_at {
                    return ;
                }
            },
            None => {},
        }
        self.remove(&e.path);
        self.insert_entry(e);
        proof {
            lemma_mtime_bridge(self.meta@, e.path@);
            assert(meta_has(self.meta@, e.path@, e.modified_at));
        }
    }

    /// Clears and repopulates every structure from a crawl, applying the
    /// Ignore Policy to each entry again; a call within the freshness window
    /// of the last rebuild is a no-op.  Crawl entries carry distinct paths.
    pub fn rebuild(&mut self, policy: &IgnorePolicy, entries: &Vec<IndexEntry>, now: u64)
        requires
            old(self).wf(),
            forall|k1: int, k2: int|
                0 <= k1 < k2 < entries@.len() ==> (#[trigger] entries@[k1]).path@ != (
                #[trigger] entries@[k2]).path@,
        ensures
            final(self).wf(),
            old(self).fresh_at(now) ==> *final(self) == *old(self),
            !old(self).fresh_at(now) ==> {
                &&& final(self).last_rebuild == Some(now)
                &&& (forall|t: Seq<char>, p: Seq<char>|
                    #[trigger] final(self).token_has_path(t, p) == crawl_provides(
                        *policy,
                        entries@,
                        t,
                        p,
                    ))
                &&& (forall|k: int|
                    0 <= k < entries@.len() && entry_eligible(policy, #[trigger] entries@[k])
                        ==> final(self).token_has_path(
                        lower_of(entries@[k].name@),
                        entries@[k].path@,
                    ))
                &&& (forall|n: Seq<char>, v: Seq<char>|
                    names_has(final(self).names@, n, v) ==> exists|k: int|
                        0 <= k < entries@.len() && entry_eligible(policy, #[trigger] entries@[k])
                            && entries@[k].path@ == v && lower_of(entries@[k].name@) == n)
                &&& (forall|k: int|
                    0 <= k < entries@.len() && entry_eligible(policy, #[trigger] entries@[k])
                        ==> names_key(final(self).names@, lower_of(entries@[k].name@)))
                &&& (forall|k: int|
                    0 <= k < entries@.len() && entry_eligible(policy, #[trigger] entries@[k])
                        ==> final(self).name_lookup(lower_of(entries@[k].name@)) is Some)
                &&& (forall|q: Seq<char>, m: u64|
                    #[trigger] meta_has(final(self).meta@, q, m) == (exists|k: int|
                        0 <= k < entries@.len() && entry_eligible(policy, #[trigger] entries@[k])
                            && entries@[k].path@ == q && entries@[k].modified_at == m))
            },
    {
        if !self.needs_rebuild(now) {
            return ;
        }
        self.tokens = Vec::new();
        self.names = Vec::new();
        self.meta = Vec::new();
        self.last_rebuild = Some(now);
        let mut k: usize = 0;
        while k < entries.len()
            invariant
                k <= entries@.len(),
                self.wf(),
                self.last_rebuild == Some(now),
                forall|k1: int, k2: int|
                    0 <= k1 < k2 < entries@.len() ==> (#[trigger] entries@[k1]).path@ != (
                    #[trigger] entries@[k2]).path@,
                forall|t: Seq<char>, p: Seq<char>|
                    #[trigger] self.token_has_path(t, p) == crawl_provides(
                        *policy,
                        entries@.subrange(0, k as int),
                        t,
                        p,
                    ),
                forall|n: Seq<char>, v: Seq<char>|
                    names_has(self.names@, n, v) ==> exists|kk: int|
                        0 <= kk < k && entry_eligible(policy, #[trigger] entries@[kk])
                            && entries@[kk].path@ == v && lower_of(entries@[kk].name@) == n,
                forall|kk: int|
                    0 <= kk < k && entry_eligible(policy, #[trigger] entries@[kk]) ==> names_key(
                        self.names@,
                        lower_of(entries@[kk].name@),
                    ),
                forall|q: Seq<char>, m: u64|
                    #[trigger] meta_has(self.meta@, q, m) == (exists|kk: int|
                        0 <= kk < k && entry_eligible(policy, #[trigger] entries@[kk])
                            && entries@[kk].path@ == q && entries@[kk].modified_at == m),
            decreases entries@.len() - k,
        {
            let ghost pre = *self;
            let ghost prefix = entries@.subrange(0, k as int);
            let e = &entries[k];
            let ok = policy.is_eligible(e.path.as_str(), e.name.as_str());
            if ok {
                proof {
                    assert forall|t: Seq<char>| !pre.token_has_path(t, e.path@) by {
                        if pre.token_has_path(t, e.path@) {
                            assert(crawl_provides(*policy, prefix, t, e.path@));
                            let kk = choose|kk: int|
                                0 <= kk < prefix.len() && entry_eligible(
                                    policy,
                                    #[trigger] prefix[kk],
                                ) && prefix[kk].path@ == e.path@ && is_token_of(
                                    lower_of(prefix[kk].name@),
                                    t,
                                );
                            assert(entries@[kk] == prefix[kk]);
                            assert(false);
                        }
                    }
                    assert forall|m: u64| !meta_has(pre.meta@, e.path@, m) by {
                        if meta_has(pre.meta@, e.path@, m) {
                            let kk = choose|kk: int|
                                0 <= kk < k && entry_eligible(policy, #[trigger] entries@[kk])
                                    && entries@[kk].path@ == e.path@ && entries@[kk].modified_at
                                    == m;
                            assert(false);
                        }
                    }
                }
                self.insert_entry(e);
            }
            proof {
                let cur = *self;
                let nl = lower_of(entries@[k as int].name@);
                assert(entries@.subrange(0, k + 1) =~= prefix.push(entries@[k as int]));
                assert forall|t: Seq<char>, p: Seq<char>|
                    #[trigger] cur.token_has_path(t, p) == crawl_provides(
                        *policy,
                        entries@.subrange(0, k + 1),
                        t,
                        p,
                    ) by {
                    let ext = entries@.subrange(0, k + 1);
                    if cur.token_has_path(t, p) {
                        if ok && p == entries@[k as int].path@ {
                            assert(is_token_of(nl, t));
                            assert(entry_eligible(policy, ext[k as int]));
                            assert(crawl_provides(*policy, ext, t, p));
                        } else {
                            assert(pre.token_has_path(t, p));
                            assert(crawl_provides(*policy, prefix, t, p));
                            let kk = choose|kk: int|
                                0 <= kk < prefix.len() && entry_eligible(
                                    policy,
                                    #[trigger] prefix[kk],
                                ) && prefix[kk].path@ == p && is_token_of(
                                    lower_of(prefix[kk].name@),
                                    t,
                                );
                            assert(ext[kk] == prefix[kk]);
                            assert(crawl_provides(*policy, ext, t, p));
                        }
                    }
                    if crawl_provides(*policy, ext, t, p) {
                        let kk = choose|kk: int|
                            0 <= kk < ext.len() && entry_eligible(policy, #[trigger] ext[kk])
                                && ext[kk].path@ == p && is_token_of(lower_of(ext[kk].name@), t);
                        if kk < k {
                            assert(prefix[kk] == ext[kk]);
                            assert(crawl_provides(*policy, prefix, t, p));
                            assert(pre.token_has_path(t, p));
                            if ok && p == entries@[k as int].path@ {
                                assert(entries@[kk].path@ != entries@[k as int].path@);
                                assert(false);
                            }
                            assert(cur.token_has_path(t, p));
                        } else {
                            assert(ext[kk] == entries@[k as int]);
                            assert(ok);
                            assert(cur.token_has_path(t, p));
                        }
                    }
                }
                assert forall|q: Seq<char>, m: u64|
                    #[trigger] meta_has(cur.meta@, q, m) == (exists|kk: int|
                        0 <= kk < k + 1 && entry_eligible(policy, #[trigger] entries@[kk])
                            && entries@[kk].path@ == q && entries@[kk].modified_at == m) by {
                    if meta_has(cur.meta@, q, m) {
                        if ok && q == entries@[k as int].path@ {
                            assert(m == entries@[k as int].modified_at);
                        } else {
                            assert(meta_has(pre.meta@, q, m));
                        }
                    }
                    if exists|kk: int|
                        0 <= kk < k + 1 && entry_eligible(policy, #[trigger] entries@[kk])
                            && entries@[kk].path@ == q && entries@[kk].modified_at == m {
                        let kk = choose|kk: int|
                            0 <= kk < k + 1 && entry_eligible(policy, #[trigger] entries@[kk])
                                && entries@[kk].path@ == q && entries@[kk].modified_at == m;
                        if kk < k {
                            assert(meta_has(pre.meta@, q, m));
                            if ok && q == entries@[k as int].path@ {
                                assert(false);
                            }
                            assert(meta_has(cur.meta@, q, m));
                        } else {
                            assert(ok);
                            assert(meta_has(cur.meta@, q, m));
                        }
                    }
                }
                assert forall|n: Seq<char>, v: Seq<char>|
                    names_has(cur.names@, n, v) implies exists|kk: int|
                        0 <= kk < k + 1 && entry_eligible(policy, #[trigger] entries@[kk])
                            && entries@[kk].path@ == v && lower_of(entries@[kk].name@) == n by {
                    if ok && n == nl {
                        assert(v == entries@[k as int].path@);
                        assert(entry_eligible(policy, entries@[k as int]));
                    } else {
                        assert(names_has(pre.names@, n, v));
                        let kk = choose|kk: int|
                            0 <= kk < k && entry_eligible(policy, #[trigger] entries@[kk])
                                && entries@[kk].path@ == v && lower_of(entries@[kk].name@) == n;
                        assert(0 <= kk < k + 1);
                    }
                }
                assert forall|kk: int|
                    0 <= kk < k + 1 && entry_eligible(policy, #[trigger] entries@[kk])
                        implies names_key(cur.names@, lower_of(entries@[kk].name@)) by {
                    let n = lower_of(entries@[kk].name@);
                    if kk == k {
                        assert(names_has(cur.names@, nl, entries@[k as int].path@));
                    } else if ok && n == nl {
                        assert(names_has(cur.names@, nl, entries@[k as int].path@));
                    } else {
                        assert(names_key(pre.names@, n));
                        let i = choose|i: int|
                            0 <= i < pre.names@.len() && (#[trigger] pre.names@[i]).0@ == n;
                        assert(names_has(pre.names@, n, pre.names@[i].1@));
                        assert(names_has(cur.names@, n, pre.names@[i].1@));
                    }
                }
            }
            k += 1;
        }
        proof {
            assert(entries@.subrange(0, entries@.len() as int) =~= entries@);
            assert forall|k: int|
                0 <= k < entries@.len() && entry_eligible(policy, #[trigger] entries@[k])
                    implies final(self).token_has_path(
                    lower_of(entries@[k].name@),
                    entries@[k].path@,
                ) by {
                assert(is_token_of(lower_of(entries@[k].name@), lower_of(entries@[k].name@)));
                assert(crawl_provides(
                    *policy,
                    entries@,
                    lower_of(entries@[k].name@),
                    entries@[k].path@,
                ));
            }
            assert forall|k: int|
                0 <= k < entries@.len() && entry_eligible(policy, #[trigger] entries@[k])
                    implies self.name_lookup(lower_of(entries@[k].name@)) is Some by {
                let n = lower_of(entries@[k].name@);
                assert(names_key(self.names@, n));
                let i = choose|i: int|
                    0 <= i < self.names@.len() && (#[trigger] self.names@[i]).0@ == n;
                assert(names_has(self.names@, n, self.names@[i].1@));
                lemma_name_bridge(self.names@, n);
            }
        }
    }

    /// Ordered range scan: the paths of every name that starts with
    /// `prefix`, in name order.
    pub fn lookup_prefix(&self, prefix: &String) -> (r: Vec<String>)
        ensures
            r@ == prefix_paths(self.names@, prefix@),
    {
        let mut r: Vec<String> = Vec::new();
        let mut i: usize = 0;
        while i < self.names.len()
            invariant
                i <= self.names@.len(),
                r@ == prefix_paths(self.names@.subrange(0, i as int), prefix@),
            decreases self.names@.len() - i,
        {
            proof {
                assert(self.names@.subrange(0, i + 1).drop_last() =~= self.names@.subrange(
                    0,
                    i as int,
                ));
                assert(self.names@.subrange(0, i + 1).last() == self.names@[i as int]);
            }
            if str_starts_with(self.names[i].0.as_str(), prefix.as_str()) {
                r.push(self.names[i].1.clone());
            }
            i += 1;
        }
        proof {
            assert(self.names@.subrange(0, self.names@.len() as int) =~= self.names@);
        }
        r
    }
}

/// A key is present in an association table.
pub open spec fn names_key(s: Seq<(String, String)>, n: Seq<char>) -> bool {
    exists|i: int| 0 <= i < s.len() && (#[trigger] s[i]).0@ == n
}

/// The crawl `entries`, filtered by `policy`, file path `p` under token
/// `t`.
pub open spec fn crawl_provides(
    policy: IgnorePolicy,
    entries: Seq<IndexEntry>,
    t: Seq<char>,
    p: Seq<char>,
) -> bool {
    exists|k: int|
        0 <= k < entries.len() && entry_eligible(&policy, #[trigger] entries[k])
            && entries[k].path@ == p && is_token_of(lower_of(entries[k].name@), t)
}

/// The policy admits the entry.
pub open spec fn entry_eligible(policy: &IgnorePolicy, e: IndexEntry) -> bool {
    policy.eligible_spec(e.path@, e.name@)
}

/// Paths of the table entries whose key starts with `pre`, in table order.
pub open spec fn prefix_paths(s: Seq<(String, String)>, pre: Seq<char>) -> Seq<String>
    decreases s.len(),
{
    if s.len() == 0 {
        Seq::empty()
    } else {
        let r = prefix_paths(s.drop_last(), pre);
        if seq_starts_with(s.last().0@, pre) {
            r.push(s.last().1)
        } else {
            r
        }
    }
}

/// With unique keys, the stored time of a path is the one `meta_has`
/// speaks of.
pub proof fn lemma_mtime_bridge(s: Seq<(String, u64)>, p: Seq<char>)
    requires
        keys_unique(s),
    ensures
        forall|m: u64|
            #[trigger] meta_has(s, p, m) == (key_index(s, p) >= 0 && s[key_index(s, p)].1 == m),
{
    lemma_key_index(s, p);
    let ki = key_index(s, p);
    assert forall|m: u64|
        #[trigger] meta_has(s, p, m) == (ki >= 0 && s[ki].1 == m) by {
        if meta_has(s, p, m) {
            let i = choose|i: int|
                0 <= i < s.len() && (#[trigger] s[i]).0@ == p && s[i].1 == m;
            if ki == -1 {
                assert(s[i].0@ != p);
            }
            if ki >= 0 && ki != i {
                assert(s[ki].0@ == p);
                assert(false);
            }
        }
        if ki >= 0 && s[ki].1 == m {
            assert(s[ki].0@ == p && s[ki].1 == m);
        }
    }
}

/// With sorted keys, the looked-up value of a name is the one `names_has`
/// speaks of.
pub proof fn lemma_name_bridge(s: Seq<(String, String)>, n: Seq<char>)
    requires
        keys_sorted(s),
    ensures
        forall|v: Seq<char>|
            #[trigger] names_has(s, n, v) == (key_index(s, n) >= 0 && s[key_index(s, n)].1@
                == v),
{
    lemma_key_index(s, n);
    let ki = key_index(s, n);
    assert forall|v: Seq<char>|
        #[trigger] names_has(s, n, v) == (ki >= 0 && s[ki].1@ == v) by {
        if names_has(s, n, v) {
            let i = choose|i: int|
                0 <= i < s.len() && (#[trigger] s[i]).0@ == n && s[i].1@ == v;
            if ki == -1 {
                assert(s[i].0@ != n);
            }
            if ki >= 0 && ki != i {
                assert(s[ki].0@ == n);
                if ki < i {
                    assert(lex_lt(s[ki].0@, s[i].0@));
                    lemma_lex_total(s[ki].0@, s[i].0@);
                } else {
                    assert(lex_lt(s[i].0@, s[ki].0@));
                    lemma_lex_total(s[i].0@, s[ki].0@);
                }
                assert(false);
            }
        }
        if ki >= 0 && s[ki].1@ == v {
            assert(s[ki].0@ == n && s[ki].1@ == v);
        }
    }
}

/// Copies a path list element by element.
fn clone_paths(v: &Vec<String>) -> (r: Vec<String>)
    ensures
        r@ == v@,
{
    let mut r: Vec<String> = Vec::new();
    let mut i: usize = 0;
    while i < v.len()
        invariant
            i <= v@.len(),
            r@ == v@.subrange(0, i as int),
        decreases v@.len() - i,
    {
        r.push(v[i].clone());
        proof {
            assert(r@ =~= v@.subrange(0, i + 1));
        }
        i += 1;
    }
    proof {
        assert(r@ =~= v@);
    }
    r
}

/// The tokens of a base name: the full lowercased name first, then every
/// maximal alphanumeric word of more than one character.
pub fn tokenize(name: &str) -> (r: Vec<String>)
    ensures
        r@.len() >= 1,
        r@[0]@ == lower_of(name@),
        forall|t: int| 1 <= t < r@.len() ==> is_word_of(lower_of(name@), #[trigger] r@[t]@),
        forall|i: int, j: int|
            #[trigger] alnum_run(lower_of(name@), i, j) && j - i > 1 ==> word_emitted(
                lower_of(name@),
                r@,
                i,
                j,
            ),
{
    let low = lowercase(name);
    let mut words = word_tokens(low.as_str());
    let ghost wseq = words@;
    let mut r: Vec<String> = Vec::new();
    r.push(low);
    r.append(&mut words);
    proof {
        assert(r@.len() == 1 + wseq.len());
        assert(r@[0]@ == lower_of(name@));
        assert(forall|t: int| 0 <= t < wseq.len() ==> r@[t + 1] == #[trigger] wseq[t]);
        assert forall|i: int, j: int|
            #[trigger] alnum_run(lower_of(name@), i, j) && j - i > 1 implies word_emitted(
            lower_of(name@),
            r@,
            i,
            j,
        ) by {
            assert(word_emitted(lower_of(name@), wseq, i, j));
            let t = choose|t: int|
                0 <= t < wseq.len() && (#[trigger] wseq[t])@ == lower_of(name@).subrange(i, j);
            assert(r@[t + 1]@ == lower_of(name@).subrange(i, j));
        }
    }
    r
}

} // verus!
