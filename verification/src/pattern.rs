//! Trusted boundary to the `regex` crate, and the verified arithmetic on
//! what it reports.
//!
//! A pattern is compiled and used in one call, so no compiled value ever
//! crosses the boundary; the contracts speak only of the pattern and the
//! text.  Match spans are byte offsets, as the crate reports them.

use vstd::prelude::*;
use vstd::string::StringSliceAdditionalSpecFns;

verus! {

/// Whether `regex::Regex::new` accepts `pat`; a function of the pattern
/// alone.
pub uninterp spec fn regex_valid(pat: Seq<char>) -> bool;

/// Whether the regular expression `pat` matches anywhere in `text`;
/// meaningful when `regex_valid(pat)` holds.
pub uninterp spec fn regex_matches(pat: Seq<char>, text: Seq<char>) -> bool;

/// The byte-offset spans of the successive non-overlapping matches that
/// `regex::Regex::find_iter` reports for `pat` over `text`.
pub uninterp spec fn regex_spans(pat: Seq<char>, text: Seq<char>) -> Seq<(usize, usize)>;

/// Spans in order, non-overlapping, inside a text of `n` bytes.
pub open spec fn spans_wf(sp: Seq<(usize, usize)>, n: int) -> bool {
    &&& (forall|i: int| 0 <= i < sp.len() ==> (#[trigger] sp[i]).0 <= sp[i].1 <= n)
    &&& (forall|i: int| 0 <= i < sp.len() - 1 ==> (#[trigger] sp[i]).1 <= sp[i + 1].0)
}

/// Relies on regex::Regex::new and regex::Regex::is_match: `new` accepts
/// exactly the valid patterns, and `is_match` reports whether the pattern
/// matches anywhere in the text.
#[verifier::external_body]
pub(crate) fn regex_match_str(pat: &str, text: &str) -> (r: Option<bool>)
    ensures
        r is Some <==> regex_valid(pat@),
        r is Some ==> r.unwrap() == regex_matches(pat@, text@),
{
    match regex::Regex::new(pat) {
        Ok(re) => Some(re.is_match(text)),
        Err(_) => None,
    }
}

/// Relies on regex::Regex::new and regex::Regex::find_iter: the iterator
/// yields the successive non-overlapping matches, reported as byte-offset
/// spans inside the text, and yields at least one exactly when the pattern
/// matches somewhere in the text.
#[verifier::external_body]
pub(crate) fn regex_find_spans(pat: &str, text: &str) -> (r: Option<Vec<(usize, usize)>>)
    ensures
        r is Some <==> regex_valid(pat@),
        r is Some ==> r.unwrap()@ == regex_spans(pat@, text@),
        r is Some ==> spans_wf(
            regex_spans(pat@, text@),
            (text.spec_bytes().len() as usize) as int,
        ),
        r is Some ==> (regex_spans(pat@, text@).len() > 0 <==> regex_matches(pat@, text@)),
{
    match regex::Regex::new(pat) {
        Ok(re) => Some(re.find_iter(text).map(|m| (m.start(), m.end())).collect()),
        Err(_) => None,
    }
}

/// Total number of bytes covered by the spans.
pub open spec fn spans_total(sp: Seq<(usize, usize)>) -> int
    decreases sp.len(),
{
    if sp.len() == 0 {
        0
    } else {
        spans_total(sp.drop_last()) + (sp.last().1 - sp.last().0)
    }
}

/// Ordered non-overlapping spans inside `n` bytes cover at most `n` bytes.
pub proof fn lemma_spans_total_bound(sp: Seq<(usize, usize)>, n: int)
    requires
        spans_wf(sp, n),
        n >= 0,
    ensures
        0 <= spans_total(sp) <= n,
        sp.len() > 0 ==> spans_total(sp) <= sp.last().1 - sp[0].0,
    decreases sp.len(),
{
    if sp.len() > 0 {
        let dl = sp.drop_last();
        assert(spans_wf(dl, n)) by {
            assert(forall|i: int| 0 <= i < dl.len() ==> dl[i] == sp[i]);
        }
        lemma_spans_total_bound(dl, n);
        if dl.len() > 0 {
            assert(dl.last() == sp[sp.len() - 2]);
            assert(sp[sp.len() - 2].1 <= sp[sp.len() - 1].0);
        }
    }
}

/// Sums the lengths of well-formed spans; the sum stays within the text.
pub fn spans_length_sum(sp: &Vec<(usize, usize)>, n: usize) -> (r: usize)
    requires
        spans_wf(sp@, n as int),
    ensures
        r == spans_total(sp@),
        r <= n,
{
    proof {
        lemma_spans_total_bound(sp@, n as int);
    }
    let mut total: usize = 0;
    let mut i: usize = 0;
    while i < sp.len()
        invariant
            i <= sp@.len(),
            spans_wf(sp@, n as int),
            n >= 0,
            total == spans_total(sp@.subrange(0, i as int)),
            total <= n,
        decreases sp@.len() - i,
    {
        proof {
            assert(spans_wf(sp@.subrange(0, i + 1), n as int)) by {
                assert(forall|k: int|
                    0 <= k < i + 1 ==> sp@.subrange(0, i + 1)[k] == sp@[k]);
            }
            lemma_spans_total_bound(sp@.subrange(0, i + 1), n as int);
            assert(sp@.subrange(0, i + 1).drop_last() =~= sp@.subrange(0, i as int));
            assert(sp@.subrange(0, i + 1).last() == sp@[i as int]);
        }
        let (s, e) = sp[i];
        total = total + (e - s);
        i += 1;
    }
    proof {
        assert(sp@.subrange(0, sp@.len() as int) =~= sp@);
    }
    total
}

} // verus!
