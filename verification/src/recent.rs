//! Top-K recency: keep only the K most recently modified entries out of a
//! crawl, without sorting the whole crawl.
//!
//! A bounded buffer holds at most K entries in ascending time order; every
//! candidate is pushed and the minimum is dropped whenever the buffer
//! overflows, which is the bounded-min-heap technique on a vector.

use vstd::prelude::*;

verus! {

/// The smaller of two integers.
pub open spec fn imin(a: int, b: int) -> int {
    if a <= b {
        a
    } else {
        b
    }
}

/// `r` picks its elements at pairwise distinct positions `sel` of
/// `entries`.
pub open spec fn selection_of(
    r: Seq<(u64, String)>,
    entries: Seq<(u64, String)>,
    sel: Seq<int>,
) -> bool {
    &&& sel.len() == r.len()
    &&& (forall|x: int|
        0 <= x < sel.len() ==> 0 <= #[trigger] sel[x] < entries.len() && r[x] == entries[sel[x]])
    &&& (forall|a: int, b: int| 0 <= a < b < sel.len() ==> sel[a] != sel[b])
}

/// Every entry before `upto` is either selected in `sel` or no newer than
/// the minimum of the full buffer `b`.
pub open spec fn kept_or_small(
    entries: Seq<(u64, String)>,
    sel: Seq<int>,
    b: Seq<(u64, String)>,
    k: int,
    upto: int,
) -> bool {
    forall|yy: int| #![trigger sel.contains(yy)]
        0 <= yy < upto ==> sel.contains(yy) || (b.len() == k && (k == 0 || entries[yy].0
            <= b[0].0))
}

/// Pointwise use of `kept_or_small`.
proof fn lemma_kept_instance(
    entries: Seq<(u64, String)>,
    sel: Seq<int>,
    b: Seq<(u64, String)>,
    k: int,
    upto: int,
    yy: int,
)
    requires
        kept_or_small(entries, sel, b, k, upto),
        0 <= yy < upto,
    ensures
        sel.contains(yy) || (b.len() == k && (k == 0 || entries[yy].0 <= b[0].0)),
{
}

/// The K most recently modified entries, newest first: every other entry
/// of the crawl is no newer than the oldest kept one.
pub fn find_recent_files(entries: &Vec<(u64, String)>, k: usize) -> (r: Vec<(u64, String)>)
    ensures
        r@.len() == imin(k as int, entries@.len() as int),
        forall|x: int, y: int|
            0 <= x < y < r@.len() ==> (#[trigger] r@[x]).0 >= (#[trigger] r@[y]).0,
        exists|sel: Seq<int>|
            #[trigger] selection_of(r@, entries@, sel) && (forall|y: int|
                #![trigger sel.contains(y)]
                0 <= y < entries@.len() ==> sel.contains(y) || (r@.len() == k && (k == 0
                    || entries@[y].0 <= r@[r@.len() - 1].0))),
{
    let mut buf: Vec<(u64, String)> = Vec::new();
    let ghost mut sel: Seq<int> = Seq::empty();
    let mut y: usize = 0;
    while y < entries.len()
        invariant
            y <= entries@.len(),
            buf@.len() == imin(k as int, y as int),
            sel.len() == buf@.len(),
            forall|a: int, b: int|
                0 <= a < b < buf@.len() ==> (#[trigger] buf@[a]).0 <= (#[trigger] buf@[b]).0,
            forall|x: int|
                0 <= x < sel.len() ==> 0 <= #[trigger] sel[x] < y && buf@[x] == entries@[sel[x]],
            forall|a: int, b: int| 0 <= a < b < sel.len() ==> sel[a] != sel[b],
            kept_or_small(entries@, sel, buf@, k as int, y as int),
        decreases entries@.len() - y,
    {
        let ghost prevb = buf@;
        let ghost prevs = sel;
        proof {
            assert(kept_or_small(entries@, prevs, prevb, k as int, y as int));
        }
        let e = (entries[y].0, entries[y].1.clone());
        proof {
            assert(e == entries@[y as int]);
        }
        let mut pos: usize = 0;
        while pos < buf.len() && buf[pos].0 < e.0
            invariant
                pos <= buf@.len(),
                forall|a: int| 0 <= a < pos ==> (#[trigger] buf@[a]).0 < e.0,
            decreases buf@.len() - pos,
        {
            pos += 1;
        }
        buf.insert(pos, e);
        proof {
            sel = sel.insert(pos as int, y as int);
            let cur = buf@;
            assert(cur == prevb.insert(pos as int, entries@[y as int]));
            assert(forall|a: int| 0 <= a < pos ==> cur[a] == prevb[a]);
            assert(forall|a: int| pos < a < cur.len() ==> cur[a] == prevb[a - 1]);
            assert(forall|a: int| 0 <= a < pos ==> sel[a] == prevs[a]);
            assert(forall|a: int| pos < a < sel.len() ==> sel[a] == prevs[a - 1]);
            assert(sel[pos as int] == y as int);
            assert forall|a: int, b: int|
                0 <= a < b < cur.len() implies (#[trigger] cur[a]).0 <= (
            #[trigger] cur[b]).0 by {
                if a == pos {
                    assert(cur[b] == prevb[b - 1]);
                    assert(prevb[b - 1].0 >= e.0 || b - 1 >= pos);
                } else if b == pos {
                    assert(cur[a] == prevb[a]);
                } else {
                }
            }
        }
        let ghost midb = buf@;
        let ghost mids = sel;
        let dropped = buf.len() > k;
        if dropped {
            buf.remove(0);
            proof {
                sel = sel.subrange(1, sel.len() as int);
                assert(buf@ =~= midb.subrange(1, midb.len() as int));
                assert(forall|a: int| 0 <= a < buf@.len() ==> buf@[a] == midb[a + 1]);
                assert(forall|a: int| 0 <= a < sel.len() ==> sel[a] == mids[a + 1]);
            }
        }
        proof {
            assert forall|yy: int| #![trigger sel.contains(yy)]
                0 <= yy < y + 1 implies sel.contains(yy) || (buf@.len() == k && (k == 0
                    || entries@[yy].0 <= buf@[0].0)) by {
                let cur = buf@;
                if yy < y {
                    lemma_kept_instance(entries@, prevs, prevb, k as int, y as int, yy);
                }
                if dropped {
                    assert(midb.len() == prevb.len() + 1);
                    assert(cur.len() == k);
                    if yy == y {
                        if pos == 0 {
                            // the new entry itself was the minimum; it may
                            // be the one dropped, and it is below the rest
                            if k > 0 {
                                assert(mids[0] == y);
                                if sel.contains(yy) {
                                } else {
                                    assert(midb[0] == entries@[y as int]);
                                    assert(midb[0].0 <= midb[1].0);
                                    assert(cur[0] == midb[1]);
                                }
                            }
                        } else {
                            assert(mids[pos as int] == y);
                            assert(sel[pos - 1] == y);
                            assert(sel.contains(yy));
                        }
                    } else {
                        if prevs.contains(yy) {
                            let a = choose|a: int| 0 <= a < prevs.len() && prevs[a] == yy;
                            let ca: int = if a < pos {
                                a
                            } else {
                                a + 1
                            };
                            assert(mids[ca] == yy);
                            if ca == 0 {
                                // the slot that was dropped held `yy`; it
                                // was the minimum of the grown buffer
                                assert(midb[0] == entries@[yy]);
                                if k > 0 {
                                    assert(midb[0].0 <= midb[1].0);
                                    assert(cur[0] == midb[1]);
                                }
                            } else {
                                assert(sel[ca - 1] == yy);
                                assert(sel.contains(yy));
                            }
                        } else {
                            assert(prevb.len() == k);
                            if k > 0 {
                                assert(entries@[yy].0 <= prevb[0].0);
                                if pos == 0 {
                                    assert(midb[1] == prevb[0]);
                                    assert(cur[0] == prevb[0]);
                                } else {
                                    assert(midb[0] == prevb[0]);
                                    assert(midb[1] == if 1 < pos {
                                        prevb[1]
                                    } else {
                                        entries@[y as int]
                                    });
                                    assert(midb[0].0 <= midb[1].0);
                                    assert(cur[0] == midb[1]);
                                }
                            }
                        }
                    }
                } else {
                    // nothing dropped: everything processed stays selected
                    assert(prevb.len() < k);
                    if yy == y {
                        assert(sel[pos as int] == y);
                        assert(sel.contains(yy));
                    } else {
                        assert(prevs.contains(yy));
                        let a = choose|a: int| 0 <= a < prevs.len() && prevs[a] == yy;
                        let ca: int = if a < pos {
                            a
                        } else {
                            a + 1
                        };
                        assert(sel[ca] == yy);
                        assert(sel.contains(yy));
                    }
                }
            }
            assert(kept_or_small(entries@, sel, buf@, k as int, y + 1));
        }
        y += 1;
    }
    // newest first
    let n = buf.len();
    let mut r: Vec<(u64, String)> = Vec::new();
    let mut x: usize = 0;
    while x < n
        invariant
            x <= n,
            n == buf@.len(),
            r@.len() == x,
            forall|a: int| 0 <= a < x ==> #[trigger] r@[a] == buf@[n - 1 - a],
        decreases n - x,
    {
        r.push((buf[n - 1 - x].0, buf[n - 1 - x].1.clone()));
        x += 1;
    }
    proof {
        let rsel = Seq::new(sel.len(), |i: int| sel[sel.len() - 1 - i]);
        assert forall|a: int, b: int| 0 <= a < b < rsel.len() implies rsel[a] != rsel[b] by {
            assert(rsel[a] == sel[sel.len() - 1 - a]);
            assert(rsel[b] == sel[sel.len() - 1 - b]);
        }
        assert(selection_of(r@, entries@, rsel));
        assert forall|yy: int| #![trigger rsel.contains(yy)]
            0 <= yy < entries@.len() implies rsel.contains(yy) || (r@.len() == k && (k == 0
                || entries@[yy].0 <= r@[r@.len() - 1].0)) by {
            lemma_kept_instance(entries@, sel, buf@, k as int, entries@.len() as int, yy);
            if sel.contains(yy) {
                let a = choose|a: int| 0 <= a < sel.len() && sel[a] == yy;
                assert(rsel[sel.len() - 1 - a] == yy);
                assert(rsel.contains(yy));
            } else {
                if k > 0 && buf@.len() == k {
                    assert(r@[r@.len() - 1] == buf@[0]);
                }
            }
        }
    }
    r
}

} // verus!
