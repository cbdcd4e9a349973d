use vstd::prelude::*;
use vstd::slice::slice_subrange;

use crate::parser::{Patch, Patches};

verus! {

/// Whether `pat` occurs in `d` at offset `i`.
pub open spec fn matches_at(d: Seq<u8>, pat: Seq<u8>, i: int) -> bool {
    0 <= i && i + pat.len() <= d.len() && d.subrange(i, i + pat.len()) == pat
}

/// `d` with `r` written over it from offset `i` on.
pub open spec fn splice(d: Seq<u8>, i: int, r: Seq<u8>) -> Seq<u8> {
    d.take(i) + r + d.skip(i + r.len())
}

/// Replacing `pat` by `rep` from offset `pos` on: the first match at or after the cursor is
/// overwritten and the scan resumes just past it. Gives the resulting buffer and the offsets
/// of the matches, in order.
pub open spec fn scan_from(d: Seq<u8>, pat: Seq<u8>, rep: Seq<u8>, pos: int) -> (Seq<u8>, Seq<int>)
    decreases d.len() - pos,
{
    if pos < 0 || pat.len() == 0 || rep.len() != pat.len() || pos + pat.len() > d.len() {
        (d, seq![])
    } else if matches_at(d, pat, pos) {
        let rest = scan_from(splice(d, pos, rep), pat, rep, pos + pat.len());
        (rest.0, seq![pos] + rest.1)
    } else {
        scan_from(d, pat, rep, pos + 1)
    }
}

/// The buffer after one patch has been applied over all of it.
pub open spec fn patched(d: Seq<u8>, pat: Seq<u8>, rep: Seq<u8>) -> Seq<u8> {
    scan_from(d, pat, rep, 0).0
}

/// The offsets at which one patch, applied over all of `d`, finds its pattern.
pub open spec fn hits(d: Seq<u8>, pat: Seq<u8>, rep: Seq<u8>) -> Seq<int> {
    scan_from(d, pat, rep, 0).1
}

/// The buffer after each patch of `ps` has been applied in turn.
pub open spec fn apply_all(d: Seq<u8>, ps: Seq<(Seq<u8>, Seq<u8>)>) -> Seq<u8>
    decreases ps.len(),
{
    if ps.len() == 0 {
        d
    } else {
        patched(apply_all(d, ps.drop_last()), ps.last().0, ps.last().1)
    }
}

proof fn lemma_scan_skips(d: Seq<u8>, pat: Seq<u8>, rep: Seq<u8>, pos: int, q: int)
    requires
        0 <= pos <= q,
        forall|j: int| pos <= j < q ==> !matches_at(d, pat, j),
        q + pat.len() <= d.len(),
    ensures
        scan_from(d, pat, rep, pos) == scan_from(d, pat, rep, q),
    decreases q - pos,
{
    if pos < q {
        lemma_scan_skips(d, pat, rep, pos + 1, q);
    }
}

proof fn lemma_scan_none(d: Seq<u8>, pat: Seq<u8>, rep: Seq<u8>, pos: int)
    requires
        0 <= pos,
        forall|j: int| pos <= j ==> !matches_at(d, pat, j),
    ensures
        scan_from(d, pat, rep, pos) == (d, Seq::<int>::empty()),
    decreases d.len() - pos,
{
    if pos + pat.len() <= d.len() && pat.len() > 0 && rep.len() == pat.len() {
        lemma_scan_none(d, pat, rep, pos + 1);
    }
}

fn window_equals(data: &[u8], pat: &[u8], i: usize) -> (r: bool)
    requires
        i + pat@.len() <= data@.len(),
    ensures
        r == matches_at(data@, pat@, i as int),
{
    let n = data.len();
    let mut k: usize = 0;
    while k < pat.len()
        invariant
            n == data@.len(),
            i + pat@.len() <= data@.len(),
            k <= pat@.len(),
            forall|t: int| 0 <= t < k ==> data@[i + t] == pat@[t],
        decreases pat@.len() - k,
    {
        if data[i + k] != pat[k] {
            assert(data@.subrange(i as int, i + pat@.len())[k as int] != pat@[k as int]);
            return false;
        }
        k = k + 1;
    }
    assert(data@.subrange(i as int, i + pat@.len()) =~= pat@);
    true
}

/// The offset of the first occurrence of `pat` in `data`, if any.
pub fn find_pattern(data: &[u8], pat: &[u8]) -> (r: Option<usize>)
    requires
        pat@.len() > 0,
    ensures
        match r {
            Some(i) => matches_at(data@, pat@, i as int) && forall|j: int|
                0 <= j < i ==> !matches_at(data@, pat@, j),
            None => forall|j: int| !matches_at(data@, pat@, j),
        },
{
    let n = data.len();
    let m = pat.len();
    if m > n {
        return None;
    }
    let mut i: usize = 0;
    while i <= n - m
        invariant
            n == data@.len(),
            m == pat@.len(),
            0 < m <= n,
            i <= data@.len() - pat@.len() + 1,
            forall|j: int| 0 <= j < i ==> !matches_at(data@, pat@, j),
        decreases data@.len() - i,
    {
        if window_equals(data, pat, i) {
            return Some(i);
        }
        i = i + 1;
    }
    None
}

/// Applies one patch over the whole buffer: each match of its pattern, searched from just
/// past the previous one, is overwritten by its replacement. Returns the match offsets.
pub fn apply_patch<const W: usize>(data: &mut Vec<u8>, p: &Patch<W>) -> (found: Vec<usize>)
    requires
        W > 0,
    ensures
        final(data)@ == patched(old(data)@, p.pattern@, p.replacement@),
        found@.map_values(|x: usize| x as int) == hits(old(data)@, p.pattern@, p.replacement@),
{
    let ghost pat = p.pattern@;
    let ghost rep = p.replacement@;
    let ghost start = old(data)@;
    let mut found: Vec<usize> = Vec::new();
    let mut position: usize = 0;
    assert(found@.map_values(|x: usize| x as int) =~= seq![]);
    loop
        invariant
            pat == p.pattern@,
            rep == p.replacement@,
            pat.len() == W,
            rep.len() == W,
            W > 0,
            data@.len() == start.len(),
            position <= data@.len(),
            scan_from(data@, pat, rep, position as int).0 == patched(start, pat, rep),
            found@.map_values(|x: usize| x as int) + scan_from(data@, pat, rep, position as int).1
                == hits(start, pat, rep),
        ensures
            data@ == patched(start, pat, rep),
            found@.map_values(|x: usize| x as int) == hits(start, pat, rep),
        decreases data@.len() - position,
    {
        let len = data.len();
        let rest = slice_subrange(data.as_slice(), position, len);
        match find_pattern(rest, p.pattern.as_slice()) {
            None => {
                proof {
                    assert forall|j: int| position <= j implies !matches_at(data@, pat, j) by {
                        if matches_at(data@, pat, j) {
                            assert(rest@.subrange(j - position, j - position + W) =~= data@.subrange(
                                j,
                                j + W,
                            ));
                            assert(matches_at(rest@, pat, j - position));
                        }
                    }
                    lemma_scan_none(data@, pat, rep, position as int);
                    assert(found@.map_values(|x: usize| x as int) + seq![] =~= found@.map_values(
                        |x: usize| x as int,
                    ));
                }
                break ;
            },
            Some(k) => {
                let q = position + k;
                proof {
                    assert(rest@.subrange(k as int, k + W) =~= data@.subrange(q as int, q + W));
                    assert forall|j: int| position <= j < q implies !matches_at(data@, pat, j) by {
                        if matches_at(data@, pat, j) {
                            assert(rest@.subrange(j - position, j - position + W) =~= data@.subrange(
                                j,
                                j + W,
                            ));
                            assert(matches_at(rest@, pat, j - position));
                        }
                    }
                    lemma_scan_skips(data@, pat, rep, position as int, q as int);
                }
                let ghost before = data@;
                let mut t: usize = 0;
                while t < W
                    invariant
                        rep == p.replacement@,
                        rep.len() == W,
                        q + W <= before.len(),
                        before.len() == len,
                        data@.len() == before.len(),
                        t <= W,
                        forall|u: int| 0 <= u < q ==> data@[u] == before[u],
                        forall|u: int| q + W <= u < before.len() ==> data@[u] == before[u],
                        forall|u: int| q + t <= u < q + W ==> data@[u] == before[u],
                        forall|u: int| 0 <= u < t ==> data@[q + u] == rep[u],
                    decreases W - t,
                {
                    data[q + t] = p.replacement[t];
                    t = t + 1;
                }
                assert(data@ =~= splice(before, q as int, rep));
                let ghost prev = found@.map_values(|x: usize| x as int);
                found.push(q);
                assert(found@.map_values(|x: usize| x as int) =~= prev.push(q as int));
                assert(prev.push(q as int) + scan_from(data@, pat, rep, q + W).1 =~= prev + (seq![
                    q as int,
                ] + scan_from(data@, pat, rep, q + W).1));
                position = q + W;
            },
        }
    }
    found
}

/// Applies the patches in order, each over the whole buffer as the ones before it left it.
/// Returns, for each patch, the offsets at which it matched.
pub fn apply_patches<const W: usize>(data: &mut Vec<u8>, patches: &Patches<W>) -> (found: Vec<
    Vec<usize>,
>)
    requires
        W > 0,
    ensures
        final(data)@ == apply_all(old(data)@, patches@),
        found@.len() == patches@.len(),
        forall|i: int|
            0 <= i < patches@.len() ==> (#[trigger] found@[i])@.map_values(|x: usize| x as int)
                == hits(apply_all(old(data)@, patches@.take(i)), patches@[i].0, patches@[i].1),
{
    let ghost start = old(data)@;
    let ghost ps = patches@;
    let mut found: Vec<Vec<usize>> = Vec::new();
    let mut i: usize = 0;
    assert(ps.take(0) =~= seq![]);
    while i < patches.patches.len()
        invariant
            W > 0,
            ps == patches@,
            i <= ps.len(),
            ps.len() == patches.patches@.len(),
            data@ == apply_all(start, ps.take(i as int)),
            found@.len() == i,
            forall|j: int|
                0 <= j < i ==> (#[trigger] found@[j])@.map_values(|x: usize| x as int) == hits(
                    apply_all(start, ps.take(j)),
                    ps[j].0,
                    ps[j].1,
                ),
        decreases ps.len() - i,
    {
        let p = &patches.patches[i];
        assert(ps[i as int] == (p.pattern@, p.replacement@));
        let f = apply_patch(data, p);
        assert(ps.take(i + 1).drop_last() =~= ps.take(i as int));
        found.push(f);
        i = i + 1;
    }
    assert(ps.take(i as int) =~= ps);
    found
}

/// A patch whose pattern does not occur leaves the buffer as it was, and matches nowhere.
pub proof fn lemma_absent_pattern(d: Seq<u8>, pat: Seq<u8>, rep: Seq<u8>)
    requires
        forall|j: int| !matches_at(d, pat, j),
    ensures
        patched(d, pat, rep) == d,
        hits(d, pat, rep) == Seq::<int>::empty(),
{
    lemma_scan_none(d, pat, rep, 0);
}

/// Where the pattern occurs exactly once, at `q`, the result is the buffer with the
/// replacement written at `q` and nothing else changed.
pub proof fn lemma_single_occurrence(d: Seq<u8>, pat: Seq<u8>, rep: Seq<u8>, q: int)
    requires
        pat.len() > 0,
        rep.len() == pat.len(),
        matches_at(d, pat, q),
        forall|j: int| j != q ==> !matches_at(d, pat, j),
    ensures
        patched(d, pat, rep) == splice(d, q, rep),
        hits(d, pat, rep) == seq![q],
{
    let w = pat.len() as int;
    lemma_scan_skips(d, pat, rep, 0, q);
    let d2 = splice(d, q, rep);
    assert(d2.len() == d.len());
    assert forall|j: int| q + w <= j implies !matches_at(d2, pat, j) by {
        if matches_at(d2, pat, j) {
            assert forall|k: int| 0 <= k < w implies #[trigger] d2.subrange(j, j + w)[k]
                == d.subrange(j, j + w)[k] by {
                assert(d2[j + k] == d[j + k]);
            }
            assert(d2.subrange(j, j + w) =~= d.subrange(j, j + w));
            assert(matches_at(d, pat, j));
            assert(j != q);
        }
    }
    lemma_scan_none(d2, pat, rep, q + w);
    assert(seq![q] + Seq::<int>::empty() =~= seq![q]);
}

/// Whether no two occurrences of `pat` in `d` overlap.
pub open spec fn occurrences_apart(d: Seq<u8>, pat: Seq<u8>) -> bool {
    forall|i: int, j: int|
        #![trigger matches_at(d, pat, i), matches_at(d, pat, j)]
        matches_at(d, pat, i) && matches_at(d, pat, j) && i < j ==> i + pat.len() <= j
}

/// Whether offset `k` lies inside some occurrence of `pat` in `d`.
pub open spec fn covered(d: Seq<u8>, pat: Seq<u8>, k: int) -> bool {
    exists|q: int| #[trigger] matches_at(d, pat, q) && q <= k < q + pat.len()
}

proof fn lemma_scan_apart(d0: Seq<u8>, cur: Seq<u8>, pat: Seq<u8>, rep: Seq<u8>, pos: int)
    requires
        pat.len() > 0,
        rep.len() == pat.len(),
        occurrences_apart(d0, pat),
        cur.len() == d0.len(),
        0 <= pos,
        forall|k: int| pos <= k < cur.len() ==> cur[k] == d0[k],
        forall|q: int| #[trigger] matches_at(d0, pat, q) && q < pos ==> q + pat.len() <= pos,
    ensures
        scan_from(cur, pat, rep, pos).0.len() == cur.len(),
        forall|q: int|
            pos <= q && #[trigger] matches_at(d0, pat, q) ==> scan_from(cur, pat, rep, pos).0.subrange(
                q,
                q + pat.len(),
            ) == rep,
        forall|k: int| 0 <= k < pos && k < cur.len() ==> scan_from(cur, pat, rep, pos).0[k] == cur[k],
        forall|k: int|
            pos <= k < cur.len() && !covered(d0, pat, k) ==> scan_from(cur, pat, rep, pos).0[k]
                == d0[k],
        forall|x: int|
            #[trigger] scan_from(cur, pat, rep, pos).1.contains(x) <==> (pos <= x && matches_at(
                d0,
                pat,
                x,
            )),
    decreases cur.len() - pos,
{
    let w = pat.len() as int;
    let r = scan_from(cur, pat, rep, pos);
    if pos + w > cur.len() {
        assert(r.0 == cur && r.1 == Seq::<int>::empty());
        assert forall|x: int| r.1.contains(x) <==> (pos <= x && matches_at(d0, pat, x)) by {
            if r.1.contains(x) {
                let i = choose|i: int| 0 <= i < r.1.len() && r.1[i] == x;
            }
        }
    } else {
        assert(cur.subrange(pos, pos + w) =~= d0.subrange(pos, pos + w));
        if matches_at(cur, pat, pos) {
            assert(matches_at(d0, pat, pos));
            let c2 = splice(cur, pos, rep);
            assert(c2.len() == cur.len());
            assert forall|q: int| #[trigger] matches_at(d0, pat, q) && q < pos + w implies q + w
                <= pos + w by {
                if q > pos {
                    assert(matches_at(d0, pat, pos));
                }
            }
            lemma_scan_apart(d0, c2, pat, rep, pos + w);
            let r2 = scan_from(c2, pat, rep, pos + w);
            assert(r.0 == r2.0);
            assert(r.1 == seq![pos] + r2.1);
            assert forall|k: int| 0 <= k < pos + w implies r.0[k] == c2[k] by {}
            assert forall|k: int| 0 <= k < pos implies r.0[k] == cur[k] by {
                assert(r.0[k] == c2[k]);
            }
            assert forall|q: int| pos <= q && #[trigger] matches_at(d0, pat, q) implies r.0.subrange(
                q,
                q + w,
            ) == rep by {
                if q < pos + w {
                    if q > pos {
                        assert(matches_at(d0, pat, pos));
                    }
                    assert forall|k: int| 0 <= k < w implies r.0.subrange(q, q + w)[k] == rep[k] by {
                        assert(r.0[q + k] == c2[q + k]);
                    }
                    assert(r.0.subrange(q, q + w) =~= rep);
                }
            }
            assert forall|k: int| pos <= k < cur.len() && !covered(d0, pat, k) implies r.0[k]
                == d0[k] by {
                if k < pos + w {
                    assert(matches_at(d0, pat, pos));
                }
            }
            assert(r.1.len() == r2.1.len() + 1);
            assert forall|x: int| r.1.contains(x) implies pos <= x && matches_at(d0, pat, x) by {
                let i = choose|i: int| 0 <= i < r.1.len() && r.1[i] == x;
                if i > 0 {
                    assert(r2.1[i - 1] == x);
                    assert(r2.1.contains(x));
                } else {
                    assert(r.1[0] == pos);
                }
            }
            assert forall|x: int| pos <= x && matches_at(d0, pat, x) implies r.1.contains(x) by {
                if x == pos {
                    assert(r.1[0] == pos);
                } else {
                    if x < pos + w {
                        assert(matches_at(d0, pat, pos));
                    }
                    assert(r2.1.contains(x));
                    let i = choose|i: int| 0 <= i < r2.1.len() && r2.1[i] == x;
                    assert(r.1[i + 1] == x);
                }
            }
        } else {
            assert(!matches_at(d0, pat, pos));
            lemma_scan_apart(d0, cur, pat, rep, pos + 1);
            assert(r == scan_from(cur, pat, rep, pos + 1));
            assert forall|k: int| 0 <= k < pos implies r.0[k] == cur[k] by {}
            assert(r.0[pos] == cur[pos]);
            assert forall|x: int| r.1.contains(x) <==> (pos <= x && matches_at(d0, pat, x)) by {
                if x == pos {
                    assert(!r.1.contains(x));
                }
            }
        }
    }
}

/// Where the occurrences of the pattern do not overlap, every one of them is replaced and
/// every other byte kept; the matches reported are exactly those occurrences.
pub proof fn lemma_all_occurrences_replaced(d: Seq<u8>, pat: Seq<u8>, rep: Seq<u8>)
    requires
        pat.len() > 0,
        rep.len() == pat.len(),
        occurrences_apart(d, pat),
    ensures
        patched(d, pat, rep).len() == d.len(),
        forall|q: int|
            #[trigger] matches_at(d, pat, q) ==> patched(d, pat, rep).subrange(q, q + pat.len())
                == rep,
        forall|k: int| 0 <= k < d.len() && !covered(d, pat, k) ==> patched(d, pat, rep)[k] == d[k],
        forall|x: int| hits(d, pat, rep).contains(x) <==> matches_at(d, pat, x),
{
    lemma_scan_apart(d, d, pat, rep, 0);
}

/// Where, besides, no occurrence of the pattern in the result overlaps a place that was
/// written, the result holds no occurrence at all, and a second pass changes nothing.
pub proof fn lemma_second_pass_idle(d: Seq<u8>, pat: Seq<u8>, rep: Seq<u8>)
    requires
        pat.len() > 0,
        rep.len() == pat.len(),
        occurrences_apart(d, pat),
        forall|x: int, q: int|
            #![trigger matches_at(patched(d, pat, rep), pat, x), matches_at(d, pat, q)]
            matches_at(patched(d, pat, rep), pat, x) && matches_at(d, pat, q) ==> x + pat.len() <= q
                || q + pat.len() <= x,
    ensures
        forall|x: int| !matches_at(patched(d, pat, rep), pat, x),
        patched(patched(d, pat, rep), pat, rep) == patched(d, pat, rep),
{
    let w = pat.len() as int;
    let r = patched(d, pat, rep);
    lemma_all_occurrences_replaced(d, pat, rep);
    assert forall|x: int| !matches_at(r, pat, x) by {
        if matches_at(r, pat, x) {
            assert forall|k: int| x <= k < x + w implies !covered(d, pat, k) by {
                if covered(d, pat, k) {
                    let q = choose|q: int| #[trigger] matches_at(d, pat, q) && q <= k < q + w;
                    assert(x + w <= q || q + w <= x);
                }
            }
            assert forall|k: int| x <= k < x + w implies r[k] == d[k] by {
                assert(!covered(d, pat, k));
            }
            assert(d.subrange(x, x + w) =~= r.subrange(x, x + w));
            assert(matches_at(d, pat, x));
            assert(covered(d, pat, x));
        }
    }
    lemma_scan_none(r, pat, rep, 0);
}

} // verus!
