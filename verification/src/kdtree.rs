//! Split search for the surface-area-heuristic tree builder.
//!
//! The builder looks, on each axis, for the best position to cut a node's
//! bounding box in two.  What this module verifies is everything about that
//! search except the cost formula itself: the start/end markers of the
//! primitives' bounds are sorted, swept left to right while counting how
//! many primitives lie on either side of each candidate position, duplicate
//! positions are collapsed to the final candidate at each position, the
//! minimal-cost candidate is selected by its cost key, and a chosen split
//! partitions the primitives with straddlers going to both sides.
//!
//! A primitive's extent on the axis is the interval `(lo, hi)` of its
//! bound's order keys; see the crate doc for order keys.

use vstd::prelude::*;
use vstd::seq_lib::group_seq_lib_default;
use vstd::seq_lib::group_to_multiset_ensures;

verus! {

#[derive(Clone, Copy, Debug, PartialEq, Eq, Structural)]
pub enum State {
    Start,
    End,
}

/// One end of a primitive's extent on the sweep axis.  At equal positions a
/// `Start` sorts before an `End`, so a zero-width overlap is walked through
/// rather than skipped.
#[derive(Clone, Copy, Debug, PartialEq, Eq, Structural)]
pub struct Marker {
    pub pos: u32,
    pub state: State,
}

/// A primitive's extent on the sweep axis: the start and end order keys of
/// its bound there.
pub type Extent = (u32, u32);

pub open spec fn state_rank(s: State) -> int {
    match s {
        State::Start => 0,
        State::End => 1,
    }
}

pub open spec fn marker_le(a: Marker, b: Marker) -> bool {
    a.pos < b.pos || (a.pos == b.pos && state_rank(a.state) <= state_rank(b.state))
}

pub open spec fn marker_sorted(s: Seq<Marker>) -> bool {
    forall|i: int, j: int| 0 <= i < j < s.len() ==> marker_le(s[i], s[j])
}

/// The start and end markers of a list of extents, one pair per extent.
pub open spec fn markers_of(ivs: Seq<Extent>) -> Seq<Marker>
    decreases ivs.len(),
{
    if ivs.len() == 0 {
        Seq::empty()
    } else {
        markers_of(ivs.drop_last()) + seq![
            Marker { pos: ivs.last().0, state: State::Start },
            Marker { pos: ivs.last().1, state: State::End },
        ]
    }
}

pub open spec fn start_le_pred(p: u32) -> spec_fn(Marker) -> bool {
    |m: Marker| m.state == State::Start && m.pos <= p
}

pub open spec fn end_le_pred(p: u32) -> spec_fn(Marker) -> bool {
    |m: Marker| m.state == State::End && m.pos <= p
}

pub open spec fn start_pred() -> spec_fn(Marker) -> bool {
    |m: Marker| m.state == State::Start
}

pub open spec fn end_pred() -> spec_fn(Marker) -> bool {
    |m: Marker| m.state == State::End
}

pub open spec fn lo_le_pred(p: u32) -> spec_fn(Extent) -> bool {
    |iv: Extent| iv.0 <= p
}

pub open spec fn hi_le_pred(p: u32) -> spec_fn(Extent) -> bool {
    |iv: Extent| iv.1 <= p
}

pub open spec fn hi_gt_pred(p: u32) -> spec_fn(Extent) -> bool {
    |iv: Extent| iv.1 > p
}

pub open spec fn start_le_count(s: Seq<Marker>, p: u32) -> nat {
    s.filter(start_le_pred(p)).len()
}

pub open spec fn end_le_count(s: Seq<Marker>, p: u32) -> nat {
    s.filter(end_le_pred(p)).len()
}

pub open spec fn start_count(s: Seq<Marker>) -> nat {
    s.filter(start_pred()).len()
}

pub open spec fn end_count(s: Seq<Marker>) -> nat {
    s.filter(end_pred()).len()
}

/// How many extents begin at or before `p`: the size of the left side of a
/// cut at `p`.
pub open spec fn count_lo_le(ivs: Seq<Extent>, p: u32) -> nat {
    ivs.filter(lo_le_pred(p)).len()
}

pub open spec fn count_hi_le(ivs: Seq<Extent>, p: u32) -> nat {
    ivs.filter(hi_le_pred(p)).len()
}

/// How many extents end strictly after `p`: the size of the right side of a
/// cut at `p`.
pub open spec fn count_hi_gt(ivs: Seq<Extent>, p: u32) -> nat {
    ivs.filter(hi_gt_pred(p)).len()
}

/// Two filters by pointwise-equal predicates keep the same elements.
proof fn lemma_filter_congruent<A>(s: Seq<A>, p1: spec_fn(A) -> bool, p2: spec_fn(A) -> bool)
    requires
        forall|i: int| 0 <= i < s.len() ==> p1(s[i]) == p2(s[i]),
    ensures
        s.filter(p1) == s.filter(p2),
    decreases s.len(),
{
    reveal(Seq::filter);
    if s.len() > 0 {
        lemma_filter_congruent(s.drop_last(), p1, p2);
    }
}

/// A filter whose predicate holds nowhere on the sequence keeps nothing.
proof fn lemma_filter_none<A>(s: Seq<A>, p: spec_fn(A) -> bool)
    requires
        forall|i: int| 0 <= i < s.len() ==> !p(s[i]),
    ensures
        s.filter(p) == Seq::<A>::empty(),
    decreases s.len(),
{
    reveal(Seq::filter);
    if s.len() > 0 {
        lemma_filter_none(s.drop_last(), p);
    }
}

/// Filters by a predicate and by its negation split the sequence's length.
proof fn lemma_filter_complement<A>(s: Seq<A>, p1: spec_fn(A) -> bool, p2: spec_fn(A) -> bool)
    requires
        forall|i: int| 0 <= i < s.len() ==> p1(s[i]) != p2(s[i]),
    ensures
        s.filter(p1).len() + s.filter(p2).len() == s.len(),
    decreases s.len(),
{
    reveal(Seq::filter);
    if s.len() > 0 {
        lemma_filter_complement(s.drop_last(), p1, p2);
    }
}

/// Filtering commutes with forgetting the order of a sequence.
proof fn lemma_filter_to_multiset<A>(s: Seq<A>, p: spec_fn(A) -> bool)
    ensures
        s.filter(p).to_multiset() == s.to_multiset().filter(p),
    decreases s.len(),
{
    broadcast use group_to_multiset_ensures;
    broadcast use vstd::multiset::group_multiset_axioms;

    reveal(Seq::filter);
    if s.len() == 0 {
        assert(s.filter(p) == Seq::<A>::empty());
        assert(s.to_multiset().filter(p) =~= Seq::<A>::empty().to_multiset());
    } else {
        let d = s.drop_last();
        let l = s.last();
        lemma_filter_to_multiset(d, p);
        assert(d.push(l) =~= s);
        assert(s.to_multiset() == d.to_multiset().insert(l));
        if p(l) {
            assert(s.filter(p) == d.filter(p).push(l));
            assert(s.filter(p).to_multiset() == d.filter(p).to_multiset().insert(l));
            assert(d.filter(p).to_multiset().insert(l) =~= d.to_multiset().insert(l).filter(p));
        } else {
            assert(s.filter(p) == d.filter(p));
            assert(d.filter(p).to_multiset() =~= d.to_multiset().insert(l).filter(p));
        }
    }
}

/// Sequences holding the same elements the same number of times agree on
/// every filter count.
proof fn lemma_filter_len_permutation<A>(s: Seq<A>, t: Seq<A>, p: spec_fn(A) -> bool)
    requires
        s.to_multiset() == t.to_multiset(),
    ensures
        s.filter(p).len() == t.filter(p).len(),
{
    broadcast use group_to_multiset_ensures;

    lemma_filter_to_multiset(s, p);
    lemma_filter_to_multiset(t, p);
    assert(s.filter(p).len() == s.filter(p).to_multiset().len());
    assert(t.filter(p).len() == t.filter(p).to_multiset().len());
}


/// Every extent's two markers are among the markers of the list.
proof fn lemma_markers_of_contains(ivs: Seq<Extent>)
    ensures
        forall|i: int|
            0 <= i < ivs.len() ==> markers_of(ivs).contains(
                Marker { pos: (#[trigger] ivs[i]).0, state: State::Start },
            ) && markers_of(ivs).contains(Marker { pos: ivs[i].1, state: State::End }),
    decreases ivs.len(),
{
    if ivs.len() > 0 {
        let d = ivs.drop_last();
        let w = markers_of(d);
        let pair = seq![
            Marker { pos: ivs.last().0, state: State::Start },
            Marker { pos: ivs.last().1, state: State::End },
        ];
        lemma_markers_of_contains(d);
        assert(markers_of(ivs) == w + pair);
        assert forall|i: int|
            0 <= i < ivs.len() implies markers_of(ivs).contains(
            Marker { pos: (#[trigger] ivs[i]).0, state: State::Start },
        ) && markers_of(ivs).contains(Marker { pos: ivs[i].1, state: State::End }) by {
            if i < ivs.len() - 1 {
                assert(d[i] == ivs[i]);
                assert(w.contains(Marker { pos: ivs[i].0, state: State::Start }));
                let a = choose|j: int|
                    0 <= j < w.len() && w[j] == Marker { pos: ivs[i].0, state: State::Start };
                assert((w + pair)[a] == Marker { pos: ivs[i].0, state: State::Start });
                let b = choose|j: int|
                    0 <= j < w.len() && w[j] == Marker { pos: ivs[i].1, state: State::End };
                assert((w + pair)[b] == Marker { pos: ivs[i].1, state: State::End });
            } else {
                assert((w + pair)[w.len() as int] == Marker {
                    pos: ivs[i].0,
                    state: State::Start,
                });
                assert((w + pair)[w.len() as int + 1] == Marker {
                    pos: ivs[i].1,
                    state: State::End,
                });
            }
        }
    }
}

/// Every marker position in the list is some extent's start or end.
proof fn lemma_markers_of_positions(ivs: Seq<Extent>)
    ensures
        forall|m: int|
            #![trigger markers_of(ivs)[m]]
            0 <= m < markers_of(ivs).len() ==> exists|i: int|
                0 <= i < ivs.len() && ((#[trigger] ivs[i]).0 == markers_of(ivs)[m].pos || ivs[i].1
                    == markers_of(ivs)[m].pos),
    decreases ivs.len(),
{
    if ivs.len() > 0 {
        let d = ivs.drop_last();
        let w = markers_of(d);
        let pair = seq![
            Marker { pos: ivs.last().0, state: State::Start },
            Marker { pos: ivs.last().1, state: State::End },
        ];
        lemma_markers_of_positions(d);
        assert(markers_of(ivs) == w + pair);
        assert forall|m: int|
            #![trigger markers_of(ivs)[m]]
            0 <= m < markers_of(ivs).len() implies exists|i: int|
            0 <= i < ivs.len() && ((#[trigger] ivs[i]).0 == markers_of(ivs)[m].pos || ivs[i].1
                == markers_of(ivs)[m].pos) by {
            if m < w.len() {
                assert(markers_of(ivs)[m] == w[m]);
                assert(exists|i: int|
                    0 <= i < d.len() && ((#[trigger] d[i]).0 == w[m].pos || d[i].1 == w[m].pos));
                let i0 = choose|i: int|
                    0 <= i < d.len() && ((#[trigger] d[i]).0 == w[m].pos || d[i].1 == w[m].pos);
                assert(ivs[i0] == d[i0]);
                assert(ivs[i0].0 == markers_of(ivs)[m].pos || ivs[i0].1 == markers_of(ivs)[m].pos);
            } else {
                let i0 = ivs.len() - 1;
                assert(ivs[i0].0 == markers_of(ivs)[m].pos || ivs[i0].1 == markers_of(ivs)[m].pos);
            }
        }
    }
}

/// The markers of a list of extents count exactly as the extents do: one
/// start at or before `p` per extent beginning there, one end per extent
/// ending there.
proof fn lemma_markers_of_counts(ivs: Seq<Extent>, p: u32)
    ensures
        start_le_count(markers_of(ivs), p) == count_lo_le(ivs, p),
        end_le_count(markers_of(ivs), p) == count_hi_le(ivs, p),
        start_count(markers_of(ivs)) == ivs.len(),
        end_count(markers_of(ivs)) == ivs.len(),
    decreases ivs.len(),
{
    broadcast use group_seq_lib_default;

    reveal_with_fuel(Seq::filter, 4);
    if ivs.len() == 0 {
    } else {
        let d = ivs.drop_last();
        lemma_markers_of_counts(d, p);
        let m1 = Marker { pos: ivs.last().0, state: State::Start };
        let m2 = Marker { pos: ivs.last().1, state: State::End };
        let pair = seq![m1, m2];
        assert(markers_of(ivs) == markers_of(d) + pair);
        assert(pair.drop_last() =~= seq![m1]);
        assert(seq![m1].drop_last() =~= Seq::<Marker>::empty());
        assert(d.push(ivs.last()) =~= ivs);
    }
}

fn marker_le_exec(a: &Marker, b: &Marker) -> (r: bool)
    ensures
        r == marker_le(*a, *b),
{
    if a.pos < b.pos {
        true
    } else if a.pos == b.pos {
        match (a.state, b.state) {
            (State::End, State::Start) => false,
            _ => true,
        }
    } else {
        false
    }
}


/// The start and end markers of the extents, ordered by position with a
/// `Start` before an `End` at equal positions.
pub fn sorted_markers(ivs: &Vec<Extent>) -> (r: Vec<Marker>)
    ensures
        marker_sorted(r@),
        r@.to_multiset() == markers_of(ivs@).to_multiset(),
        r@.len() == 2 * ivs@.len(),
{
    let mut raw: Vec<Marker> = Vec::new();
    let mut i: usize = 0;
    while i < ivs.len()
        invariant
            i <= ivs@.len(),
            raw@ == markers_of(ivs@.take(i as int)),
            raw@.len() == 2 * i,
        decreases ivs@.len() - i,
    {
        let (lo, hi) = ivs[i];
        raw.push(Marker { pos: lo, state: State::Start });
        raw.push(Marker { pos: hi, state: State::End });
        proof {
            let t = ivs@.take(i + 1);
            assert(t.drop_last() =~= ivs@.take(i as int));
            assert(t.last() == ivs@[i as int]);
            assert(raw@ =~= markers_of(t.drop_last()) + seq![
                Marker { pos: t.last().0, state: State::Start },
                Marker { pos: t.last().1, state: State::End },
            ]);
        }
        i += 1;
    }
    proof {
        assert(ivs@.take(ivs@.len() as int) =~= ivs@);
    }
    let mut out: Vec<Marker> = Vec::new();
    proof {
        broadcast use group_to_multiset_ensures;
        assert(out@ =~= raw@.take(0));
    }
    let mut n: usize = 0;
    while n < raw.len()
        invariant
            n <= raw@.len(),
            out@.len() == n,
            marker_sorted(out@),
            out@.to_multiset() == raw@.take(n as int).to_multiset(),
        decreases raw@.len() - n,
    {
        let m = raw[n];
        let mut k: usize = 0;
        while k < out.len()
            invariant
                k <= out@.len(),
                forall|j: int| 0 <= j < k ==> marker_le(out@[j], m),
            ensures
                k <= out@.len(),
                forall|j: int| 0 <= j < k ==> marker_le(out@[j], m),
                k < out@.len() ==> !marker_le(out@[k as int], m),
            decreases out@.len() - k,
        {
            if !marker_le_exec(&out[k], &m) {
                break;
            }
            k += 1;
        }
        let ghost old_out = out@;
        out.insert(k, m);
        proof {
            broadcast use group_to_multiset_ensures;

            assert(out@ == old_out.insert(k as int, m));
            assert forall|a: int, b: int|
                0 <= a < b < out@.len() implies marker_le(out@[a], out@[b]) by {
                if b < k {
                    assert(out@[a] == old_out[a] && out@[b] == old_out[b]);
                } else if a < k && b == k {
                    assert(out@[a] == old_out[a] && out@[b] == m);
                } else if a < k && b > k {
                    assert(out@[a] == old_out[a] && out@[b] == old_out[b - 1]);
                } else if a == k {
                    assert(out@[a] == m && out@[b] == old_out[b - 1]);
                    assert(!marker_le(old_out[k as int], m));
                    assert(marker_le(m, old_out[k as int]));
                    if b - 1 > k {
                        assert(marker_le(old_out[k as int], old_out[b - 1]));
                    }
                } else {
                    assert(out@[a] == old_out[a - 1] && out@[b] == old_out[b - 1]);
                }
            }
            assert(raw@.take(n as int).push(raw@[n as int]) =~= raw@.take(n + 1));
            assert(raw@.take(n + 1).to_multiset() == raw@.take(n as int).to_multiset().insert(m));
        }
        n += 1;
    }
    proof {
        assert(raw@.take(raw@.len() as int) =~= raw@);
    }
    out
}

/// A prefix of a sequence never holds more matches than the whole.
proof fn lemma_count_prefix_le<A>(s: Seq<A>, n: int, p: spec_fn(A) -> bool)
    requires
        0 <= n <= s.len(),
    ensures
        s.take(n).filter(p).len() <= s.filter(p).len(),
{
    broadcast use group_seq_lib_default;

    assert(s.take(n) + s.skip(n) =~= s);
    assert((s.take(n) + s.skip(n)).filter(p) == s.take(n).filter(p) + s.skip(n).filter(p));
}

/// In sorted markers, the prefix ending at the last marker at position `p`
/// holds exactly the markers at or before `p`.
proof fn lemma_prefix_counts(s: Seq<Marker>, i: int, p: u32)
    requires
        marker_sorted(s),
        0 <= i < s.len(),
        s[i].pos == p,
        i == s.len() - 1 || s[i + 1].pos != p,
    ensures
        start_count(s.take(i + 1)) == start_le_count(s, p),
        end_count(s.take(i + 1)) == end_le_count(s, p),
{
    broadcast use group_seq_lib_default;

    let pre = s.take(i + 1);
    let suf = s.skip(i + 1);
    assert(pre + suf =~= s);
    assert forall|j: int| 0 <= j < pre.len() implies (#[trigger] pre[j]).pos <= p by {
        assert(pre[j] == s[j]);
        if j < i {
            assert(marker_le(s[j], s[i]));
        }
    }
    assert forall|j: int| 0 <= j < suf.len() implies (#[trigger] suf[j]).pos > p by {
        assert(suf[j] == s[i + 1 + j]);
        assert(marker_le(s[i], s[i + 1]));
        if j > 0 {
            assert(marker_le(s[i + 1], s[i + 1 + j]));
        }
    }
    lemma_filter_congruent(pre, start_pred(), start_le_pred(p));
    lemma_filter_congruent(pre, end_pred(), end_le_pred(p));
    lemma_filter_none(suf, start_le_pred(p));
    lemma_filter_none(suf, end_le_pred(p));
    assert((pre + suf).filter(start_le_pred(p)) == pre.filter(start_le_pred(p)) + suf.filter(
        start_le_pred(p),
    ));
    assert((pre + suf).filter(end_le_pred(p)) == pre.filter(end_le_pred(p)) + suf.filter(
        end_le_pred(p),
    ));
}


/// `p` is the start or the end of one of the extents.
pub open spec fn pos_from_extents(ivs: Seq<Extent>, p: u32) -> bool {
    exists|i: int| 0 <= i < ivs.len() && ((#[trigger] ivs[i]).0 == p || ivs[i].1 == p)
}

/// One of the candidates sits at position `p`.
pub open spec fn covers_pos(cands: Seq<SplitCandidate>, p: u32) -> bool {
    exists|j: int| 0 <= j < cands.len() && (#[trigger] cands[j]).pos == p
}

/// One candidate cut position together with how many extents a cut there
/// would put on each side (straddlers counted on both).
#[derive(Clone, Copy, Debug, PartialEq, Eq, Structural)]
pub struct SplitCandidate {
    pub pos: u32,
    pub left: usize,
    pub right: usize,
}

/// Sweep the sorted markers of the extents left to right, maintaining the
/// running side counts, and keep the final candidate at each distinct
/// position.  Every candidate reports exactly how many extents begin at or
/// before its position and how many end strictly after it; the candidate
/// positions are strictly increasing and are exactly the extents' start
/// and end positions.
#[verifier::rlimit(80)]
#[verifier::spinoff_prover]
pub fn split_candidates(ivs: &Vec<Extent>) -> (r: Vec<SplitCandidate>)
    ensures
        forall|j: int|
            0 <= j < r@.len() ==> (#[trigger] r@[j]).left == count_lo_le(ivs@, r@[j].pos)
                && r@[j].right == count_hi_gt(ivs@, r@[j].pos),
        forall|j1: int, j2: int| 0 <= j1 < j2 < r@.len() ==> r@[j1].pos < r@[j2].pos,
        forall|j: int|
            0 <= j < r@.len() ==> #[trigger] pos_from_extents(ivs@, r@[j].pos),
        forall|i: int|
            0 <= i < ivs@.len() ==> #[trigger] covers_pos(r@, ivs@[i].0) && covers_pos(
                r@,
                ivs@[i].1,
            ),
{
    let s = sorted_markers(ivs);
    proof {
        lemma_markers_of_counts(ivs@, 0);
        lemma_filter_len_permutation(s@, markers_of(ivs@), start_pred());
        lemma_filter_len_permutation(s@, markers_of(ivs@), end_pred());
        assert(s@.take(0) =~= Seq::<Marker>::empty());
        assert(Seq::<Marker>::empty().filter(start_pred()) =~= Seq::<Marker>::empty()) by {
            reveal(Seq::filter);
        }
        assert(Seq::<Marker>::empty().filter(end_pred()) =~= Seq::<Marker>::empty()) by {
            reveal(Seq::filter);
        }
    }
    let n = ivs.len();
    let mut left: usize = 0;
    let mut right: usize = n;
    let mut out: Vec<SplitCandidate> = Vec::new();
    let ghost mut wit = Seq::<int>::empty();
    let ghost mut cov = Seq::<int>::empty();
    let mut idx: usize = 0;
    while idx < s.len()
        invariant
            idx <= s@.len(),
            s@.len() == 2 * ivs@.len(),
            n == ivs@.len(),
            marker_sorted(s@),
            s@.to_multiset() == markers_of(ivs@).to_multiset(),
            start_count(s@) == ivs@.len(),
            end_count(s@) == ivs@.len(),
            left == start_count(s@.take(idx as int)),
            right + end_count(s@.take(idx as int)) == ivs@.len(),
            forall|j: int|
                0 <= j < out@.len() ==> (#[trigger] out@[j]).left == count_lo_le(
                    ivs@,
                    out@[j].pos,
                ) && out@[j].right == count_hi_gt(ivs@, out@[j].pos),
            forall|j: int, m: int|
                0 <= j < out@.len() && idx <= m < s@.len() ==> (#[trigger] out@[j]).pos
                    < (#[trigger] s@[m]).pos,
            forall|j1: int, j2: int| 0 <= j1 < j2 < out@.len() ==> out@[j1].pos < out@[j2].pos,
            wit.len() == out@.len(),
            forall|j: int|
                0 <= j < out@.len() ==> 0 <= #[trigger] wit[j] && wit[j] < idx && out@[j].pos
                    == s@[wit[j]].pos,
            cov.len() == idx,
            forall|m: int|
                #![trigger cov[m]]
                0 <= m < idx ==> (cov[m] == -1 && idx < s@.len() && s@[m].pos == s@[
                    idx as int
                ].pos) || (0 <= cov[m] && cov[m] < out@.len() && out@[cov[m]].pos == s@[m].pos),
        decreases s@.len() - idx,
    {
        let m = s[idx];
        let ghost pre = s@.take(idx as int);
        proof {
            assert(pre.push(s@[idx as int]) =~= s@.take(idx as int + 1));
            pre.lemma_filter_push(m, start_pred());
            pre.lemma_filter_push(m, end_pred());
            lemma_count_prefix_le(s@, idx as int + 1, end_pred());
            lemma_count_prefix_le(s@, idx as int + 1, start_pred());
        }
        match m.state {
            State::Start => {
                left += 1;
            },
            State::End => {
                proof {
                    assert(end_count(s@.take(idx as int + 1)) == end_count(pre) + 1);
                }
                right -= 1;
            },
        }
        let ghost old_out = out@;
        let ghost old_cov = cov;
        let is_last = idx + 1 == s.len() || s[idx + 1].pos != m.pos;
        if is_last {
            out.push(SplitCandidate { pos: m.pos, left, right });
            proof {
                let p = m.pos;
                lemma_prefix_counts(s@, idx as int, p);
                lemma_filter_len_permutation(s@, markers_of(ivs@), start_le_pred(p));
                lemma_filter_len_permutation(s@, markers_of(ivs@), end_le_pred(p));
                lemma_markers_of_counts(ivs@, p);
                lemma_filter_complement(ivs@, hi_le_pred(p), hi_gt_pred(p));
                assert(left == count_lo_le(ivs@, p));
                assert(right == count_hi_gt(ivs@, p));
                assert forall|mm: int|
                    idx + 1 <= mm < s@.len() implies p < (#[trigger] s@[mm]).pos by {
                    assert(marker_le(s@[idx as int], s@[idx + 1]));
                    if mm > idx + 1 {
                        assert(marker_le(s@[idx + 1], s@[mm]));
                    }
                }
                wit = wit.push(idx as int);
                let newlen = out@.len() as int;
                cov = Seq::new((idx + 1) as nat, |mm: int| if s@[mm].pos == p { newlen - 1 } else { old_cov[mm] });
                assert forall|mm: int| #![trigger cov[mm]] 0 <= mm < idx + 1 implies 0 <= cov[mm]
                    && cov[mm] < out@.len() && out@[cov[mm]].pos == s@[mm].pos by {
                    if s@[mm].pos == p {
                        assert(cov[mm] == newlen - 1);
                        assert(out@[newlen - 1].pos == p);
                    } else {
                        assert(mm < idx);
                        assert(cov[mm] == old_cov[mm]);
                        assert(0 <= old_cov[mm] && old_cov[mm] < old_out.len());
                        assert(out@[old_cov[mm]] == old_out[old_cov[mm]]);
                    }
                }
            }
        } else {
            proof {
                cov = cov.push(-1);
                assert(s@[idx as int + 1].pos == s@[idx as int].pos);
            }
        }
        idx += 1;
    }
    proof {
        assert(s@.take(s@.len() as int) =~= s@);
        lemma_markers_of_contains(ivs@);
        lemma_markers_of_positions(ivs@);
        assert forall|j: int|
            0 <= j < out@.len() implies #[trigger] pos_from_extents(ivs@, out@[j].pos) by {
            let m0 = wit[j];
            assert(0 <= m0 < s@.len() && out@[j].pos == s@[m0].pos);
            vstd::seq_lib::to_multiset_contains(s@, s@[m0]);
            vstd::seq_lib::to_multiset_contains(markers_of(ivs@), s@[m0]);
            assert(s@.contains(s@[m0]));
            assert(markers_of(ivs@).contains(s@[m0]));
            let mm = choose|t: int|
                0 <= t < markers_of(ivs@).len() && markers_of(ivs@)[t] == s@[m0];
            // Mention the marker at `mm` so the membership fact above applies.
            let w0 = markers_of(ivs@)[mm];
            assert(exists|i: int|
                0 <= i < ivs@.len() && ((#[trigger] ivs@[i]).0 == markers_of(ivs@)[mm].pos
                    || ivs@[i].1 == markers_of(ivs@)[mm].pos));
            let i0 = choose|i: int|
                0 <= i < ivs@.len() && ((#[trigger] ivs@[i]).0 == markers_of(ivs@)[mm].pos
                    || ivs@[i].1 == markers_of(ivs@)[mm].pos);
            assert(0 <= i0 < ivs@.len() && (ivs@[i0].0 == out@[j].pos || ivs@[i0].1
                == out@[j].pos));
        }
        assert forall|i: int|
            0 <= i < ivs@.len() implies #[trigger] covers_pos(out@, ivs@[i].0) && covers_pos(
            out@,
            ivs@[i].1,
        ) by {
            let ms = Marker { pos: ivs@[i].0, state: State::Start };
            let me = Marker { pos: ivs@[i].1, state: State::End };
            vstd::seq_lib::to_multiset_contains(s@, ms);
            vstd::seq_lib::to_multiset_contains(markers_of(ivs@), ms);
            vstd::seq_lib::to_multiset_contains(s@, me);
            vstd::seq_lib::to_multiset_contains(markers_of(ivs@), me);
            assert(markers_of(ivs@).contains(ms));
            assert(s@.contains(ms));
            let a = choose|m: int| 0 <= m < s@.len() && s@[m] == ms;
            let ja = cov[a];
            assert(0 <= ja < out@.len() && out@[ja].pos == s@[a].pos);
            assert(markers_of(ivs@).contains(me));
            assert(s@.contains(me));
            let b = choose|m: int| 0 <= m < s@.len() && s@[m] == me;
            let jb = cov[b];
            assert(0 <= jb < out@.len() && out@[jb].pos == s@[b].pos);
        }
    }
    out
}


pub open spec fn straddle_pred(p: u32) -> spec_fn(Extent) -> bool {
    |iv: Extent| iv.0 <= p && iv.1 > p
}

/// How many extents straddle a cut at `p`: they appear on both sides.
pub open spec fn count_straddle(ivs: Seq<Extent>, p: u32) -> nat {
    ivs.filter(straddle_pred(p)).len()
}

/// A cut duplicates exactly the straddlers and loses nothing: the two
/// sides together hold one slot per extent, plus one more per extent that
/// straddles the cut.
pub proof fn lemma_cut_duplication(ivs: Seq<Extent>, p: u32)
    requires
        forall|i: int| 0 <= i < ivs.len() ==> (#[trigger] ivs[i]).0 <= ivs[i].1,
    ensures
        count_lo_le(ivs, p) + count_hi_gt(ivs, p) == ivs.len() + count_straddle(ivs, p),
        count_lo_le(ivs, p) + count_hi_gt(ivs, p) >= ivs.len(),
    decreases ivs.len(),
{
    reveal(Seq::filter);
    if ivs.len() > 0 {
        let d = ivs.drop_last();
        assert(forall|i: int| 0 <= i < d.len() ==> #[trigger] d[i] == ivs[i]);
        lemma_cut_duplication(d, p);
        assert(ivs.last().0 <= ivs.last().1);
    }
}

/// Partition extents across a cut at `split`: an extent goes left when it
/// begins at or before the cut and right when it ends strictly after it, so
/// a straddler appears on both sides.  The two results list the extents'
/// indices in their original order.
pub fn partition_dimension(ivs: &Vec<Extent>, split: u32) -> (r: (Vec<usize>, Vec<usize>))
    ensures
        r.0@.len() == count_lo_le(ivs@, split),
        r.1@.len() == count_hi_gt(ivs@, split),
        forall|j: int|
            0 <= j < r.0@.len() ==> (#[trigger] r.0@[j]) < ivs@.len() && ivs@[r.0@[j] as int].0
                <= split,
        forall|j: int|
            0 <= j < r.1@.len() ==> (#[trigger] r.1@[j]) < ivs@.len() && ivs@[r.1@[j] as int].1
                > split,
        forall|j1: int, j2: int| 0 <= j1 < j2 < r.0@.len() ==> r.0@[j1] < r.0@[j2],
        forall|j1: int, j2: int| 0 <= j1 < j2 < r.1@.len() ==> r.1@[j1] < r.1@[j2],
        forall|i: int|
            0 <= i < ivs@.len() && (#[trigger] ivs@[i]).0 <= split ==> r.0@.contains(i as usize),
        forall|i: int|
            0 <= i < ivs@.len() && (#[trigger] ivs@[i]).1 > split ==> r.1@.contains(i as usize),
{
    let mut l_accum: Vec<usize> = Vec::new();
    let mut r_accum: Vec<usize> = Vec::new();
    let mut i: usize = 0;
    proof {
        assert(ivs@.take(0) =~= Seq::<Extent>::empty());
        assert(Seq::<Extent>::empty().filter(lo_le_pred(split)) =~= Seq::<Extent>::empty()) by {
            reveal(Seq::filter);
        }
        assert(Seq::<Extent>::empty().filter(hi_gt_pred(split)) =~= Seq::<Extent>::empty()) by {
            reveal(Seq::filter);
        }
    }
    while i < ivs.len()
        invariant
            i <= ivs@.len(),
            l_accum@.len() == count_lo_le(ivs@.take(i as int), split),
            r_accum@.len() == count_hi_gt(ivs@.take(i as int), split),
            forall|j: int|
                0 <= j < l_accum@.len() ==> (#[trigger] l_accum@[j]) < i && ivs@[l_accum@[j] as int].0
                    <= split,
            forall|j: int|
                0 <= j < r_accum@.len() ==> (#[trigger] r_accum@[j]) < i && ivs@[r_accum@[j] as int].1
                    > split,
            forall|j1: int, j2: int|
                0 <= j1 < j2 < l_accum@.len() ==> l_accum@[j1] < l_accum@[j2],
            forall|j1: int, j2: int|
                0 <= j1 < j2 < r_accum@.len() ==> r_accum@[j1] < r_accum@[j2],
            forall|ii: int|
                0 <= ii < i && (#[trigger] ivs@[ii]).0 <= split ==> l_accum@.contains(ii as usize),
            forall|ii: int|
                0 <= ii < i && (#[trigger] ivs@[ii]).1 > split ==> r_accum@.contains(ii as usize),
        decreases ivs@.len() - i,
    {
        let (lo, hi) = ivs[i];
        let ghost old_l = l_accum@;
        let ghost old_r = r_accum@;
        proof {
            assert(ivs@.take(i as int).push(ivs@[i as int]) =~= ivs@.take(i as int + 1));
            ivs@.take(i as int).lemma_filter_push(ivs@[i as int], lo_le_pred(split));
            ivs@.take(i as int).lemma_filter_push(ivs@[i as int], hi_gt_pred(split));
        }
        if lo <= split {
            l_accum.push(i);
        }
        if hi > split {
            r_accum.push(i);
        }
        proof {
            assert forall|ii: int|
                0 <= ii < i + 1 && (#[trigger] ivs@[ii]).0 <= split implies l_accum@.contains(
                ii as usize,
            ) by {
                if ii == i {
                    assert(l_accum@[l_accum@.len() - 1] == ii as usize);
                } else {
                    assert(old_l.contains(ii as usize));
                    let j0 = choose|j: int| 0 <= j < old_l.len() && old_l[j] == ii as usize;
                    assert(l_accum@[j0] == ii as usize);
                }
            }
            assert forall|ii: int|
                0 <= ii < i + 1 && (#[trigger] ivs@[ii]).1 > split implies r_accum@.contains(
                ii as usize,
            ) by {
                if ii == i {
                    assert(r_accum@[r_accum@.len() - 1] == ii as usize);
                } else {
                    assert(old_r.contains(ii as usize));
                    let j0 = choose|j: int| 0 <= j < old_r.len() && old_r[j] == ii as usize;
                    assert(r_accum@[j0] == ii as usize);
                }
            }
        }
        i += 1;
    }
    proof {
        assert(ivs@.take(ivs@.len() as int) =~= ivs@);
    }
    (l_accum, r_accum)
}

/// A cut never loses a primitive: an extent that does not begin at or
/// before the cut must end strictly after it.
pub proof fn lemma_partition_covers(ivs: Seq<Extent>, split: u32, i: int)
    requires
        0 <= i < ivs.len(),
        ivs[i].0 <= ivs[i].1,
    ensures
        ivs[i].0 <= split || ivs[i].1 > split,
{
}

/// The index of the smallest key, taking the first on a tie, as the cost
/// comparison over candidate splits does.
pub fn min_index(keys: &Vec<u32>) -> (r: Option<usize>)
    ensures
        (r is None) <==> keys@.len() == 0,
        r matches Some(k) ==> k < keys@.len() && (forall|i: int|
            0 <= i < keys@.len() ==> keys@[k as int] <= #[trigger] keys@[i]) && (forall|i: int|
            0 <= i < k ==> #[trigger] keys@[i] > keys@[k as int]),
{
    if keys.len() == 0 {
        return None;
    }
    let mut best: usize = 0;
    let mut i: usize = 1;
    while i < keys.len()
        invariant
            1 <= i <= keys@.len(),
            best < i,
            forall|j: int| 0 <= j < i ==> keys@[best as int] <= #[trigger] keys@[j],
            forall|j: int| 0 <= j < best ==> #[trigger] keys@[j] > keys@[best as int],
        decreases keys@.len() - i,
    {
        if keys[i] < keys[best] {
            best = i;
        }
        i += 1;
    }
    Some(best)
}

} // verus!
