//! Targets for the shapes other than four sets and a pair, and for the
//! fixed standard shapes (nine gates, knitted straight).
use vstd::prelude::*;
use crate::decompose::{knit_tiles, perm, spec_knit_tiles, spec_perm};
use crate::model::Meld;
use crate::plan::search::{best_view, pick, zeros};
use crate::plan::target::{cover, lemma_cover_bounds, lemma_sum_update, spec_cover, sum_upto};
use crate::tiles::{counts, seq_sum, total, Counts, NUM_TILES};

verus! {

/// The elements among the first `n` of `xs` that the hand holds exactly `v`
/// of, in order.
pub open spec fn with_count(h: Seq<u8>, xs: Seq<usize>, v: int, n: int) -> Seq<usize>
    decreases n,
{
    if n <= 0 {
        Seq::empty()
    } else {
        with_count(h, xs, v, n - 1) + if h[xs[n - 1] as int] == v {
            seq![xs[n - 1]]
        } else {
            Seq::empty()
        }
    }
}

/// The elements of `xs` the hand holds at least `v` of, most held first,
/// ties in their order in `xs`.
pub open spec fn count_down_to(h: Seq<u8>, xs: Seq<usize>, v: int) -> Seq<usize>
    decreases 256 - v,
{
    if v >= 256 {
        Seq::empty()
    } else {
        count_down_to(h, xs, v + 1) + with_count(h, xs, v, xs.len() as int)
    }
}

/// `xs` ordered by how many the hand holds, most first, ties in their order
/// in `xs` (a stable sort).
pub open spec fn by_count(h: Seq<u8>, xs: Seq<usize>) -> Seq<usize> {
    count_down_to(h, xs, 0)
}

proof fn lemma_with_count_in(h: Seq<u8>, xs: Seq<usize>, v: int, n: int, bound: int)
    requires
        0 <= n <= xs.len(),
        forall|j: int| 0 <= j < xs.len() ==> #[trigger] xs[j] < bound,
    ensures
        forall|j: int| 0 <= j < with_count(h, xs, v, n).len() ==> #[trigger] with_count(h, xs, v, n)[j] < bound,
    decreases n,
{
    if n > 0 {
        lemma_with_count_in(h, xs, v, n - 1, bound);
        let a = with_count(h, xs, v, n - 1);
        assert forall|j: int| 0 <= j < with_count(h, xs, v, n).len() implies #[trigger] with_count(h, xs, v, n)[j] < bound by {
            if j < a.len() {
                assert(with_count(h, xs, v, n)[j] == a[j]);
            }
        }
    }
}

/// Orders tiles by how many the hand holds, most first (stable).
fn sort_by_count(hand: &Counts, xs: &Vec<usize>) -> (r: Vec<usize>)
    requires
        forall|j: int| 0 <= j < xs@.len() ==> #[trigger] xs@[j] < 34,
    ensures
        r@ == by_count(hand@, xs@),
        forall|j: int| 0 <= j < r@.len() ==> #[trigger] r@[j] < 34,
{
    let mut out: Vec<usize> = Vec::new();
    let mut w: u32 = 0;
    while w < 256
        invariant
            w <= 256,
            forall|j: int| 0 <= j < xs@.len() ==> #[trigger] xs@[j] < 34,
            out@ == count_down_to(hand@, xs@, 256 - w),
            forall|j: int| 0 <= j < out@.len() ==> #[trigger] out@[j] < 34,
        decreases 256 - w,
    {
        let v: u32 = 255 - w;
        let ghost base = out@;
        let mut k: usize = 0;
        while k < xs.len()
            invariant
                k <= xs@.len(),
                v <= 255,
                forall|j: int| 0 <= j < xs@.len() ==> #[trigger] xs@[j] < 34,
                out@ == base + with_count(hand@, xs@, v as int, k as int),
                forall|j: int| 0 <= j < out@.len() ==> #[trigger] out@[j] < 34,
            decreases xs@.len() - k,
        {
            let x = xs[k];
            if hand[x] as u32 == v {
                out.push(x);
            }
            k = k + 1;
            assert(out@ =~= base + with_count(hand@, xs@, v as int, k as int));
        }
        w = w + 1;
    }
    out
}

/// The tiles `lo..hi` in order.
pub open spec fn tile_range(lo: int, hi: int) -> Seq<usize> {
    Seq::new(if hi > lo { (hi - lo) as nat } else { 0 }, |i: int| (lo + i) as usize)
}

fn range_vec(lo: usize, hi: usize) -> (v: Vec<usize>)
    requires
        lo <= hi,
    ensures
        v@ == tile_range(lo as int, hi as int),
{
    let mut v: Vec<usize> = Vec::new();
    let mut x = lo;
    while x < hi
        invariant
            lo <= x <= hi,
            v@ == tile_range(lo as int, x as int),
        decreases hi - x,
    {
        v.push(x);
        x = x + 1;
        assert(v@ =~= tile_range(lo as int, x as int));
    }
    v
}

// ---------------------------------------------------------------------------
// Seven pairs
// ---------------------------------------------------------------------------

/// First pass over the first `n` tiles of `xs`: a tile held four times takes
/// two pairs while two slots are left.
pub open spec fn pass_quads(h: Seq<u8>, xs: Seq<usize>, n: int, st: (Seq<u8>, int)) -> (Seq<u8>, int)
    decreases n,
{
    if n <= 0 {
        st
    } else {
        let p = pass_quads(h, xs, n - 1, st);
        let x = xs[n - 1] as int;
        if p.1 >= 2 && h[x] >= 4 {
            (p.0.update(x, (p.0[x] + 4) as u8), p.1 - 2)
        } else {
            p
        }
    }
}

/// A later pass: a tile held at least `least` times and not yet taken takes
/// a pair while a slot is left.
pub open spec fn pass_pairs(h: Seq<u8>, xs: Seq<usize>, n: int, st: (Seq<u8>, int), least: u8) -> (
    Seq<u8>,
    int,
)
    decreases n,
{
    if n <= 0 {
        st
    } else {
        let p = pass_pairs(h, xs, n - 1, st, least);
        let x = xs[n - 1] as int;
        if p.1 >= 1 && h[x] >= least && p.0[x] == 0 {
            (p.0.update(x, (p.0[x] + 2) as u8), p.1 - 1)
        } else {
            p
        }
    }
}

/// The pass for the triplets: a tile held three times and taken as one pair
/// takes a second (its fourth tile to draw) while a slot is left.
pub open spec fn pass_thirds(h: Seq<u8>, xs: Seq<usize>, n: int, st: (Seq<u8>, int)) -> (Seq<u8>, int)
    decreases n,
{
    if n <= 0 {
        st
    } else {
        let p = pass_thirds(h, xs, n - 1, st);
        let x = xs[n - 1] as int;
        if p.1 >= 1 && h[x] == 3 && p.0[x] == 2 {
            (p.0.update(x, 4u8), p.1 - 1)
        } else {
            p
        }
    }
}

/// Seven pairs target (four of a kind counts as two pairs): tiles in order
/// of how many are held, quads first (two pairs each), then held pairs,
/// then single tiles, then a second pair on each triplet (its fourth tile
/// to draw); the pairs still missing are of tiles not held, in tile order:
/// seven pairs in all.
pub open spec fn seven_pairs_target(h: Seq<u8>) -> Seq<u8> {
    let o = by_count(h, tile_range(0, 34));
    let s1 = pass_quads(h, o, o.len() as int, (zeros(), 7));
    let s2 = pass_pairs(h, o, o.len() as int, s1, 2);
    let s3 = pass_pairs(h, o, o.len() as int, s2, 1);
    let s4 = pass_thirds(h, o, o.len() as int, s3);
    pass_pairs(h, tile_range(0, 34), 34, s4, 0).0
}

/// Seven pairs: only for a concealed hand of 13 tiles.
pub open spec fn spec_seven_pairs(h: Seq<u8>, ms: Seq<Meld>) -> Option<(u32, Seq<u8>)> {
    if ms.len() != 0 || seq_sum(h) != 13 {
        None
    } else {
        let t = seven_pairs_target(h);
        Some((spec_cover(h, t) as u32, t))
    }
}

/// Counts are at most twice the slots used.
pub open spec fn pairs_room(st: (Seq<u8>, int)) -> bool {
    &&& st.0.len() == 34
    &&& 0 <= st.1 <= 7
    &&& forall|x: int| 0 <= x < 34 ==> #[trigger] st.0[x] <= 2 * (7 - st.1)
}

/// Seven pairs: the target of seven pairs covering most of the hand.
pub fn seven_pairs(hand: &Counts, melds: &[Meld]) -> (r: Option<(u32, Counts)>)
    ensures
        best_view(r) == spec_seven_pairs(hand@, melds@),
{
    if melds.len() != 0 || total(hand) != 13 {
        return None;
    }
    let all = range_vec(0, NUM_TILES);
    let order = sort_by_count(hand, &all);
    let mut t = counts();
    let mut slots: u32 = 7;
    assert(t@ =~= zeros());
    let mut i: usize = 0;
    while i < order.len()
        invariant
            i <= order@.len(),
            forall|j: int| 0 <= j < order@.len() ==> #[trigger] order@[j] < 34,
            (t@, slots as int) == pass_quads(hand@, order@, i as int, (zeros(), 7)),
            pairs_room((t@, slots as int)),
        decreases order@.len() - i,
    {
        let x = order[i];
        if slots >= 2 && hand[x] >= 4 {
            t[x] = t[x] + 4;
            slots = slots - 2;
        }
        i = i + 1;
    }
    let ghost s1 = (t@, slots as int);
    let mut i: usize = 0;
    while i < order.len()
        invariant
            i <= order@.len(),
            forall|j: int| 0 <= j < order@.len() ==> #[trigger] order@[j] < 34,
            (t@, slots as int) == pass_pairs(hand@, order@, i as int, s1, 2),
            pairs_room((t@, slots as int)),
        decreases order@.len() - i,
    {
        let x = order[i];
        if slots >= 1 && hand[x] >= 2 && t[x] == 0 {
            t[x] = t[x] + 2;
            slots = slots - 1;
        }
        i = i + 1;
    }
    let ghost s2 = (t@, slots as int);
    let mut i: usize = 0;
    while i < order.len()
        invariant
            i <= order@.len(),
            forall|j: int| 0 <= j < order@.len() ==> #[trigger] order@[j] < 34,
            (t@, slots as int) == pass_pairs(hand@, order@, i as int, s2, 1),
            pairs_room((t@, slots as int)),
        decreases order@.len() - i,
    {
        let x = order[i];
        if slots >= 1 && hand[x] >= 1 && t[x] == 0 {
            t[x] = t[x] + 2;
            slots = slots - 1;
        }
        i = i + 1;
    }
    let ghost s3 = (t@, slots as int);
    let mut i: usize = 0;
    while i < order.len()
        invariant
            i <= order@.len(),
            forall|j: int| 0 <= j < order@.len() ==> #[trigger] order@[j] < 34,
            (t@, slots as int) == pass_thirds(hand@, order@, i as int, s3),
            pairs_room((t@, slots as int)),
        decreases order@.len() - i,
    {
        let x = order[i];
        if slots >= 1 && hand[x] == 3 && t[x] == 2 {
            t[x] = 4;
            slots = slots - 1;
        }
        i = i + 1;
    }
    let ghost s4 = (t@, slots as int);
    let mut x: usize = 0;
    while x < NUM_TILES
        invariant
            x <= 34,
            (t@, slots as int) == pass_pairs(hand@, tile_range(0, 34), x as int, s4, 0),
            pairs_room((t@, slots as int)),
        decreases 34 - x,
    {
        if slots >= 1 && t[x] == 0 {
            t[x] = 2;
            slots = slots - 1;
        }
        x = x + 1;
    }
    Some((cover(hand, &t), t))
}

/// A state of the seven pairs passes: every count even, two tiles per slot
/// used.
pub open spec fn pairs_inv(st: (Seq<u8>, int)) -> bool {
    &&& pairs_room(st)
    &&& sum_upto(st.0, 34) == 2 * (7 - st.1)
    &&& forall|x: int| 0 <= x < 34 ==> #[trigger] st.0[x] % 2 == 0
}

proof fn lemma_quads_inv(h: Seq<u8>, xs: Seq<usize>, n: int, st: (Seq<u8>, int))
    requires
        pairs_inv(st),
        0 <= n <= xs.len(),
        forall|j: int| 0 <= j < xs.len() ==> #[trigger] xs[j] < 34,
    ensures
        pairs_inv(pass_quads(h, xs, n, st)),
    decreases n,
{
    if n > 0 {
        lemma_quads_inv(h, xs, n - 1, st);
        let p = pass_quads(h, xs, n - 1, st);
        let x = xs[n - 1] as int;
        if p.1 >= 2 && h[x] >= 4 {
            lemma_sum_update(p.0, x, (p.0[x] + 4) as u8, 34);
        }
    }
}

proof fn lemma_thirds_inv(h: Seq<u8>, xs: Seq<usize>, n: int, st: (Seq<u8>, int))
    requires
        pairs_inv(st),
        0 <= n <= xs.len(),
        forall|j: int| 0 <= j < xs.len() ==> #[trigger] xs[j] < 34,
    ensures
        pairs_inv(pass_thirds(h, xs, n, st)),
    decreases n,
{
    if n > 0 {
        lemma_thirds_inv(h, xs, n - 1, st);
        let p = pass_thirds(h, xs, n - 1, st);
        let x = xs[n - 1] as int;
        if p.1 >= 1 && h[x] == 3 && p.0[x] == 2 {
            lemma_sum_update(p.0, x, 4u8, 34);
        }
    }
}

proof fn lemma_pairs_pass_inv(h: Seq<u8>, xs: Seq<usize>, n: int, st: (Seq<u8>, int), least: u8)
    requires
        pairs_inv(st),
        0 <= n <= xs.len(),
        forall|j: int| 0 <= j < xs.len() ==> #[trigger] xs[j] < 34,
    ensures
        pairs_inv(pass_pairs(h, xs, n, st, least)),
    decreases n,
{
    if n > 0 {
        lemma_pairs_pass_inv(h, xs, n - 1, st, least);
        let p = pass_pairs(h, xs, n - 1, st, least);
        let x = xs[n - 1] as int;
        if p.1 >= 1 && h[x] >= least && p.0[x] == 0 {
            lemma_sum_update(p.0, x, (p.0[x] + 2) as u8, 34);
        }
    }
}

/// How many kinds below `n` the target leaves out.
pub open spec fn zero_count(t: Seq<u8>, n: int) -> int
    decreases n,
{
    if n <= 0 {
        0
    } else {
        zero_count(t, n - 1) + if t[n - 1] == 0 {
            1int
        } else {
            0int
        }
    }
}

proof fn lemma_zero_count(t: Seq<u8>, n: int)
    requires
        0 <= n <= t.len(),
        forall|x: int| 0 <= x < t.len() ==> #[trigger] t[x] % 2 == 0,
    ensures
        2 * (n - zero_count(t, n)) <= sum_upto(t, n),
        0 <= zero_count(t, n) <= n,
    decreases n,
{
    if n > 0 {
        lemma_zero_count(t, n - 1);
        assert(t[n - 1] % 2 == 0);
    }
}

/// The last pass, over all tiles in order, fills one slot per tile it finds
/// left out, and leaves the later tiles alone.
proof fn lemma_fill(h: Seq<u8>, n: int, st: (Seq<u8>, int))
    requires
        st.0.len() == 34,
        st.1 >= 0,
        0 <= n <= 34,
    ensures
        ({
            let p = pass_pairs(h, tile_range(0, 34), n, st, 0);
            &&& p.1 == if st.1 - zero_count(st.0, n) > 0 {
                st.1 - zero_count(st.0, n)
            } else {
                0
            }
            &&& p.0.len() == 34
            &&& forall|y: int| n <= y < 34 ==> #[trigger] p.0[y] == st.0[y]
        }),
    decreases n,
{
    if n > 0 {
        lemma_fill(h, n - 1, st);
        assert(tile_range(0, 34)[n - 1] == n - 1);
        let p = pass_pairs(h, tile_range(0, 34), n - 1, st, 0);
        assert(p.0[n - 1] == st.0[n - 1]);
    }
}

/// The seven pairs target is seven pairs: fourteen tiles, every kind held an
/// even number of times.
pub proof fn lemma_seven_pairs_shape(h: Seq<u8>)
    ensures
        seven_pairs_target(h).len() == 34,
        sum_upto(seven_pairs_target(h), 34) == 14,
        forall|x: int| 0 <= x < 34 ==> #[trigger] seven_pairs_target(h)[x] % 2 == 0,
{
    let o = by_count(h, tile_range(0, 34));
    assert forall|j: int| 0 <= j < tile_range(0, 34).len() implies #[trigger] tile_range(0, 34)[j] < 34 by {}
    lemma_by_count_in(h, tile_range(0, 34), 34);
    let z = (zeros(), 7int);
    assert(sum_upto(zeros(), 34) == 0) by {
        lemma_zeros_sum_upto(34);
    }
    assert(pairs_inv(z));
    let s1 = pass_quads(h, o, o.len() as int, z);
    lemma_quads_inv(h, o, o.len() as int, z);
    let s2 = pass_pairs(h, o, o.len() as int, s1, 2);
    lemma_pairs_pass_inv(h, o, o.len() as int, s1, 2);
    let s3 = pass_pairs(h, o, o.len() as int, s2, 1);
    lemma_pairs_pass_inv(h, o, o.len() as int, s2, 1);
    let s4 = pass_thirds(h, o, o.len() as int, s3);
    lemma_thirds_inv(h, o, o.len() as int, s3);
    lemma_pairs_pass_inv(h, tile_range(0, 34), 34, s4, 0);
    lemma_zero_count(s4.0, 34);
    lemma_fill(h, 34, s4);
}

proof fn lemma_zeros_sum_upto(n: int)
    requires
        0 <= n <= 34,
    ensures
        sum_upto(zeros(), n) == 0,
    decreases n,
{
    if n > 0 {
        lemma_zeros_sum_upto(n - 1);
    }
}

/// Every element of `by_count(h, xs)` is below `bound` when every element
/// of `xs` is.
proof fn lemma_by_count_in(h: Seq<u8>, xs: Seq<usize>, bound: int)
    requires
        forall|j: int| 0 <= j < xs.len() ==> #[trigger] xs[j] < bound,
    ensures
        forall|j: int| 0 <= j < by_count(h, xs).len() ==> #[trigger] by_count(h, xs)[j] < bound,
{
    lemma_count_down_in(h, xs, 0, bound);
}

proof fn lemma_count_down_in(h: Seq<u8>, xs: Seq<usize>, v: int, bound: int)
    requires
        forall|j: int| 0 <= j < xs.len() ==> #[trigger] xs[j] < bound,
    ensures
        forall|j: int| 0 <= j < count_down_to(h, xs, v).len() ==> #[trigger] count_down_to(h, xs, v)[j] < bound,
    decreases 256 - v,
{
    if v < 256 {
        lemma_count_down_in(h, xs, v + 1, bound);
        lemma_with_count_in(h, xs, v, xs.len() as int, bound);
        let a = count_down_to(h, xs, v + 1);
        let b = with_count(h, xs, v, xs.len() as int);
        assert forall|j: int| 0 <= j < (a + b).len() implies #[trigger] (a + b)[j] < bound by {
            if j < a.len() {
                assert((a + b)[j] == a[j]);
            } else {
                assert((a + b)[j] == b[j - a.len()]);
            }
        }
    }
}


// ---------------------------------------------------------------------------
// Seven shifted pairs
// ---------------------------------------------------------------------------

/// Seven shifted pairs of suit `s` starting at rank `n`.
pub open spec fn straight_target(s: int, n: int) -> Seq<u8> {
    Seq::new(34, |x: int| if s * 9 + n - 1 <= x < s * 9 + n + 6 { 2u8 } else { 0u8 })
}

/// The nine shifted-pairs targets: suit by suit, starting rank 1 to 3.
pub open spec fn straight_targets() -> Seq<Seq<u8>> {
    Seq::new(9, |j: int| straight_target(j / 3, j % 3 + 1))
}

pub open spec fn spec_seven_pairs_straight(h: Seq<u8>, ms: Seq<Meld>) -> Option<(u32, Seq<u8>)> {
    if ms.len() != 0 || seq_sum(h) != 13 {
        None
    } else {
        pick(h, None, straight_targets())
    }
}

/// Seven shifted pairs: the run of seven pairs covering most of the hand.
pub fn seven_pairs_straight(hand: &Counts, melds: &[Meld]) -> (r: Option<(u32, Counts)>)
    ensures
        best_view(r) == spec_seven_pairs_straight(hand@, melds@),
{
    if melds.len() != 0 || total(hand) != 13 {
        return None;
    }
    let mut best: Option<(u32, Counts)> = None;
    let mut s: usize = 0;
    while s < 3
        invariant
            s <= 3,
            best_view(best) == pick(hand@, None, straight_targets().subrange(0, 3 * s as int)),
        decreases 3 - s,
    {
        let mut n: usize = 1;
        while n <= 3
            invariant
                1 <= n <= 4,
                s < 3,
                best_view(best) == pick(hand@, None, straight_targets().subrange(0, 3 * s + n - 1)),
            decreases 4 - n,
        {
            let mut t = counts();
            let mut k: usize = 0;
            while k < 7
                invariant
                    k <= 7,
                    s < 3,
                    1 <= n <= 3,
                    t@.len() == 34,
                    forall|x: int|
                        0 <= x < 34 ==> #[trigger] t@[x] == if s * 9 + n - 1 <= x < s * 9 + n - 1 + k {
                            2u8
                        } else {
                            0u8
                        },
                decreases 7 - k,
            {
                t[s * 9 + (n - 1) + k] = 2;
                k = k + 1;
            }
            let j = 3 * s + n - 1;
            assert(t@ =~= straight_targets()[j as int]) by {
                assert(j / 3 == s && j % 3 + 1 == n);
            }
            let c = cover(hand, &t);
            proof {
                lemma_cover_bounds(hand@, t@, 34);
                let ts = straight_targets().subrange(0, j + 1);
                assert(ts.drop_last() =~= straight_targets().subrange(0, j as int));
            }
            let better = match best {
                Some((bc, _)) => c > bc,
                None => true,
            };
            if better {
                best = Some((c, t));
            }
            n = n + 1;
        }
        s = s + 1;
    }
    assert(straight_targets().subrange(0, 9) =~= straight_targets());
    best
}

// ---------------------------------------------------------------------------
// Thirteen orphans
// ---------------------------------------------------------------------------

/// The `i`-th terminal or honor, in tile order.
pub open spec fn orphan(i: int) -> int {
    if i < 6 {
        (i / 2) * 9 + (i % 2) * 8
    } else {
        i + 21
    }
}

/// How many of the first `n` terminals and honors the hand holds.
pub open spec fn orphan_kinds(h: Seq<u8>, n: int) -> int
    decreases n,
{
    if n <= 0 {
        0
    } else {
        orphan_kinds(h, n - 1) + if h[orphan(n - 1)] > 0 {
            1int
        } else {
            0int
        }
    }
}

/// The first of the first `n` terminals and honors held at least twice
/// (`n` when there is none).
pub open spec fn first_orphan_pair(h: Seq<u8>, n: int) -> int
    decreases n,
{
    if n <= 0 {
        0
    } else if first_orphan_pair(h, n - 1) < n - 1 {
        first_orphan_pair(h, n - 1)
    } else if h[orphan(n - 1)] >= 2 {
        n - 1
    } else {
        n
    }
}

/// One of each terminal and honor, and a second of the first one held twice
/// (of the first terminal when none is).
pub open spec fn orphans_target(h: Seq<u8>) -> Seq<u8> {
    let f = first_orphan_pair(h, 13);
    let p = if f < 13 {
        orphan(f)
    } else {
        orphan(0)
    };
    Seq::new(
        34,
        |x: int|
            if x == p {
                2u8
            } else if x >= 27 || x % 9 == 0 || x % 9 == 8 {
                1u8
            } else {
                0u8
            },
    )
}

/// Thirteen orphans: the kinds held plus one for a pair among them, and the
/// target.
pub open spec fn spec_thirteen_orphans(h: Seq<u8>, ms: Seq<Meld>) -> Option<(u32, Seq<u8>)> {
    if ms.len() != 0 || seq_sum(h) != 13 {
        None
    } else {
        Some(
            (
                (orphan_kinds(h, 13) + if first_orphan_pair(h, 13) < 13 {
                    1int
                } else {
                    0int
                }) as u32,
                orphans_target(h),
            ),
        )
    }
}

fn orphan_tile(i: usize) -> (t: usize)
    requires
        i < 13,
    ensures
        t == orphan(i as int),
        t < 34,
{
    if i < 6 {
        (i / 2) * 9 + (i % 2) * 8
    } else {
        i + 21
    }
}

pub proof fn lemma_first_orphan_pair(h: Seq<u8>, n: int)
    requires
        0 <= n,
    ensures
        0 <= first_orphan_pair(h, n) <= n,
        first_orphan_pair(h, n) < n ==> h[orphan(first_orphan_pair(h, n))] >= 2,
        first_orphan_pair(h, n) == n ==> forall|i: int| 0 <= i < n ==> h[#[trigger] orphan(i)] < 2,
    decreases n,
{
    if n > 0 {
        lemma_first_orphan_pair(h, n - 1);
    }
}

/// Thirteen orphans: one of each terminal and honor, one of them twice.
pub fn thirteen_orphans(hand: &Counts, melds: &[Meld]) -> (r: Option<(u32, Counts)>)
    ensures
        best_view(r) == spec_thirteen_orphans(hand@, melds@),
{
    if melds.len() != 0 || total(hand) != 13 {
        return None;
    }
    let mut kinds: u32 = 0;
    let mut first: usize = 0;
    let mut i: usize = 0;
    while i < 13
        invariant
            i <= 13,
            kinds == orphan_kinds(hand@, i as int),
            kinds <= i,
            first == first_orphan_pair(hand@, i as int),
        decreases 13 - i,
    {
        let x = orphan_tile(i);
        if hand[x] > 0 {
            kinds = kinds + 1;
        }
        if first == i && hand[x] < 2 {
            first = i + 1;
        }
        i = i + 1;
    }
    proof {
        lemma_first_orphan_pair(hand@, 13);
    }
    let pair_flag: u32 = if first < 13 {
        1
    } else {
        0
    };
    let mut t = counts();
    let mut x: usize = 0;
    while x < NUM_TILES
        invariant
            x <= 34,
            t@.len() == 34,
            forall|y: int|
                0 <= y < 34 ==> #[trigger] t@[y] == if y < x && (y >= 27 || y % 9 == 0 || y % 9 == 8) {
                    1u8
                } else {
                    0u8
                },
        decreases 34 - x,
    {
        if x >= 27 || x % 9 == 0 || x % 9 == 8 {
            t[x] = 1;
        }
        x = x + 1;
    }
    let p = if first < 13 {
        orphan_tile(first)
    } else {
        orphan_tile(0)
    };
    t[p] = 2;
    assert(t@ =~= orphans_target(hand@));
    Some((kinds + pair_flag, t))
}


// ---------------------------------------------------------------------------
// Honors and knitted tiles
// ---------------------------------------------------------------------------

/// How many of the honors `27..27 + n` the hand holds.
pub open spec fn held_honors(h: Seq<u8>, n: int) -> int
    decreases n,
{
    if n <= 0 {
        0
    } else {
        held_honors(h, n - 1) + if h[27 + n - 1] > 0 {
            1int
        } else {
            0int
        }
    }
}

/// How many honors the target takes: all seven for seven stars, otherwise
/// as many as are held, at least five and at most seven.
pub open spec fn honor_take(h: Seq<u8>, seven: bool) -> int {
    if seven {
        7
    } else {
        let k = held_honors(h, 7);
        if k < 5 {
            5
        } else if k > 7 {
            7
        } else {
            k
        }
    }
}

/// `t` with a single copy of each of the first `n` tiles of `xs`.
pub open spec fn mark_first(t: Seq<u8>, xs: Seq<usize>, n: int) -> Seq<u8>
    decreases n,
{
    if n <= 0 {
        t
    } else {
        mark_first(t, xs, n - 1).update(xs[n - 1] as int, 1u8)
    }
}

pub open spec fn min_int(a: int, b: int) -> int {
    if a <= b {
        a
    } else {
        b
    }
}

/// The honors-and-knitted target for column choice `i`: the honors most
/// held, then the knitted tiles most held, fourteen in all.
pub open spec fn bu_kao_target(h: Seq<u8>, i: int, seven: bool) -> Seq<u8> {
    let take = honor_take(h, seven);
    let hs = by_count(h, tile_range(27, 34));
    let ks = by_count(h, spec_knit_tiles(spec_perm(i)));
    let t1 = mark_first(zeros(), hs, min_int(take, hs.len() as int));
    mark_first(t1, ks, min_int(14 - take, ks.len() as int))
}

pub open spec fn bu_kao_targets(h: Seq<u8>, seven: bool) -> Seq<Seq<u8>> {
    Seq::new(6, |i: int| bu_kao_target(h, i, seven))
}

pub open spec fn spec_bu_kao(h: Seq<u8>, ms: Seq<Meld>, seven: bool) -> Option<(u32, Seq<u8>)> {
    if ms.len() != 0 || seq_sum(h) != 13 {
        None
    } else {
        pick(h, None, bu_kao_targets(h, seven))
    }
}

/// Marks one copy of each of the first `n` tiles of `xs` (those not yet
/// marked).
fn mark(t: &mut Counts, xs: &Vec<usize>, n: usize)
    requires
        n <= xs@.len(),
        forall|j: int| 0 <= j < xs@.len() ==> #[trigger] xs@[j] < 34,
        forall|y: int| 0 <= y < 34 ==> #[trigger] old(t)@[y] <= 1,
    ensures
        final(t)@ == mark_first(old(t)@, xs@, n as int),
        forall|y: int| 0 <= y < 34 ==> #[trigger] final(t)@[y] <= 1,
{
    let mut j: usize = 0;
    while j < n
        invariant
            j <= n <= xs@.len(),
            forall|k: int| 0 <= k < xs@.len() ==> #[trigger] xs@[k] < 34,
            t@ == mark_first(old(t)@, xs@, j as int),
            forall|y: int| 0 <= y < 34 ==> #[trigger] t@[y] <= 1,
        decreases n - j,
    {
        let x = xs[j];
        if t[x] == 0 {
            t[x] = 1;
        }
        j = j + 1;
        assert(t@ =~= mark_first(old(t)@, xs@, j as int));
    }
}

/// The knitted tiles of column choice `i`.
fn knit_of(i: usize) -> (v: Vec<usize>)
    requires
        i < 6,
    ensures
        v@ == spec_knit_tiles(spec_perm(i as int)),
        forall|j: int| 0 <= j < v@.len() ==> #[trigger] v@[j] < 34,
{
    let p = perm(i);
    assert(p@.map_values(|x: usize| x as int) =~= spec_perm(i as int));
    let v = knit_tiles(p);
    v
}

/// Honors and knitted tiles (or seven stars): the target of fourteen single
/// tiles covering most of the hand.
pub fn bu_kao(hand: &Counts, melds: &[Meld], seven_stars: bool) -> (r: Option<(u32, Counts)>)
    ensures
        best_view(r) == spec_bu_kao(hand@, melds@, seven_stars),
{
    if melds.len() != 0 || total(hand) != 13 {
        return None;
    }
    let mut held: usize = 0;
    let mut x: usize = 27;
    while x <= 33
        invariant
            27 <= x <= 34,
            held == held_honors(hand@, x - 27),
            held <= x - 27,
        decreases 34 - x,
    {
        if hand[x] > 0 {
            held = held + 1;
        }
        x = x + 1;
    }
    let take: usize = if seven_stars {
        7
    } else if held < 5 {
        5
    } else if held > 7 {
        7
    } else {
        held
    };
    let honors = range_vec(27, 34);
    let hs = sort_by_count(hand, &honors);
    let mut best: Option<(u32, Counts)> = None;
    let mut i: usize = 0;
    while i < 6
        invariant
            i <= 6,
            take == honor_take(hand@, seven_stars),
            hs@ == by_count(hand@, tile_range(27, 34)),
            forall|j: int| 0 <= j < hs@.len() ==> #[trigger] hs@[j] < 34,
            best_view(best) == pick(hand@, None, bu_kao_targets(hand@, seven_stars).subrange(0, i as int)),
        decreases 6 - i,
    {
        let knit = knit_of(i);
        let ks = sort_by_count(hand, &knit);
        let mut t = counts();
        assert(t@ =~= zeros());
        let nh = if take < hs.len() {
            take
        } else {
            hs.len()
        };
        mark(&mut t, &hs, nh);
        let nk = if 14 - take < ks.len() {
            14 - take
        } else {
            ks.len()
        };
        mark(&mut t, &ks, nk);
        assert(t@ == bu_kao_targets(hand@, seven_stars)[i as int]);
        let c = cover(hand, &t);
        proof {
            lemma_cover_bounds(hand@, t@, 34);
            let ts = bu_kao_targets(hand@, seven_stars).subrange(0, i + 1);
            assert(ts.drop_last() =~= bu_kao_targets(hand@, seven_stars).subrange(0, i as int));
        }
        let better = match best {
            Some((bc, _)) => c > bc,
            None => true,
        };
        if better {
            best = Some((c, t));
        }
        i = i + 1;
    }
    assert(bu_kao_targets(hand@, seven_stars).subrange(0, 6) =~= bu_kao_targets(hand@, seven_stars));
    best
}

// ---------------------------------------------------------------------------
// Nine gates
// ---------------------------------------------------------------------------

/// Nine gates in suit `s` with rank `x` as the extra tile: 1112345678999
/// plus one more `x`.
pub open spec fn nine_gates_target(s: int, x: int) -> Seq<u8> {
    Seq::new(
        34,
        |y: int|
            if s * 9 <= y < s * 9 + 9 {
                ((if y == s * 9 || y == s * 9 + 8 {
                    3int
                } else {
                    1int
                }) + if y == s * 9 + x - 1 {
                    1int
                } else {
                    0int
                }) as u8
            } else {
                0u8
            },
    )
}

/// The nine gates target for suit `s` and extra rank `x`, with its cover.
pub fn nine_gates(hand: &Counts, s: usize, x: usize) -> (r: (u32, Counts))
    requires
        s < 3,
        1 <= x <= 9,
    ensures
        r.1@ == nine_gates_target(s as int, x as int),
        r.0 == spec_cover(hand@, r.1@),
{
    let mut t = counts();
    let mut n: usize = 1;
    while n <= 9
        invariant
            1 <= n <= 10,
            s < 3,
            t@.len() == 34,
            forall|y: int|
                0 <= y < 34 ==> #[trigger] t@[y] == if s * 9 <= y < s * 9 + n - 1 {
                    if y == s * 9 || y == s * 9 + 8 {
                        3u8
                    } else {
                        1u8
                    }
                } else {
                    0u8
                },
        decreases 10 - n,
    {
        t[s * 9 + n - 1] = if n == 1 || n == 9 {
            3
        } else {
            1
        };
        n = n + 1;
    }
    t[s * 9 + x - 1] = t[s * 9 + x - 1] + 1;
    assert(t@ =~= nine_gates_target(s as int, x as int));
    (cover(hand, &t), t)
}

// ---------------------------------------------------------------------------
// Knitted straight
// ---------------------------------------------------------------------------

/// The `j`-th set the knitted straight may take: the triplets of each tile,
/// then the runs suit by suit.
pub open spec fn zl_set(j: int) -> Seq<usize> {
    if j < 34 {
        seq![j as usize, j as usize, j as usize]
    } else {
        let k = j - 34;
        let t = (k / 7) * 9 + k % 7;
        seq![t as usize, (t + 1) as usize, (t + 2) as usize]
    }
}

/// How many choices of the set there are: none to choose beside a meld.
pub open spec fn zl_set_count(melded: bool) -> int {
    if melded {
        1
    } else {
        55
    }
}

/// The knitted straight target for column choice `i`, set choice `j` and
/// pair `p`.
pub open spec fn zl_target(i: int, melded: bool, j: int, p: int) -> Seq<u8> {
    let base = mark_first(zeros(), spec_knit_tiles(spec_perm(i)), 9);
    let with_set = if melded {
        base
    } else {
        crate::plan::search::add_set(base, zl_set(j))
    };
    crate::plan::search::with_pair(with_set, p as usize)
}

/// All knitted straight targets for column choice `i`, set by set, pair by
/// pair.
pub open spec fn zl_targets(i: int, melded: bool) -> Seq<Seq<u8>> {
    Seq::new((zl_set_count(melded) * 34) as nat, |k: int| zl_target(i, melded, k / 34, k % 34))
}

pub open spec fn spec_knitted(h: Seq<u8>, i: int, melded: bool) -> Option<(u32, Seq<u8>)> {
    pick(h, None, zl_targets(i, melded))
}

fn zl_set_tiles(j: usize) -> (r: [usize; 3])
    requires
        j < 55,
    ensures
        r@ == zl_set(j as int),
        r@[0] < 34 && r@[1] < 34 && r@[2] < 34,
{
    if j < 34 {
        let r = [j, j, j];
        assert(r@ =~= zl_set(j as int));
        r
    } else {
        let k = j - 34;
        let t = (k / 7) * 9 + k % 7;
        let r = [t, t + 1, t + 2];
        assert(r@ =~= zl_set(j as int));
        r
    }
}

/// The knitted straight for column choice `i` (beside a meld when `melded`)
/// that covers most of the hand.
pub fn knitted(hand: &Counts, i: usize, melded: bool) -> (r: Option<(u32, Counts)>)
    requires
        i < 6,
    ensures
        best_view(r) == spec_knitted(hand@, i as int, melded),
{
    let knit = knit_of(i);
    let mut base = counts();
    assert(base@ =~= zeros());
    mark(&mut base, &knit, 9);
    let count: usize = if melded {
        1
    } else {
        55
    };
    let ghost ts = zl_targets(i as int, melded);
    let mut best: Option<(u32, Counts)> = None;
    let mut j: usize = 0;
    while j < count
        invariant
            j <= count,
            count == zl_set_count(melded),
            ts == zl_targets(i as int, melded),
            base@ == mark_first(zeros(), spec_knit_tiles(spec_perm(i as int)), 9),
            forall|y: int| 0 <= y < 34 ==> #[trigger] base@[y] <= 1,
            best_view(best) == pick(hand@, None, ts.subrange(0, 34 * j)),
        decreases count - j,
    {
        let mut p: usize = 0;
        while p < NUM_TILES
            invariant
                p <= 34,
                j < count,
                count == zl_set_count(melded),
                ts == zl_targets(i as int, melded),
                base@ == mark_first(zeros(), spec_knit_tiles(spec_perm(i as int)), 9),
                forall|y: int| 0 <= y < 34 ==> #[trigger] base@[y] <= 1,
                best_view(best) == pick(hand@, None, ts.subrange(0, 34 * j + p)),
            decreases 34 - p,
        {
            let mut t: Counts = base;
            if !melded {
                let s = zl_set_tiles(j);
                t[s[0]] = t[s[0]].saturating_add(1);
                t[s[1]] = t[s[1]].saturating_add(1);
                t[s[2]] = t[s[2]].saturating_add(1);
                assert(t@ =~= crate::plan::search::add_set(base@, zl_set(j as int)));
            }
            t[p] = t[p].saturating_add(2);
            let k = 34 * j + p;
            assert(t@ =~= ts[k as int]) by {
                assert(k / 34 == j && k % 34 == p);
            }
            let c = cover(hand, &t);
            proof {
                lemma_cover_bounds(hand@, t@, 34);
                let pre = ts.subrange(0, k + 1);
                assert(pre.drop_last() =~= ts.subrange(0, k as int));
            }
            let better = match best {
                Some((bc, _)) => c > bc,
                None => true,
            };
            if better {
                best = Some((c, t));
            }
            p = p + 1;
        }
        j = j + 1;
    }
    assert(ts.subrange(0, 34 * count as int) =~= ts);
    best
}


/// Whether tile `x` is a terminal or an honor.
pub open spec fn is_orphan_tile(x: int) -> bool {
    x >= 27 || x % 9 == 0 || x % 9 == 8
}

/// How many terminals and honors below `n` the hand holds.
pub open spec fn orphans_below(h: Seq<u8>, n: int) -> int
    decreases n,
{
    if n <= 0 {
        0
    } else {
        orphans_below(h, n - 1) + if is_orphan_tile(n - 1) && h[n - 1] > 0 {
            1int
        } else {
            0int
        }
    }
}

proof fn lemma_orphans_cover(h: Seq<u8>, p: int, n: int)
    requires
        0 <= n <= 34,
        0 <= p < 34,
        is_orphan_tile(p),
    ensures
        crate::plan::target::cover_upto(h, orphans_shape(p), n) == orphans_below(h, n) + if p < n && h[p] >= 2 {
            1int
        } else {
            0int
        },
    decreases n,
{
    if n > 0 {
        lemma_orphans_cover(h, p, n - 1);
    }
}

proof fn lemma_orphans_count(h: Seq<u8>)
    ensures
        orphans_below(h, 34) == orphan_kinds(h, 13),
{
    reveal_with_fuel(orphans_below, 35);
    reveal_with_fuel(orphan_kinds, 14);
}

/// The count thirteen orphans returns is the cover of its target.
pub proof fn lemma_orphans_is_cover(h: Seq<u8>, ms: Seq<Meld>)
    ensures
        spec_thirteen_orphans(h, ms) matches Some(b) ==> b.0 == spec_cover(h, b.1),
{
    if ms.len() == 0 && seq_sum(h) == 13 {
        lemma_first_orphan_pair(h, 13);
        let f = first_orphan_pair(h, 13);
        let p = if f < 13 {
            orphan(f)
        } else {
            orphan(0)
        };
        assert(0 <= f <= 13);
        assert(f < 13 ==> 0 <= p < 34 && is_orphan_tile(p)) by {
            if f < 13 {
                assert(0 <= f < 13);
            }
        }
        assert(is_orphan_tile(p) && 0 <= p < 34) by {
            if f < 13 {
                if f < 6 {
                    assert(orphan(f) % 9 == 0 || orphan(f) % 9 == 8);
                }
            }
        }
        lemma_orphans_cover(h, p, 34);
        lemma_orphans_count(h);
        lemma_orphan_kinds_bound(h, 13);
        let t = Seq::new(
            34,
            |x: int|
                if x == p {
                    2u8
                } else if x >= 27 || x % 9 == 0 || x % 9 == 8 {
                    1u8
                } else {
                    0u8
                },
        );
        assert(orphans_target(h) == t);
        assert(orphans_shape(p) =~= t);
        if f == 13 {
            assert(h[orphan(0)] < 2);
        } else {
            assert(h[p] >= 2);
        }
    }
}

proof fn lemma_orphan_kinds_bound(h: Seq<u8>, n: int)
    requires
        0 <= n,
    ensures
        0 <= orphan_kinds(h, n) <= n,
    decreases n,
{
    if n > 0 {
        lemma_orphan_kinds_bound(h, n - 1);
    }
}

/// Thirteen orphans with the pair on terminal or honor `q`.
pub open spec fn orphans_shape(q: int) -> Seq<u8> {
    Seq::new(
        34,
        |x: int|
            if x == q {
                2u8
            } else if x >= 27 || x % 9 == 0 || x % 9 == 8 {
                1u8
            } else {
                0u8
            },
    )
}

/// The thirteen orphans target covers as much of the hand as thirteen
/// orphans with the pair on any terminal or honor.
pub proof fn lemma_orphans_best(h: Seq<u8>, q: int)
    requires
        0 <= q < 34,
        is_orphan_tile(q),
    ensures
        spec_cover(h, orphans_shape(q)) <= spec_cover(h, orphans_target(h)),
{
    lemma_first_orphan_pair(h, 13);
    let f = first_orphan_pair(h, 13);
    let p = if f < 13 {
        orphan(f)
    } else {
        orphan(0)
    };
    assert(is_orphan_tile(p) && 0 <= p < 34) by {
        if f < 6 {
            assert(orphan(f) % 9 == 0 || orphan(f) % 9 == 8);
        }
    }
    lemma_orphans_cover(h, p, 34);
    lemma_orphans_cover(h, q, 34);
    assert(orphans_target(h) == orphans_shape(p));
    let ob = orphans_below(h, 34);
    assert(spec_cover(h, orphans_shape(q)) == ob + if h[q] >= 2 {
        1int
    } else {
        0int
    });
    assert(spec_cover(h, orphans_shape(p)) == ob + if h[p] >= 2 {
        1int
    } else {
        0int
    });
    if f == 13 && h[q] >= 2 {
        let i = if q >= 27 {
            q - 21
        } else if q % 9 == 0 {
            (q / 9) * 2
        } else {
            (q / 9) * 2 + 1
        };
        assert(0 <= i < 13 && orphan(i) == q);
        assert(h[orphan(i)] < 2);
    }
}

} // verus!
