//! Target shapes and how much of a hand they use.
use vstd::prelude::*;
use crate::tiles::{seq_sum, Counts, NUM_TILES};

verus! {

/// The smaller of two counts.
pub open spec fn min_count(a: u8, b: u8) -> int {
    if a <= b {
        a as int
    } else {
        b as int
    }
}

/// `a + k`, held at 255.
pub open spec fn sat_add(a: u8, k: u8) -> u8 {
    if a + k > 255 {
        255u8
    } else {
        (a + k) as u8
    }
}

/// How many of the hand's tiles of kinds below `n` the target uses.
pub open spec fn cover_upto(h: Seq<u8>, t: Seq<u8>, n: int) -> int
    decreases n,
{
    if n <= 0 {
        0
    } else {
        cover_upto(h, t, n - 1) + min_count(h[n - 1], t[n - 1])
    }
}

/// How many of the hand's tiles the target uses: the sum over kinds of the
/// smaller count.
pub open spec fn spec_cover(h: Seq<u8>, t: Seq<u8>) -> int {
    cover_upto(h, t, 34)
}

/// Sum of the counts of kinds below `n`.
pub open spec fn sum_upto(s: Seq<u8>, n: int) -> int
    decreases n,
{
    if n <= 0 {
        0
    } else {
        sum_upto(s, n - 1) + s[n - 1]
    }
}

pub proof fn lemma_sum_upto(s: Seq<u8>, n: int)
    requires
        0 <= n <= s.len(),
    ensures
        sum_upto(s, n) == seq_sum(s.subrange(0, n)),
        0 <= sum_upto(s, n) <= 255 * n,
    decreases n,
{
    if n > 0 {
        lemma_sum_upto(s, n - 1);
        assert(s.subrange(0, n).drop_last() =~= s.subrange(0, n - 1));
    } else {
        assert(s.subrange(0, 0).len() == 0);
    }
}

/// The total of a hand of 34 counts, as a prefix sum.
pub proof fn lemma_total(s: Seq<u8>)
    requires
        s.len() == 34,
    ensures
        seq_sum(s) == sum_upto(s, 34),
{
    lemma_sum_upto(s, 34);
    assert(s.subrange(0, 34) =~= s);
}

pub proof fn lemma_cover_bounds(h: Seq<u8>, t: Seq<u8>, n: int)
    requires
        0 <= n,
    ensures
        0 <= cover_upto(h, t, n) <= sum_upto(h, n),
        cover_upto(h, t, n) <= sum_upto(t, n),
        cover_upto(h, t, n) <= 255 * n,
    decreases n,
{
    if n > 0 {
        lemma_cover_bounds(h, t, n - 1);
    }
}

proof fn lemma_cover_upto_update(h: Seq<u8>, t: Seq<u8>, p: int, x: u8, n: int)
    requires
        0 <= p < t.len(),
        0 <= n <= t.len(),
    ensures
        cover_upto(h, t.update(p, x), n) == cover_upto(h, t, n) + if p < n {
            min_count(h[p], x) - min_count(h[p], t[p])
        } else {
            0
        },
    decreases n,
{
    if n > 0 {
        lemma_cover_upto_update(h, t, p, x, n - 1);
    }
}

/// Changing one count of the target changes the cover by the change of that
/// kind's smaller count.
pub proof fn lemma_cover_update(h: Seq<u8>, t: Seq<u8>, p: int, x: u8)
    requires
        t.len() == 34,
        0 <= p < 34,
    ensures
        spec_cover(h, t.update(p, x)) == spec_cover(h, t) - min_count(h[p], t[p]) + min_count(
            h[p],
            x,
        ),
{
    lemma_cover_upto_update(h, t, p, x, 34);
}

/// How many of the hand's tiles the target uses.
pub fn cover(hand: &Counts, target: &Counts) -> (r: u32)
    ensures
        r == spec_cover(hand@, target@),
{
    let mut r: u32 = 0;
    let mut t: usize = 0;
    while t < NUM_TILES
        invariant
            t <= 34,
            r == cover_upto(hand@, target@, t as int),
            r <= 255 * t,
        decreases 34 - t,
    {
        let a = hand[t];
        let b = target[t];
        r = r + if a <= b {
            a as u32
        } else {
            b as u32
        };
        t = t + 1;
    }
    r
}

/// How much the cover grows when `k` more copies of `t` join `cur`.
pub fn gain(hand: &Counts, cur: &Counts, t: usize, k: u8) -> (r: u32)
    requires
        t < 34,
    ensures
        r == min_count(hand@[t as int], sat_add(cur@[t as int], k)) - min_count(
            hand@[t as int],
            cur@[t as int],
        ),
{
    let h = hand[t];
    let c = cur[t];
    let c2 = c.saturating_add(k);
    let before: u32 = if h <= c {
        h as u32
    } else {
        c as u32
    };
    let after: u32 = if h <= c2 {
        h as u32
    } else {
        c2 as u32
    };
    after - before
}

/// `n` copies of tile `t`.
pub open spec fn copies(t: int, n: int) -> Seq<usize> {
    Seq::new(if n > 0 { n as nat } else { 0 }, |i: int| t as usize)
}

/// The tiles the hand has beyond the target, kinds below `n`, in tile order.
pub open spec fn excess_upto(h: Seq<u8>, t: Seq<u8>, n: int) -> Seq<usize>
    decreases n,
{
    if n <= 0 {
        Seq::empty()
    } else {
        excess_upto(h, t, n - 1) + copies(n - 1, h[n - 1] - t[n - 1])
    }
}

/// The tiles to discard: those the hand has beyond the target.
pub open spec fn spec_drop(h: Seq<u8>, t: Seq<u8>) -> Seq<usize> {
    excess_upto(h, t, 34)
}

/// The tiles to draw: those the target has beyond the hand.
pub open spec fn spec_need(h: Seq<u8>, t: Seq<u8>) -> Seq<usize> {
    excess_upto(t, h, 34)
}

/// The excess of `h` over `t` has as many tiles as `h` has beyond the cover.
pub proof fn lemma_excess_len(h: Seq<u8>, t: Seq<u8>, n: int)
    requires
        0 <= n,
    ensures
        excess_upto(h, t, n).len() == sum_upto(h, n) - cover_upto(h, t, n),
        cover_upto(h, t, n) == cover_upto(t, h, n),
    decreases n,
{
    if n > 0 {
        lemma_excess_len(h, t, n - 1);
    }
}

/// The excess of `h` over `t` lists kinds below `n` in tile order, each one
/// the hand holds more of than the target.
pub proof fn lemma_excess_order(h: Seq<u8>, t: Seq<u8>, n: int)
    requires
        0 <= n <= 34,
    ensures
        forall|i: int, j: int|
            0 <= i < j < excess_upto(h, t, n).len() ==> #[trigger] excess_upto(h, t, n)[i]
                <= #[trigger] excess_upto(h, t, n)[j],
        forall|i: int|
            0 <= i < excess_upto(h, t, n).len() ==> {
                let x = #[trigger] excess_upto(h, t, n)[i];
                &&& x < n
                &&& h[x as int] > t[x as int]
            },
    decreases n,
{
    if n > 0 {
        lemma_excess_order(h, t, n - 1);
        let a = excess_upto(h, t, n - 1);
        let c = copies(n - 1, h[n - 1] - t[n - 1]);
        let e = excess_upto(h, t, n);
        assert(e =~= a + c);
        assert forall|i: int| 0 <= i < e.len() implies {
            let x = #[trigger] e[i];
            &&& x < n
            &&& h[x as int] > t[x as int]
        } by {
            if i < a.len() {
                assert(e[i] == a[i]);
            } else {
                assert(e[i] == c[i - a.len()]);
                assert(c[i - a.len()] as int == n - 1);
            }
        }
        assert forall|i: int, j: int| 0 <= i < j < e.len() implies #[trigger] e[i] <= #[trigger] e[j] by {
            if j < a.len() {
                assert(e[i] == a[i] && e[j] == a[j]);
            } else if i < a.len() {
                assert(e[i] == a[i]);
                assert(e[j] == c[j - a.len()]);
                assert(c[j - a.len()] as int == n - 1);
            } else {
                assert(e[i] == c[i - a.len()]);
                assert(e[j] == c[j - a.len()]);
                assert(c[i - a.len()] == c[j - a.len()]);
            }
        }
    }
}

/// Appends `n` copies of `t`.
fn push_copies(v: &mut Vec<usize>, t: usize, n: u8)
    ensures
        final(v)@ == old(v)@ + copies(t as int, n as int),
{
    let mut i: u8 = 0;
    while i < n
        invariant
            i <= n,
            v@ == old(v)@ + copies(t as int, i as int),
        decreases n - i,
    {
        v.push(t);
        i = i + 1;
        assert(v@ =~= old(v)@ + copies(t as int, i as int));
    }
}

/// The tiles to draw and the tiles to discard to turn `hand` into `target`.
pub fn need_and_drop(hand: &Counts, target: &Counts) -> (r: (Vec<usize>, Vec<usize>))
    ensures
        r.0@ == spec_need(hand@, target@),
        r.1@ == spec_drop(hand@, target@),
{
    let mut need: Vec<usize> = Vec::new();
    let mut drop: Vec<usize> = Vec::new();
    let mut t: usize = 0;
    while t < NUM_TILES
        invariant
            t <= 34,
            need@ == excess_upto(target@, hand@, t as int),
            drop@ == excess_upto(hand@, target@, t as int),
        decreases 34 - t,
    {
        let h = hand[t];
        let g = target[t];
        push_copies(&mut drop, t, h.saturating_sub(g));
        push_copies(&mut need, t, g.saturating_sub(h));
        proof {
            assert(copies(t as int, h.saturating_sub(g) as int) =~= copies(t as int, h - g));
            assert(copies(t as int, g.saturating_sub(h) as int) =~= copies(t as int, g - h));
        }
        t = t + 1;
    }
    (need, drop)
}


pub proof fn lemma_sum_update(s: Seq<u8>, p: int, x: u8, n: int)
    requires
        0 <= p < s.len(),
        0 <= n <= s.len(),
    ensures
        sum_upto(s.update(p, x), n) == sum_upto(s, n) + if p < n {
            x - s[p]
        } else {
            0
        },
    decreases n,
{
    if n > 0 {
        lemma_sum_update(s, p, x, n - 1);
    }
}

} // verus!
