//! The seven pairs target covers as much of the hand as any seven pairs.
//!
//! Each pair of a target is a unit. A unit on a kind the hand holds twice
//! (or the second unit on a kind held four times) covers two tiles; a unit
//! on a single tile, or the second unit on a triplet, covers one; any other
//! covers none. The passes of the target take the units worth two first,
//! then those worth one, so no seven pairs covers more.
use vstd::prelude::*;
use crate::plan::shapes::{
    by_count, pass_pairs, pass_quads, pass_thirds, seven_pairs_target, tile_range,
};
use crate::plan::search::zeros;
use crate::plan::sums::{among, lemma_by_count_perm};
use crate::plan::target::{cover_upto, spec_cover, sum_upto};

verus! {

/// Units worth two that a kind held `h` times offers.
pub open spec fn twos(h: u8) -> int {
    (if h >= 2 {
        1int
    } else {
        0int
    }) + if h >= 4 {
        1int
    } else {
        0int
    }
}

/// Units worth one that a kind held `h` times offers.
pub open spec fn ones(h: u8) -> int {
    (if h == 1 {
        1int
    } else {
        0int
    }) + if h == 3 {
        1int
    } else {
        0int
    }
}

/// Units worth two that a target count `t` takes of a kind held `h` times.
pub open spec fn got_twos(h: u8, t: u8) -> int {
    (if t >= 2 && h >= 2 {
        1int
    } else {
        0int
    }) + if t >= 4 && h >= 4 {
        1int
    } else {
        0int
    }
}

/// Units worth one that a target count `t` takes of a kind held `h` times.
pub open spec fn got_ones(h: u8, t: u8) -> int {
    (if t >= 2 && h == 1 {
        1int
    } else {
        0int
    }) + if t >= 4 && h == 3 {
        1int
    } else {
        0int
    }
}

pub open spec fn twos_upto(h: Seq<u8>, n: int) -> int
    decreases n,
{
    if n <= 0 {
        0
    } else {
        twos_upto(h, n - 1) + twos(h[n - 1])
    }
}

pub open spec fn ones_upto(h: Seq<u8>, n: int) -> int
    decreases n,
{
    if n <= 0 {
        0
    } else {
        ones_upto(h, n - 1) + ones(h[n - 1])
    }
}

pub open spec fn got_twos_upto(h: Seq<u8>, t: Seq<u8>, n: int) -> int
    decreases n,
{
    if n <= 0 {
        0
    } else {
        got_twos_upto(h, t, n - 1) + got_twos(h[n - 1], t[n - 1])
    }
}

pub open spec fn got_ones_upto(h: Seq<u8>, t: Seq<u8>, n: int) -> int
    decreases n,
{
    if n <= 0 {
        0
    } else {
        got_ones_upto(h, t, n - 1) + got_ones(h[n - 1], t[n - 1])
    }
}

/// Seven pairs: fourteen tiles, no kind but none, one pair or two.
pub open spec fn seven_pairs_shape(t: Seq<u8>) -> bool {
    &&& t.len() == 34
    &&& sum_upto(t, 34) == 14
    &&& forall|x: int| 0 <= x < 34 ==> #[trigger] t[x] == 0 || t[x] == 2 || t[x] == 4
}

/// The most any seven pairs covers of the hand: seven units, those worth
/// two first.
pub open spec fn best_pairs_cover(h: Seq<u8>) -> int {
    let a = if twos_upto(h, 34) < 7 {
        twos_upto(h, 34)
    } else {
        7
    };
    let b = if ones_upto(h, 34) < 7 - a {
        ones_upto(h, 34)
    } else {
        7 - a
    };
    2 * a + b
}

proof fn lemma_units(h: Seq<u8>, t: Seq<u8>, n: int)
    requires
        0 <= n <= 34,
        t.len() == 34,
        forall|x: int| 0 <= x < 34 ==> #[trigger] t[x] == 0 || t[x] == 2 || t[x] == 4,
    ensures
        cover_upto(h, t, n) == 2 * got_twos_upto(h, t, n) + got_ones_upto(h, t, n),
        got_twos_upto(h, t, n) >= 0,
        got_ones_upto(h, t, n) >= 0,
        got_twos_upto(h, t, n) <= twos_upto(h, n),
        got_ones_upto(h, t, n) <= ones_upto(h, n),
        2 * (got_twos_upto(h, t, n) + got_ones_upto(h, t, n)) <= sum_upto(t, n),
        (forall|x: int| 0 <= x < n ==> got_twos(h[x], t[x]) == twos(h[x])) ==> got_twos_upto(h, t, n)
            == twos_upto(h, n),
        (forall|x: int| 0 <= x < n ==> got_ones(h[x], t[x]) == ones(h[x])) ==> got_ones_upto(h, t, n)
            == ones_upto(h, n),
        (forall|x: int| 0 <= x < n ==> 2 * (got_twos(h[x], t[x]) + got_ones(h[x], t[x])) == t[x])
            ==> 2 * (got_twos_upto(h, t, n) + got_ones_upto(h, t, n)) == sum_upto(t, n),
    decreases n,
{
    if n > 0 {
        lemma_units(h, t, n - 1);
        assert(t[n - 1] == 0 || t[n - 1] == 2 || t[n - 1] == 4);
    }
}

/// No seven pairs covers more than `best_pairs_cover`.
proof fn lemma_shape_bound(h: Seq<u8>, t: Seq<u8>)
    requires
        seven_pairs_shape(t),
    ensures
        spec_cover(h, t) <= best_pairs_cover(h),
{
    lemma_units(h, t, 34);
    let gt = got_twos_upto(h, t, 34);
    let go = got_ones_upto(h, t, 34);
    assert(spec_cover(h, t) == 2 * gt + go);
    assert(gt + go <= 7);
    let v2 = twos_upto(h, 34);
    let v1 = ones_upto(h, 34);
    assert(gt <= v2);
    assert(go <= v1);
    let a = if v2 < 7 {
        v2
    } else {
        7
    };
    let b = if v1 < 7 - a {
        v1
    } else {
        7 - a
    };
    assert(best_pairs_cover(h) == 2 * a + b);
    assert(gt <= a);
    assert(2 * gt + go <= 2 * a + b);
}

// ---------------------------------------------------------------------------
// What each pass does
// ---------------------------------------------------------------------------

proof fn lemma_quads_pass(h: Seq<u8>, xs: Seq<usize>, n: int, st: (Seq<u8>, int))
    requires
        st.0 == zeros(),
        0 <= n <= xs.len(),
        xs.no_duplicates(),
        forall|j: int| 0 <= j < xs.len() ==> #[trigger] xs[j] < 34,
    ensures
        ({
            let p = pass_quads(h, xs, n, st);
            &&& p.0.len() == 34
            &&& p.1 <= st.1
            &&& (st.1 >= 0 ==> p.1 >= 0)
            &&& forall|y: int| 0 <= y < 34 ==> #[trigger] p.0[y] == 0 || (p.0[y] == 4 && h[y] >= 4)
            &&& forall|y: int| 0 <= y < 34 && !among(xs, n, y) ==> #[trigger] p.0[y] == 0
            &&& forall|j: int| 0 <= j < n && h[(#[trigger] xs[j]) as int] >= 4 ==> p.0[xs[j] as int] == 4 || p.1 < 2
        }),
    decreases n,
{
    if n > 0 {
        lemma_quads_pass(h, xs, n - 1, st);
        let p = pass_quads(h, xs, n - 1, st);
        let q = pass_quads(h, xs, n, st);
        let x = xs[n - 1] as int;
        assert(!among(xs, n - 1, x)) by {
            if among(xs, n - 1, x) {
                let j = choose|j: int| 0 <= j < n - 1 && xs[j] as int == x;
                assert(xs[j] == xs[n - 1]);
            }
        }
        assert forall|y: int| 0 <= y < 34 && !among(xs, n, y) implies #[trigger] q.0[y] == 0 by {
            if among(xs, n - 1, y) {
                let j = choose|j: int| 0 <= j < n - 1 && xs[j] as int == y;
                assert(among(xs, n, y));
            }
            if y == x {
                assert(among(xs, n, y));
            }
        }
        assert forall|j: int| 0 <= j < n && h[(#[trigger] xs[j]) as int] >= 4 implies q.0[xs[j] as int] == 4
            || q.1 < 2 by {
            if j < n - 1 {
                if xs[j] as int != x {
                    assert(q.0[xs[j] as int] == p.0[xs[j] as int]);
                }
            }
        }
    }
}

proof fn lemma_pairs_pass(h: Seq<u8>, xs: Seq<usize>, n: int, st: (Seq<u8>, int), least: u8)
    requires
        st.0.len() == 34,
        st.1 >= 0,
        0 <= n <= xs.len(),
        forall|j: int| 0 <= j < xs.len() ==> #[trigger] xs[j] < 34,
    ensures
        ({
            let p = pass_pairs(h, xs, n, st, least);
            &&& p.0.len() == 34
            &&& p.1 <= st.1
            &&& (st.1 >= 0 ==> p.1 >= 0)
            &&& forall|y: int| 0 <= y < 34 && st.0[y] != 0 ==> #[trigger] p.0[y] == st.0[y]
            &&& forall|y: int|
                0 <= y < 34 && st.0[y] == 0 ==> #[trigger] p.0[y] == 0 || (p.0[y] == 2 && h[y] >= least
                    && p.1 < st.1)
            &&& forall|j: int| 0 <= j < n && h[(#[trigger] xs[j]) as int] >= least ==> p.0[xs[j] as int] != 0
                || p.1 == 0
        }),
    decreases n,
{
    if n > 0 {
        lemma_pairs_pass(h, xs, n - 1, st, least);
        let p = pass_pairs(h, xs, n - 1, st, least);
        let q = pass_pairs(h, xs, n, st, least);
        let x = xs[n - 1] as int;
        assert forall|y: int| 0 <= y < 34 && st.0[y] != 0 implies #[trigger] q.0[y] == st.0[y] by {
            assert(p.0[y] == st.0[y]);
        }
        assert forall|y: int| 0 <= y < 34 && st.0[y] == 0 implies #[trigger] q.0[y] == 0 || (q.0[y] == 2
            && h[y] >= least && q.1 < st.1) by {
            assert(p.0[y] == 0 || (p.0[y] == 2 && h[y] >= least && p.1 < st.1));
        }
        assert forall|j: int| 0 <= j < n && h[(#[trigger] xs[j]) as int] >= least implies q.0[xs[j] as int]
            != 0 || q.1 == 0 by {
            if j < n - 1 {
                assert(p.0[xs[j] as int] != 0 || p.1 == 0);
            }
        }
    }
}

proof fn lemma_thirds_pass(h: Seq<u8>, xs: Seq<usize>, n: int, st: (Seq<u8>, int))
    requires
        st.0.len() == 34,
        st.1 >= 0,
        0 <= n <= xs.len(),
        forall|j: int| 0 <= j < xs.len() ==> #[trigger] xs[j] < 34,
    ensures
        ({
            let p = pass_thirds(h, xs, n, st);
            &&& p.0.len() == 34
            &&& p.1 <= st.1
            &&& (st.1 >= 0 ==> p.1 >= 0)
            &&& forall|y: int|
                0 <= y < 34 ==> #[trigger] p.0[y] == st.0[y] || (st.0[y] == 2 && p.0[y] == 4 && h[y] == 3
                    && p.1 < st.1)
            &&& forall|j: int|
                0 <= j < n && h[(#[trigger] xs[j]) as int] == 3 && st.0[xs[j] as int] == 2 ==> p.0[xs[j] as int]
                    == 4 || p.1 == 0
        }),
    decreases n,
{
    if n > 0 {
        lemma_thirds_pass(h, xs, n - 1, st);
        let p = pass_thirds(h, xs, n - 1, st);
        let q = pass_thirds(h, xs, n, st);
        let x = xs[n - 1] as int;
        assert forall|y: int| 0 <= y < 34 implies #[trigger] q.0[y] == st.0[y] || (st.0[y] == 2 && q.0[y]
            == 4 && h[y] == 3 && q.1 < st.1) by {
            assert(p.0[y] == st.0[y] || (st.0[y] == 2 && p.0[y] == 4 && h[y] == 3 && p.1 < st.1));
        }
        assert forall|j: int|
            0 <= j < n && h[(#[trigger] xs[j]) as int] == 3 && st.0[xs[j] as int] == 2 implies q.0[xs[j] as int]
                == 4 || q.1 == 0 by {
            let y = xs[j] as int;
            assert(p.0[y] == st.0[y] || (st.0[y] == 2 && p.0[y] == 4 && h[y] == 3 && p.1 < st.1));
            if j < n - 1 {
                assert(p.0[y] == 4 || p.1 == 0);
            }
        }
    }
}

/// Every tile is in the order of the passes.
proof fn lemma_order_full(h: Seq<u8>)
    requires
        h.len() == 34,
    ensures
        by_count(h, tile_range(0, 34)).len() == 34,
        by_count(h, tile_range(0, 34)).no_duplicates(),
        forall|j: int| 0 <= j < 34 ==> #[trigger] by_count(h, tile_range(0, 34))[j] < 34,
        forall|y: int| 0 <= y < 34 ==> among(by_count(h, tile_range(0, 34)), 34, y),
{
    let r = tile_range(0, 34);
    let o = by_count(h, r);
    assert(r.no_duplicates());
    lemma_by_count_perm(h, r);
    assert forall|j: int| 0 <= j < 34 implies #[trigger] o[j] < 34 by {
        assert(o.contains(o[j]));
        assert(r.contains(o[j]));
    }
    assert forall|y: int| 0 <= y < 34 implies among(o, 34, y) by {
        assert(r[y] == y as usize);
        assert(r.contains(y as usize));
        assert(o.contains(y as usize));
        let j = choose|j: int| 0 <= j < o.len() && o[j] == y as usize;
        assert(o[j] as int == y);
    }
}

/// The seven pairs target is seven pairs covering as much of the hand as
/// any seven pairs does.
pub proof fn lemma_seven_pairs_best(h: Seq<u8>)
    requires
        h.len() == 34,
    ensures
        seven_pairs_shape(seven_pairs_target(h)),
        spec_cover(h, seven_pairs_target(h)) == best_pairs_cover(h),
{
    let o = by_count(h, tile_range(0, 34));
    lemma_order_full(h);
    let s0 = (zeros(), 7int);
    let s1 = pass_quads(h, o, 34, s0);
    lemma_quads_pass(h, o, 34, s0);
    let s2 = pass_pairs(h, o, 34, s1, 2);
    lemma_pairs_pass(h, o, 34, s1, 2);
    let s3 = pass_pairs(h, o, 34, s2, 1);
    lemma_pairs_pass(h, o, 34, s2, 1);
    let s4 = pass_thirds(h, o, 34, s3);
    lemma_thirds_pass(h, o, 34, s3);
    let r = tile_range(0, 34);
    assert forall|j: int| 0 <= j < r.len() implies #[trigger] r[j] < 34 by {}
    let s5 = pass_pairs(h, r, 34, s4, 0);
    lemma_pairs_pass(h, r, 34, s4, 0);
    let t = s5.0;
    assert(t == seven_pairs_target(h));
    crate::plan::shapes::lemma_seven_pairs_shape(h);
    // Values: at most two units a kind.
    assert forall|y: int| 0 <= y < 34 implies #[trigger] t[y] == 0 || t[y] == 2 || t[y] == 4 by {
        assert(s1.0[y] == 0 || s1.0[y] == 4);
        assert(s1.0[y] <= 255 && s2.0[y] <= 255 && s3.0[y] <= 255 && s4.0[y] <= 255 && t[y] <= 255);
    }
    lemma_units(h, t, 34);
    if s2.1 == 0 {
        // Seven units worth two each.
        assert forall|y: int| 0 <= y < 34 implies 2 * (got_twos(h[y], t[y]) + got_ones(h[y], t[y]))
            == t[y] && t[y] == s2.0[y] by {
            assert(s1.0[y] == 0 || (s1.0[y] == 4 && h[y] >= 4));
            assert(s1.0[y] <= 255 && s2.0[y] <= 255 && s3.0[y] <= 255 && s4.0[y] <= 255 && t[y] <= 255);
        }
        assert forall|y: int| 0 <= y < 34 implies got_ones(h[y], t[y]) == 0 by {
            assert(s1.0[y] == 0 || (s1.0[y] == 4 && h[y] >= 4));
            assert(s1.0[y] <= 255 && s2.0[y] <= 255 && s3.0[y] <= 255 && s4.0[y] <= 255 && t[y] <= 255);
        }
        assert(got_ones_upto(h, t, 34) == 0) by {
            lemma_zero_ones(h, t, 34);
        }
        assert(2 * got_twos_upto(h, t, 34) == sum_upto(t, 34));
        assert(sum_upto(t, 34) == 14);
        assert(spec_cover(h, t) == 14);
    } else {
        // Every unit worth two is taken.
        assert forall|y: int| 0 <= y < 34 implies got_twos(h[y], t[y]) == twos(h[y]) by {
            assert(among(o, 34, y));
            let j = choose|j: int| 0 <= j < 34 && o[j] as int == y;
            assert(o[j] as int == y);
            assert(s1.0[y] <= 255 && s2.0[y] <= 255 && s3.0[y] <= 255 && s4.0[y] <= 255 && t[y] <= 255);
            if h[y] >= 4 && s1.0[y] == 0 {
                assert(s2.0[y] != 0);
            }
        }
        if s4.1 == 0 {
            assert forall|y: int| 0 <= y < 34 implies 2 * (got_twos(h[y], t[y]) + got_ones(h[y], t[y]))
                == t[y] by {
                assert(s1.0[y] == 0 || (s1.0[y] == 4 && h[y] >= 4));
                assert(s1.0[y] <= 255 && s2.0[y] <= 255 && s3.0[y] <= 255 && s4.0[y] <= 255 && t[y] <= 255);
            }
        } else {
            assert forall|y: int| 0 <= y < 34 implies got_ones(h[y], t[y]) == ones(h[y]) by {
                assert(among(o, 34, y));
                let j = choose|j: int| 0 <= j < 34 && o[j] as int == y;
                assert(o[j] as int == y);
                assert(s1.0[y] <= 255 && s2.0[y] <= 255 && s3.0[y] <= 255 && s4.0[y] <= 255 && t[y] <= 255);
                if h[y] == 3 {
                    assert(s2.0[y] != 0);
                    assert(s1.0[y] == 0);
                    assert(s2.0[y] == 2);
                    assert(s3.0[y] == 2);
                }
                if h[y] == 1 {
                    assert(s3.0[y] != 0);
                }
            }
        }
    }
}

proof fn lemma_zero_ones(h: Seq<u8>, t: Seq<u8>, n: int)
    requires
        0 <= n <= 34,
        forall|y: int| 0 <= y < 34 ==> got_ones(h[y], t[y]) == 0,
    ensures
        got_ones_upto(h, t, n) == 0,
    decreases n,
{
    if n > 0 {
        lemma_zero_ones(h, t, n - 1);
    }
}

/// No seven pairs covers more of the hand than the seven pairs target.
pub proof fn lemma_seven_pairs_optimal(h: Seq<u8>, t: Seq<u8>)
    requires
        h.len() == 34,
        seven_pairs_shape(t),
    ensures
        spec_cover(h, t) <= spec_cover(h, seven_pairs_target(h)),
{
    lemma_shape_bound(h, t);
    lemma_seven_pairs_best(h);
}

/// The seven pairs search finds a target that covers as much of the hand
/// as any seven pairs.
pub proof fn lemma_seven_pairs_search_best(h: Seq<u8>, ms: Seq<crate::model::Meld>, t: Seq<u8>)
    requires
        h.len() == 34,
        seven_pairs_shape(t),
        crate::plan::shapes::spec_seven_pairs(h, ms) is Some,
    ensures
        (crate::plan::shapes::spec_seven_pairs(h, ms)->0).1 == seven_pairs_target(h),
        (crate::plan::shapes::spec_seven_pairs(h, ms)->0).0 == spec_cover(h, seven_pairs_target(h)),
        spec_cover(h, t) <= (crate::plan::shapes::spec_seven_pairs(h, ms)->0).0,
{
    crate::plan::target::lemma_cover_bounds(h, seven_pairs_target(h), 34);
    lemma_seven_pairs_optimal(h, t);
}

} // verus!
