//! The honors-and-knitted target covers as much of the hand as any
//! honors-and-knitted shape of its column choice.
//!
//! Each tile of such a shape is single, so it covers one tile of the hand
//! when the hand holds its kind. The target takes the honors held first and
//! then the knitted tiles held first, with as many honors as are held (at
//! least five, at most seven).
use vstd::prelude::*;
use crate::decompose::{spec_knit_tiles, spec_perm};
use crate::plan::search::zeros;
use crate::plan::shapes::{
    bu_kao_target, by_count, count_down_to, held_honors, honor_take, mark_first, min_int,
    tile_range, with_count,
};
use crate::plan::sums::{among, lemma_by_count_perm};
use crate::plan::target::{cover_upto, lemma_cover_update, spec_cover, sum_upto};

verus! {

/// Honors and knitted tiles for column choice `i`: fourteen single tiles,
/// each an honor or a knitted tile of that choice (all seven honors for
/// seven stars).
pub open spec fn bu_kao_shape(t: Seq<u8>, i: int, seven: bool) -> bool {
    &&& t.len() == 34
    &&& sum_upto(t, 34) == 14
    &&& forall|x: int| 0 <= x < 34 ==> #[trigger] t[x] <= 1
    &&& forall|x: int|
        0 <= x < 27 && #[trigger] t[x] == 1 ==> spec_knit_tiles(spec_perm(i)).contains(x as usize)
    &&& seven ==> forall|x: int| 27 <= x < 34 ==> #[trigger] t[x] == 1
}

/// How many kinds below `n` among `xs` the hand holds.
pub open spec fn held_count(h: Seq<u8>, xs: Seq<usize>, n: int) -> int
    decreases n,
{
    if n <= 0 {
        0
    } else {
        held_count(h, xs, n - 1) + if xs.contains((n - 1) as usize) && h[n - 1] >= 1 {
            1int
        } else {
            0int
        }
    }
}

/// The kinds below `n` among `xs` the hand holds.
pub open spec fn held_set(h: Seq<u8>, xs: Seq<usize>, n: int) -> Set<usize>
    decreases n,
{
    if n <= 0 {
        Set::empty()
    } else if xs.contains((n - 1) as usize) && h[n - 1] >= 1 {
        held_set(h, xs, n - 1).insert((n - 1) as usize)
    } else {
        held_set(h, xs, n - 1)
    }
}

proof fn lemma_held_set(h: Seq<u8>, xs: Seq<usize>, n: int)
    requires
        0 <= n <= 34,
    ensures
        held_set(h, xs, n).finite(),
        held_set(h, xs, n).len() == held_count(h, xs, n),
        forall|y: usize|
            #[trigger] held_set(h, xs, n).contains(y) <==> (y < n && xs.contains(y) && h[y as int] >= 1),
    decreases n,
{
    broadcast use vstd::set::group_set_axioms;

    if n > 0 {
        lemma_held_set(h, xs, n - 1);
        assert(!held_set(h, xs, n - 1).contains((n - 1) as usize));
    }
}

/// How many of the first `n` of `ys` the hand holds.
pub open spec fn pos_held(h: Seq<u8>, ys: Seq<usize>, n: int) -> int
    decreases n,
{
    if n <= 0 {
        0
    } else {
        pos_held(h, ys, n - 1) + if h[ys[n - 1] as int] >= 1 {
            1int
        } else {
            0int
        }
    }
}

/// Ordering by count puts the kinds held first: of the first `n`, as many
/// are held as `n` or as the hand holds among `xs`, whichever is fewer.
proof fn lemma_held_first(h: Seq<u8>, xs: Seq<usize>, n: int)
    requires
        h.len() == 34,
        xs.no_duplicates(),
        forall|j: int| 0 <= j < xs.len() ==> #[trigger] xs[j] < 34,
        0 <= n <= xs.len(),
    ensures
        pos_held(h, by_count(h, xs), n) == min_int(n, held_count(h, xs, 34)),
        held_count(h, xs, 34) <= xs.len(),
    decreases n,
{
    broadcast use vstd::set::group_set_axioms;

    let ys = by_count(h, xs);
    lemma_by_count_perm(h, xs);
    let a = count_down_to(h, xs, 1);
    let b = with_count(h, xs, 0, xs.len() as int);
    assert(ys == count_down_to(h, xs, 1) + with_count(h, xs, 0, xs.len() as int));
    crate::plan::sums::lemma_count_down_dup(h, xs, 1);
    crate::plan::sums::lemma_with_count_dup(h, xs, 0, xs.len() as int);
    assert(xs.subrange(0, xs.len() as int) =~= xs);
    lemma_held_set(h, xs, 34);
    assert(a.to_set() =~= held_set(h, xs, 34)) by {
        assert forall|y: usize| a.to_set().contains(y) <==> held_set(h, xs, 34).contains(y) by {
            if xs.contains(y) {
                let j = choose|j: int| 0 <= j < xs.len() && xs[j] == y;
                assert(y < 34);
            }
        }
    }
    a.unique_seq_to_set();
    assert(held_set(h, xs, 34).subset_of(xs.to_set())) by {
        assert forall|y: usize| held_set(h, xs, 34).contains(y) implies xs.to_set().contains(y) by {}
    }
    vstd::set_lib::lemma_len_subset(held_set(h, xs, 34), xs.to_set());
    xs.unique_seq_to_set();
    if n > 0 {
        lemma_held_first(h, xs, n - 1);
        let y = ys[n - 1];
        if n - 1 < a.len() {
            assert(y == a[n - 1]);
            assert(a.contains(y));
        } else {
            assert(y == b[n - 1 - a.len()]);
            assert(b.contains(y));
        }
    }
}

/// Marking distinct tiles not in the target adds the held ones to the
/// cover.
proof fn lemma_mark_cover(h: Seq<u8>, t: Seq<u8>, xs: Seq<usize>, n: int)
    requires
        t.len() == 34,
        0 <= n <= xs.len(),
        forall|j: int| 0 <= j < n ==> #[trigger] xs[j] < 34,
        forall|a: int, b: int| 0 <= a < b < n ==> xs[a] != xs[b],
        forall|j: int| 0 <= j < n ==> t[#[trigger] xs[j] as int] == 0,
    ensures
        spec_cover(h, mark_first(t, xs, n)) == spec_cover(h, t) + pos_held(h, xs, n),
        mark_first(t, xs, n).len() == 34,
        forall|y: int| 0 <= y < 34 && !among(xs, n, y) ==> #[trigger] mark_first(t, xs, n)[y] == t[y],
    decreases n,
{
    if n > 0 {
        lemma_mark_cover(h, t, xs, n - 1);
        let m = mark_first(t, xs, n - 1);
        let x = xs[n - 1] as int;
        assert(!among(xs, n - 1, x));
        lemma_cover_update(h, m, x, 1u8);
        assert forall|y: int| 0 <= y < 34 && !among(xs, n, y) implies #[trigger] mark_first(t, xs, n)[y]
            == t[y] by {
            if among(xs, n - 1, y) {
                let j = choose|j: int| 0 <= j < n - 1 && xs[j] as int == y;
                assert(among(xs, n, y));
            }
            if y == x {
                assert(among(xs, n, y));
            }
        }
    }
}

proof fn lemma_low_bound(h: Seq<u8>, t: Seq<u8>, kt: Seq<usize>, n: int)
    requires
        0 <= n <= 27,
        t.len() == 34,
        forall|x: int| 0 <= x < 34 ==> #[trigger] t[x] <= 1,
        forall|x: int| 0 <= x < 27 && #[trigger] t[x] == 1 ==> kt.contains(x as usize),
    ensures
        cover_upto(h, t, n) <= held_count(h, kt, n),
        cover_upto(h, t, n) <= sum_upto(t, n),
    decreases n,
{
    if n > 0 {
        lemma_low_bound(h, t, kt, n - 1);
        assert(t[n - 1] <= 1);
    }
}

proof fn lemma_high_bound(h: Seq<u8>, t: Seq<u8>, n: int)
    requires
        27 <= n <= 34,
        t.len() == 34,
        forall|x: int| 0 <= x < 34 ==> #[trigger] t[x] <= 1,
    ensures
        cover_upto(h, t, n) - cover_upto(h, t, 27) <= held_count(h, tile_range(27, 34), n) - held_count(
            h,
            tile_range(27, 34),
            27,
        ),
        cover_upto(h, t, n) - cover_upto(h, t, 27) <= sum_upto(t, n) - sum_upto(t, 27),
        0 <= sum_upto(t, n) - sum_upto(t, 27) <= n - 27,
        (forall|x: int| 27 <= x < 34 ==> #[trigger] t[x] == 1) ==> sum_upto(t, n) - sum_upto(t, 27) == n
            - 27,
    decreases n,
{
    if n > 27 {
        lemma_high_bound(h, t, n - 1);
        assert(t[n - 1] <= 1);
        assert(tile_range(27, 34)[n - 1 - 27] == (n - 1) as usize);
    }
}

proof fn lemma_held_outside(h: Seq<u8>, xs: Seq<usize>, lo: int, hi: int, n: int)
    requires
        0 <= n <= 34,
        forall|j: int| 0 <= j < xs.len() ==> lo <= #[trigger] xs[j] < hi,
    ensures
        n <= lo ==> held_count(h, xs, n) == 0,
        n >= hi ==> held_count(h, xs, n) == held_count(h, xs, hi),
    decreases n,
{
    if n > 0 {
        lemma_held_outside(h, xs, lo, hi, n - 1);
        if xs.contains((n - 1) as usize) {
            let j = choose|j: int| 0 <= j < xs.len() && xs[j] == (n - 1) as usize;
        }
    }
}

proof fn lemma_honors_count(h: Seq<u8>, n: int)
    requires
        0 <= n <= 7,
    ensures
        held_count(h, tile_range(27, 34), 27 + n) == held_honors(h, n),
    decreases n,
{
    lemma_held_outside(h, tile_range(27, 34), 27, 34, 27);
    if n > 0 {
        lemma_honors_count(h, n - 1);
        assert(tile_range(27, 34)[n - 1] == (27 + n - 1) as usize);
    }
}

/// No honors-and-knitted shape of column choice `i` covers more of the hand
/// than the target for that choice.
pub proof fn lemma_bu_kao_optimal(h: Seq<u8>, i: int, seven: bool, t: Seq<u8>)
    requires
        h.len() == 34,
        bu_kao_shape(t, i, seven),
    ensures
        spec_cover(h, t) <= spec_cover(h, bu_kao_target(h, i, seven)),
{
    let hr = tile_range(27, 34);
    let kt = spec_knit_tiles(spec_perm(i));
    crate::plan::sums::lemma_knit_distinct(i);
    assert(hr.no_duplicates());
    assert(kt.no_duplicates());
    assert forall|j: int| 0 <= j < hr.len() implies 27 <= #[trigger] hr[j] < 34 by {}
    assert forall|j: int| 0 <= j < kt.len() implies 0 <= #[trigger] kt[j] < 27 by {}
    let hh = held_count(h, hr, 34);
    let kk = held_count(h, kt, 34);
    // Any shape: the knitted part covers at most the knitted kinds held, the
    // honors part at most the honors held.
    lemma_low_bound(h, t, kt, 27);
    lemma_high_bound(h, t, 34);
    lemma_held_outside(h, hr, 27, 34, 27);
    lemma_held_outside(h, kt, 0, 27, 34);
    let m = sum_upto(t, 34) - sum_upto(t, 27);
    assert(spec_cover(h, t) <= min_int(14 - m, kk) + min_int(m, hh));
    // The target.
    let take = honor_take(h, seven);
    lemma_honors_count(h, 7);
    assert(0 <= held_honors(h, 7) <= 7) by {
        crate::plan::sums::lemma_held_honors(h, 7);
    }
    let hs = by_count(h, hr);
    let ks = by_count(h, kt);
    lemma_by_count_perm(h, hr);
    lemma_by_count_perm(h, kt);
    lemma_held_first(h, hr, 7);
    lemma_held_first(h, kt, 14 - take);
    assert(hs.len() == 7 && ks.len() == 9);
    assert forall|j: int| 0 <= j < 7 implies 27 <= #[trigger] hs[j] < 34 by {
        assert(hs.contains(hs[j]));
        assert(hr.contains(hs[j]));
    }
    assert forall|j: int| 0 <= j < 9 implies #[trigger] ks[j] < 27 by {
        assert(ks.contains(ks[j]));
        assert(kt.contains(ks[j]));
    }
    lemma_held_first(h, hr, take);
    crate::plan::search::lemma_cover_zeros(h, 34);
    lemma_mark_cover(h, zeros(), hs, take);
    let t1 = mark_first(zeros(), hs, take);
    assert forall|j: int| 0 <= j < 14 - take implies t1[#[trigger] ks[j] as int] == 0 by {
        if among(hs, take, ks[j] as int) {
            let k = choose|k: int| 0 <= k < take && hs[k] as int == ks[j] as int;
            assert(27 <= hs[k]);
        }
    }
    lemma_mark_cover(h, t1, ks, 14 - take);
    assert(bu_kao_target(h, i, seven) == mark_first(t1, ks, 14 - take));
    assert(spec_cover(h, bu_kao_target(h, i, seven)) == min_int(take, hh) + min_int(14 - take, kk));
    assert(hh == held_honors(h, 7));
    assert(kk <= 9);
    if seven {
        assert(m == 7);
    }
}

/// The honors-and-knitted search finds a target that covers as much of the
/// hand as any honors-and-knitted shape, over every column choice.
pub proof fn lemma_bu_kao_search_best(
    h: Seq<u8>,
    ms: Seq<crate::model::Meld>,
    seven: bool,
    i: int,
    t: Seq<u8>,
)
    requires
        h.len() == 34,
        0 <= i < 6,
        bu_kao_shape(t, i, seven),
        crate::plan::shapes::spec_bu_kao(h, ms, seven) is Some,
    ensures
        spec_cover(h, t) <= (crate::plan::shapes::spec_bu_kao(h, ms, seven)->0).0,
{
    let ts = crate::plan::shapes::bu_kao_targets(h, seven);
    crate::plan::search::lemma_pick_best(h, ts);
    assert(ts[i] == bu_kao_target(h, i, seven));
    lemma_bu_kao_optimal(h, i, seven, t);
}

} // verus!
