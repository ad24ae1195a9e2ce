//! How many tiles each kind of target holds: fourteen for a concealed hand,
//! three fewer for each meld.
use vstd::prelude::*;
use crate::decompose::{spec_knit_tiles, spec_perm};
use crate::plan::search::{add_set, lemma_add_set_sum, room, zeros};
use crate::plan::shapes::{
    bu_kao_target, by_count, count_down_to, first_orphan_pair, honor_take, held_honors,
    is_orphan_tile, mark_first, min_int, nine_gates_target, orphan, orphans_target,
    straight_target, tile_range, with_count, zl_set, zl_set_count, zl_target,
};
use crate::plan::target::{lemma_sum_update, lemma_total, sat_add, spec_cover, sum_upto};
use crate::plan::scan::{entry, fam_len, families, pungs, search_result, Family, Search};
use crate::plan::search::{lemma_need_one_more, lemma_pick_best};
use crate::plan::shapes::{bu_kao_targets, lemma_seven_pairs_shape, straight_targets, zl_targets};
use crate::model::Meld;
use crate::tiles::seq_sum;

verus! {

// ---------------------------------------------------------------------------
// Fixed shapes
// ---------------------------------------------------------------------------

proof fn lemma_straight_sum(s: int, n: int, m: int)
    requires
        0 <= s < 3,
        1 <= n <= 3,
        0 <= m <= 34,
    ensures
        sum_upto(straight_target(s, n), m) == if m <= s * 9 + n - 1 {
            0
        } else if m >= s * 9 + n + 6 {
            14
        } else {
            2 * (m - (s * 9 + n - 1))
        },
    decreases m,
{
    if m > 0 {
        lemma_straight_sum(s, n, m - 1);
    }
}

/// Seven shifted pairs hold fourteen tiles.
pub proof fn lemma_straight_total(s: int, n: int)
    requires
        0 <= s < 3,
        1 <= n <= 3,
    ensures
        sum_upto(straight_target(s, n), 34) == 14,
        straight_target(s, n).len() == 34,
{
    lemma_straight_sum(s, n, 34);
}

proof fn lemma_nine_sum(s: int, x: int, m: int)
    requires
        0 <= s < 3,
        1 <= x <= 9,
        0 <= m <= 34,
    ensures
        sum_upto(nine_gates_target(s, x), m) == if m <= s * 9 {
            0
        } else if m >= s * 9 + 9 {
            14
        } else {
            (m - s * 9) + 2 + if m - s * 9 >= x {
                1int
            } else {
                0int
            }
        },
    decreases m,
{
    if m > 0 {
        lemma_nine_sum(s, x, m - 1);
    }
}

/// Nine gates with its extra tile hold fourteen tiles.
pub proof fn lemma_nine_total(s: int, x: int)
    requires
        0 <= s < 3,
        1 <= x <= 9,
    ensures
        sum_upto(nine_gates_target(s, x), 34) == 14,
        nine_gates_target(s, x).len() == 34,
{
    lemma_nine_sum(s, x, 34);
}

/// How many terminal and honor kinds lie below `n`.
pub open spec fn orphan_slots(n: int) -> int
    decreases n,
{
    if n <= 0 {
        0
    } else {
        orphan_slots(n - 1) + if is_orphan_tile(n - 1) {
            1int
        } else {
            0int
        }
    }
}

proof fn lemma_orphans_sum(h: Seq<u8>, p: int, m: int)
    requires
        0 <= m <= 34,
        0 <= p < 34,
        is_orphan_tile(p),
        p == (if first_orphan_pair(h, 13) < 13 {
            orphan(first_orphan_pair(h, 13))
        } else {
            orphan(0)
        }),
    ensures
        sum_upto(orphans_target(h), m) == orphan_slots(m) + if p < m {
            1int
        } else {
            0int
        },
    decreases m,
{
    if m > 0 {
        lemma_orphans_sum(h, p, m - 1);
        assert(orphans_target(h)[m - 1] == if m - 1 == p {
            2u8
        } else if is_orphan_tile(m - 1) {
            1u8
        } else {
            0u8
        });
    }
}

/// Thirteen orphans hold fourteen tiles.
pub proof fn lemma_orphans_total(h: Seq<u8>)
    ensures
        sum_upto(orphans_target(h), 34) == 14,
        orphans_target(h).len() == 34,
{
    crate::plan::shapes::lemma_first_orphan_pair(h, 13);
    let f = first_orphan_pair(h, 13);
    let p = if f < 13 {
        orphan(f)
    } else {
        orphan(0)
    };
    assert(is_orphan_tile(p) && 0 <= p < 34) by {
        if f < 6 {
            assert(0 <= f / 2 < 3);
            assert(f % 2 == 0 || f % 2 == 1);
        }
    }
    assert(orphan_slots(34) == 13) by {
        reveal_with_fuel(orphan_slots, 35);
    }
    lemma_orphans_sum(h, p, 34);
}

// ---------------------------------------------------------------------------
// Marking single tiles
// ---------------------------------------------------------------------------

/// Whether `y` is among the first `n` elements of `xs`.
pub open spec fn among(xs: Seq<usize>, n: int, y: int) -> bool {
    exists|j: int| 0 <= j < n && xs[j] as int == y
}

/// Marking distinct tiles not yet in `t` adds one tile each and touches no
/// other kind.
proof fn lemma_mark_sum(t: Seq<u8>, xs: Seq<usize>, n: int)
    requires
        t.len() == 34,
        0 <= n <= xs.len(),
        forall|j: int| 0 <= j < n ==> #[trigger] xs[j] < 34,
        forall|a: int, b: int| 0 <= a < b < n ==> xs[a] != xs[b],
        forall|j: int| 0 <= j < n ==> t[#[trigger] xs[j] as int] == 0,
    ensures
        mark_first(t, xs, n).len() == 34,
        sum_upto(mark_first(t, xs, n), 34) == sum_upto(t, 34) + n,
        forall|y: int| 0 <= y < 34 && !among(xs, n, y) ==> #[trigger] mark_first(t, xs, n)[y] == t[y],
        forall|y: int| 0 <= y < 34 ==> #[trigger] mark_first(t, xs, n)[y] <= if t[y] <= 1 {
            1
        } else {
            t[y] as int
        },
    decreases n,
{
    if n > 0 {
        lemma_mark_sum(t, xs, n - 1);
        let m = mark_first(t, xs, n - 1);
        let x = xs[n - 1] as int;
        assert(!among(xs, n - 1, x));
        lemma_sum_update(m, x, 1u8, 34);
        assert forall|y: int| 0 <= y < 34 && !among(xs, n, y) implies #[trigger] mark_first(t, xs, n)[y] == t[y] by {
            if among(xs, n - 1, y) {
                let j = choose|j: int| 0 <= j < n - 1 && xs[j] as int == y;
                assert(among(xs, n, y));
            }
            if y == x {
                assert(among(xs, n, y));
            }
        }
    }
}

/// The nine knitted tiles of a column choice are distinct suited tiles.
pub proof fn lemma_knit_distinct(i: int)
    ensures
        spec_knit_tiles(spec_perm(i)).len() == 9,
        forall|j: int| 0 <= j < 9 ==> #[trigger] spec_knit_tiles(spec_perm(i))[j] < 27,
        forall|a: int, b: int| 0 <= a < b < 9 ==> spec_knit_tiles(spec_perm(i))[a] != spec_knit_tiles(
            spec_perm(i),
        )[b],
{
    let p = spec_perm(i);
    let k = spec_knit_tiles(p);
    assert(forall|s: int| 0 <= s < 3 ==> 0 <= #[trigger] p[s] < 3);
    assert forall|j: int| 0 <= j < 9 implies #[trigger] k[j] < 27 && k[j] as int == (j / 3) * 9 + p[j / 3]
        + 3 * (j % 3) by {
        assert(0 <= j / 3 < 3);
        assert(0 <= p[j / 3] < 3);
    }
    assert forall|a: int, b: int| 0 <= a < b < 9 implies k[a] != k[b] by {
        assert(0 <= a / 3 < 3 && 0 <= b / 3 < 3);
        assert(0 <= p[a / 3] < 3 && 0 <= p[b / 3] < 3);
        assert(k[a] as int == (a / 3) * 9 + p[a / 3] + 3 * (a % 3));
        assert(k[b] as int == (b / 3) * 9 + p[b / 3] + 3 * (b % 3));
    }
}

/// A knitted straight holds fourteen tiles, eleven beside a meld.
pub proof fn lemma_knitted_total(i: int, melded: bool, j: int, p: int)
    requires
        0 <= j < zl_set_count(melded),
        0 <= p < 34,
    ensures
        zl_target(i, melded, j, p).len() == 34,
        sum_upto(zl_target(i, melded, j, p), 34) == if melded {
            11int
        } else {
            14int
        },
{
    let k = spec_knit_tiles(spec_perm(i));
    lemma_knit_distinct(i);
    assert(sum_upto(zeros(), 34) == 0) by {
        lemma_zeros_sum(34);
    }
    lemma_mark_sum(zeros(), k, 9);
    let base = mark_first(zeros(), k, 9);
    let with_set = if melded {
        base
    } else {
        add_set(base, zl_set(j))
    };
    if !melded {
        assert(room(base, 1));
        let zs = zl_set(j);
        assert(zs.len() == 3 && zs[0] < 34 && zs[1] < 34 && zs[2] < 34) by {
            if j >= 34 {
                let kk = j - 34;
                assert(0 <= kk / 7 < 3);
                assert(0 <= kk % 7 < 7);
            }
        }
        lemma_add_set_sum(base, zs, 1);
        crate::plan::search::lemma_add_set(base, base, zs, 1);
    }
    assert(with_set.len() == 34);
    assert(with_set[p] + 2 <= 255) by {
        if !melded {
            crate::plan::search::lemma_add_set(base, base, zl_set(j), 1);
        }
    }
    lemma_sum_update(with_set, p, sat_add(with_set[p], 2), 34);
}

proof fn lemma_zeros_sum(n: int)
    requires
        0 <= n <= 34,
    ensures
        sum_upto(zeros(), n) == 0,
    decreases n,
{
    if n > 0 {
        lemma_zeros_sum(n - 1);
    }
}

// ---------------------------------------------------------------------------
// Orders by count keep every element once
// ---------------------------------------------------------------------------

pub proof fn lemma_with_count_dup(h: Seq<u8>, xs: Seq<usize>, v: int, n: int)
    requires
        0 <= n <= xs.len(),
        xs.no_duplicates(),
    ensures
        with_count(h, xs, v, n).no_duplicates(),
        forall|y: usize|
            #[trigger] with_count(h, xs, v, n).contains(y) <==> (xs.subrange(0, n).contains(y)
                && h[y as int] == v),
    decreases n,
{
    if n > 0 {
        lemma_with_count_dup(h, xs, v, n - 1);
        let a = with_count(h, xs, v, n - 1);
        let x = xs[n - 1];
        assert(xs.subrange(0, n) =~= xs.subrange(0, n - 1).push(x));
        assert(!xs.subrange(0, n - 1).contains(x)) by {
            if xs.subrange(0, n - 1).contains(x) {
                let j = choose|j: int| 0 <= j < n - 1 && #[trigger] xs.subrange(0, n - 1)[j] == x;
                assert(xs[j] == xs[n - 1]);
            }
        }
        if h[x as int] == v {
            let b = a + seq![x];
            assert(b =~= a.push(x));
            assert(!a.contains(x));
            assert forall|y: usize| #[trigger] b.contains(y) <==> (xs.subrange(0, n).contains(y)
                && h[y as int] == v) by {
                if b.contains(y) {
                    let j = choose|j: int| 0 <= j < b.len() && b[j] == y;
                    if j < a.len() {
                        assert(a[j] == y);
                        assert(a.contains(y));
                    } else {
                        assert(y == x);
                        assert(xs.subrange(0, n)[n - 1] == x);
                    }
                }
                if xs.subrange(0, n).contains(y) && h[y as int] == v {
                    if y != x {
                        let j = choose|j: int| 0 <= j < n && #[trigger] xs.subrange(0, n)[j] == y;
                        assert(xs.subrange(0, n - 1)[j] == y);
                        assert(a.contains(y));
                        let k = choose|k: int| 0 <= k < a.len() && a[k] == y;
                        assert(b[k] == y);
                    } else {
                        assert(b[a.len() as int] == y);
                    }
                }
            }
            assert forall|i: int, j: int| 0 <= i < b.len() && 0 <= j < b.len() && i != j implies b[i]
                != b[j] by {
                if i < a.len() && j == a.len() {
                    assert(a.contains(a[i]));
                } else if j < a.len() && i == a.len() {
                    assert(a.contains(a[j]));
                }
            }
        } else {
            let b = a + Seq::<usize>::empty();
            assert(b =~= a);
            assert forall|y: usize| #[trigger] b.contains(y) <==> (xs.subrange(0, n).contains(y)
                && h[y as int] == v) by {
                if xs.subrange(0, n).contains(y) && h[y as int] == v {
                    let j = choose|j: int| 0 <= j < n && #[trigger] xs.subrange(0, n)[j] == y;
                    assert(j != n - 1);
                    assert(xs.subrange(0, n - 1)[j] == y);
                }
            }
        }
    }
}

pub proof fn lemma_count_down_dup(h: Seq<u8>, xs: Seq<usize>, v: int)
    requires
        0 <= v <= 256,
        xs.no_duplicates(),
        forall|j: int| 0 <= j < xs.len() ==> #[trigger] xs[j] < h.len(),
    ensures
        count_down_to(h, xs, v).no_duplicates(),
        forall|y: usize|
            #[trigger] count_down_to(h, xs, v).contains(y) <==> (xs.contains(y) && h[y as int] >= v),
    decreases 256 - v,
{
    if v < 256 {
        lemma_count_down_dup(h, xs, v + 1);
        lemma_with_count_dup(h, xs, v, xs.len() as int);
        assert(xs.subrange(0, xs.len() as int) =~= xs);
        let a = count_down_to(h, xs, v + 1);
        let b = with_count(h, xs, v, xs.len() as int);
        let c = a + b;
        assert forall|y: usize| #[trigger] c.contains(y) <==> (xs.contains(y) && h[y as int] >= v) by {
            if c.contains(y) {
                let j = choose|j: int| 0 <= j < c.len() && c[j] == y;
                if j < a.len() {
                    assert(a[j] == y);
                    assert(a.contains(y));
                } else {
                    assert(b[j - a.len()] == y);
                    assert(b.contains(y));
                }
            }
            if xs.contains(y) && h[y as int] >= v {
                if h[y as int] > v {
                    assert(a.contains(y));
                    let j = choose|j: int| 0 <= j < a.len() && a[j] == y;
                    assert(c[j] == y);
                } else {
                    assert(b.contains(y));
                    let j = choose|j: int| 0 <= j < b.len() && b[j] == y;
                    assert(c[j + a.len()] == y);
                }
            }
        }
        assert forall|i: int, j: int| 0 <= i < c.len() && 0 <= j < c.len() && i != j implies c[i]
            != c[j] by {
            if i < a.len() && j >= a.len() {
                assert(a.contains(c[i]));
                assert(b.contains(c[j]));
            } else if j < a.len() && i >= a.len() {
                assert(a.contains(c[j]));
                assert(b.contains(c[i]));
            } else if i >= a.len() && j >= a.len() {
                assert(c[i] == b[i - a.len()]);
                assert(c[j] == b[j - a.len()]);
            }
        }
    } else {
        assert forall|y: usize| #[trigger] count_down_to(h, xs, v).contains(y) <==> (xs.contains(y)
            && h[y as int] >= v) by {
            if xs.contains(y) {
                let j = choose|j: int| 0 <= j < xs.len() && xs[j] == y;
                assert(h[y as int] <= 255);
            }
        }
    }
}

/// Ordering distinct tiles by how many are held keeps each exactly once.
pub proof fn lemma_by_count_perm(h: Seq<u8>, xs: Seq<usize>)
    requires
        xs.no_duplicates(),
        forall|j: int| 0 <= j < xs.len() ==> #[trigger] xs[j] < h.len(),
    ensures
        by_count(h, xs).no_duplicates(),
        by_count(h, xs).len() == xs.len(),
        forall|y: usize| #[trigger] by_count(h, xs).contains(y) <==> xs.contains(y),
{
    let b = by_count(h, xs);
    lemma_count_down_dup(h, xs, 0);
    assert(b.to_set() =~= xs.to_set());
    b.unique_seq_to_set();
    xs.unique_seq_to_set();
}

/// Honors and knitted tiles: fourteen single tiles.
pub proof fn lemma_bu_kao_total(h: Seq<u8>, i: int, seven: bool)
    requires
        h.len() == 34,
    ensures
        bu_kao_target(h, i, seven).len() == 34,
        sum_upto(bu_kao_target(h, i, seven), 34) == 14,
{
    let take = honor_take(h, seven);
    let hr = tile_range(27, 34);
    let kt = spec_knit_tiles(spec_perm(i));
    lemma_knit_distinct(i);
    assert(hr.no_duplicates());
    assert(kt.no_duplicates());
    lemma_by_count_perm(h, hr);
    lemma_by_count_perm(h, kt);
    let hs = by_count(h, hr);
    let ks = by_count(h, kt);
    assert(0 <= held_honors(h, 7) <= 7) by {
        lemma_held_honors(h, 7);
    }
    assert(5 <= take <= 7);
    assert forall|j: int| 0 <= j < hs.len() implies 27 <= #[trigger] hs[j] < 34 by {
        assert(hs.contains(hs[j]));
        assert(hr.contains(hs[j]));
    }
    assert forall|j: int| 0 <= j < ks.len() implies #[trigger] ks[j] < 27 by {
        assert(ks.contains(ks[j]));
        assert(kt.contains(ks[j]));
    }
    assert(sum_upto(zeros(), 34) == 0) by {
        lemma_zeros_sum(34);
    }
    let nh = min_int(take, hs.len() as int);
    lemma_mark_sum(zeros(), hs, nh);
    let t1 = mark_first(zeros(), hs, nh);
    assert forall|j: int| 0 <= j < 14 - take implies t1[#[trigger] ks[j] as int] == 0 by {
        if among(hs, nh, ks[j] as int) {
            let k = choose|k: int| 0 <= k < nh && hs[k] as int == ks[j] as int;
            assert(27 <= hs[k]);
        }
    }
    lemma_mark_sum(t1, ks, min_int(14 - take, ks.len() as int));
}

pub proof fn lemma_held_honors(h: Seq<u8>, n: int)
    requires
        0 <= n,
    ensures
        0 <= held_honors(h, n) <= n,
    decreases n,
{
    if n > 0 {
        lemma_held_honors(h, n - 1);
    }
}

// ---------------------------------------------------------------------------
// Every search
// ---------------------------------------------------------------------------

/// A search result whose target holds fourteen tiles less three per meld.
pub open spec fn sized(ms: Seq<Meld>, r: Option<(u32, Seq<u8>)>) -> bool {
    r matches Some(b) ==> b.1.len() == 34 && sum_upto(b.1, 34) == 14 - 3 * ms.len()
}

/// Nine gates only without melds, the knitted straight beside at most one.
pub open spec fn fam_allowed(f: Family, ms: Seq<Meld>) -> bool {
    &&& f == Family::NineGates ==> ms.len() == 0
    &&& f == Family::KnittedStraight ==> ms.len() <= 1
}

/// Every family tried is allowed beside the melds.
pub proof fn lemma_families_allowed(ms: Seq<Meld>)
    ensures
        forall|k: int| 0 <= k < families(ms).len() ==> fam_allowed(#[trigger] families(ms)[k], ms),
{
    let fs = families(ms);
    let head = seq![Family::Flush, Family::Restricted];
    let mid = seq![
        Family::PureStraight,
        Family::MixedStraight,
        Family::PureShiftedChows,
        Family::MixedShiftedChows,
        Family::PureTripleChow,
        Family::MixedTripleChow,
        Family::PureShiftedPungs,
        Family::MixedShiftedPungs,
        Family::QuadrupleChow,
        Family::FourPureShiftedPungs,
        Family::FourPureShiftedChows,
        Family::PureTerminalChows,
        Family::ThreeSuitedTerminalChows,
    ];
    let nine = if ms.len() == 0 {
        seq![Family::NineGates]
    } else {
        Seq::empty()
    };
    let knit = if ms.len() <= 1 {
        seq![Family::KnittedStraight]
    } else {
        Seq::empty()
    };
    let tail = seq![
        Family::SevenPairs,
        Family::SevenShiftedPairs,
        Family::ThirteenOrphans,
        Family::HonorsAndKnitted,
        Family::SevenStars,
    ];
    let body = if pungs(ms) < 2 {
        mid + nine + knit
    } else {
        Seq::empty()
    };
    assert(fs =~= head + body + tail);
    assert forall|k: int| 0 <= k < fs.len() implies fam_allowed(#[trigger] fs[k], ms) by {
        let x = fs[k];
        if k < 2 {
            assert(x == head[k]);
        } else if k < 2 + body.len() {
            assert(x == body[k - 2]);
            if pungs(ms) < 2 {
                let q = k - 2;
                if q < 13 {
                    assert(body[q] == mid[q]);
                } else if q < 13 + nine.len() {
                    assert(body[q] == nine[q - 13]);
                } else {
                    assert(body[q] == knit[q - 13 - nine.len()]);
                }
            }
        } else {
            assert(x == tail[k - 2 - body.len()]);
        }
    }
}

proof fn lemma_entry_special(f: Family, j: int)
    ensures
        entry(f, j).search is Nine ==> f == Family::NineGates && entry(f, j).search == Search::Nine(
            j / 9,
            j % 9 + 1,
        ),
        entry(f, j).search is Knitted ==> f == Family::KnittedStraight,
{
    reveal(entry);
}

/// The target of every pattern tried holds fourteen tiles less three per
/// meld.
pub proof fn lemma_search_sized(h: Seq<u8>, ms: Seq<Meld>, f: Family, j: int)
    requires
        h.len() == 34,
        ms.len() <= 4,
        fam_allowed(f, ms),
        0 <= j < fam_len(f),
    ensures
        sized(ms, search_result(h, ms, entry(f, j).search)),
{
    let x = entry(f, j).search;
    lemma_entry_special(f, j);
    let r = search_result(h, ms, x);
    match x {
        Search::Standard(fl, runs, five) => {
            lemma_need_one_more(h, ms, fl, runs, five, Seq::empty(), None);
            if r is Some {
                let b = r->0;
                lemma_total(b.1);
            }
        },
        Search::Forced(fs, p) => {
            lemma_need_one_more(h, ms, crate::plan::Filter::Any, true, false, fs, p);
            if r is Some {
                let b = r->0;
                lemma_total(b.1);
            }
        },
        Search::Nine(s, xx) => {
            lemma_nine_total(s, xx);
        },
        Search::Knitted(i) => {
            let melded = ms.len() == 1;
            let ts = zl_targets(i, melded);
            lemma_pick_best(h, ts);
            if r is Some {
                let b = r->0;
                let k = choose|k: int| 0 <= k < ts.len() && ts[k] == b.1 && (forall|q: int| 0 <= q < k ==> spec_cover(h, #[trigger] ts[q]) < b.0);
                assert(0 <= k / 34 < zl_set_count(melded));
                lemma_knitted_total(i, melded, k / 34, k % 34);
            }
        },
        Search::SevenPairs => {
            lemma_seven_pairs_shape(h);
        },
        Search::ShiftedPairs => {
            let ts = straight_targets();
            lemma_pick_best(h, ts);
            if r is Some {
                let b = r->0;
                let k = choose|k: int| 0 <= k < ts.len() && ts[k] == b.1 && (forall|q: int| 0 <= q < k ==> spec_cover(h, #[trigger] ts[q]) < b.0);
                lemma_straight_total(k / 3, k % 3 + 1);
            }
        },
        Search::Orphans => {
            lemma_orphans_total(h);
        },
        Search::Knit14(seven) => {
            let ts = bu_kao_targets(h, seven);
            lemma_pick_best(h, ts);
            if r is Some {
                let b = r->0;
                let k = choose|k: int| 0 <= k < ts.len() && ts[k] == b.1 && (forall|q: int| 0 <= q < k ==> spec_cover(h, #[trigger] ts[q]) < b.0);
                lemma_bu_kao_total(h, k, seven);
            }
        },
    }
}

} // verus!
