//! The standard shape (four sets and a pair) that covers most of a hand.
use vstd::prelude::*;
use crate::model::{spec_meld_tiles, Meld, MeldKind};
use crate::plan::target::{
    cover, gain, lemma_cover_bounds, lemma_cover_update, lemma_excess_len, lemma_sum_update,
    lemma_total, min_count, sat_add, spec_cover, spec_drop, spec_need, sum_upto,
};
use crate::tiles::seq_sum;
use crate::plan::{filter_ok, Filter};
use crate::tiles::{counts, is_suited, num, Counts, NUM_TILES};

verus! {

/// `c` with one more `x`.
pub open spec fn inc(c: Seq<u8>, x: usize) -> Seq<u8> {
    c.update(x as int, (c[x as int] + 1) as u8)
}

/// `c` with the three tiles of set `s` added.
pub open spec fn add_set(c: Seq<u8>, s: Seq<usize>) -> Seq<u8> {
    inc(inc(inc(c, s[0]), s[1]), s[2])
}

/// `c` with a pair of `p` added (held at 255).
pub open spec fn with_pair(c: Seq<u8>, p: usize) -> Seq<u8> {
    c.update(p as int, sat_add(c[p as int], 2))
}

/// The views of some three-tile sets.
pub open spec fn sets_view(v: Seq<[usize; 3]>) -> Seq<Seq<usize>> {
    v.map_values(|a: [usize; 3]| a@)
}

/// Every set is three tile indices.
pub open spec fn sets_ok(v: Seq<Seq<usize>>) -> bool {
    forall|k: int|
        0 <= k < v.len() ==> (#[trigger] v[k]).len() == 3 && v[k][0] < 34 && v[k][1] < 34 && v[k][2]
            < 34
}

/// Every count is small enough to take `left` more sets and a pair.
pub open spec fn room(c: Seq<u8>, left: int) -> bool {
    &&& c.len() == 34
    &&& forall|x: int| 0 <= x < 34 ==> #[trigger] c[x] + 3 * left <= 12
}

/// Tiles below `n` passing filter `f`, in tile order.
pub open spec fn tiles_passing(f: Filter, n: int) -> Seq<usize>
    decreases n,
{
    if n <= 0 {
        Seq::empty()
    } else {
        tiles_passing(f, n - 1) + if filter_ok(f, (n - 1) as usize) {
            seq![(n - 1) as usize]
        } else {
            Seq::empty()
        }
    }
}

/// The tiles the pair may be: the one given, or any tile passing the filter.
pub open spec fn pair_cands(f: Filter, pair: Option<usize>) -> Seq<usize> {
    match pair {
        Some(p) => seq![p],
        None => tiles_passing(f, 34),
    }
}

/// Whether some meld holds tile `x`.
pub open spec fn meld_has(ms: Seq<Meld>, x: int) -> bool {
    exists|i: int, j: int|
        0 <= i < ms.len() && 0 <= j < spec_meld_tiles(ms[i]).len() && #[trigger] spec_meld_tiles(
            ms[i],
        )[j] == x
}

/// Whether the target or a meld holds tile `x`.
pub open spec fn present(t: Seq<u8>, ms: Seq<Meld>, x: int) -> bool {
    t[x] > 0 || meld_has(ms, x)
}

/// Whether some tile in `lo..hi` is present.
pub open spec fn some_present(t: Seq<u8>, ms: Seq<Meld>, lo: int, hi: int) -> bool {
    exists|x: int| lo <= x < hi && #[trigger] present(t, ms, x)
}

/// All five kinds (characters, bamboo, dots, winds, dragons) are present in
/// the target with the melds.
pub open spec fn five_gates_ok(t: Seq<u8>, ms: Seq<Meld>) -> bool {
    &&& some_present(t, ms, 0, 9)
    &&& some_present(t, ms, 9, 18)
    &&& some_present(t, ms, 18, 27)
    &&& some_present(t, ms, 27, 31)
    &&& some_present(t, ms, 31, 34)
}

/// The finished targets from `cur` and the pair candidates `cs`, in order
/// (those missing one of the five kinds left out when `five` is asked).
pub open spec fn leaf_targets(cur: Seq<u8>, cs: Seq<usize>, five: bool, ms: Seq<Meld>) -> Seq<
    Seq<u8>,
>
    decreases cs.len(),
{
    if cs.len() == 0 {
        Seq::empty()
    } else {
        let t = with_pair(cur, cs.last());
        leaf_targets(cur, cs.drop_last(), five, ms) + if !five || five_gates_ok(t, ms) {
            seq![t]
        } else {
            Seq::empty()
        }
    }
}

/// Every target reachable from `cur` by adding `left` sets taken in order
/// from `opts[i..]` (a set may repeat) and then a pair, in the order of a
/// depth-first search.
pub open spec fn dfs(
    opts: Seq<Seq<usize>>,
    i: int,
    left: nat,
    cur: Seq<u8>,
    cs: Seq<usize>,
    five: bool,
    ms: Seq<Meld>,
) -> Seq<Seq<u8>>
    decreases left, opts.len() - i,
{
    if left == 0 {
        leaf_targets(cur, cs, five, ms)
    } else if i < 0 || i >= opts.len() {
        Seq::empty()
    } else {
        dfs(opts, i, (left - 1) as nat, add_set(cur, opts[i]), cs, five, ms) + dfs(
            opts,
            i + 1,
            left,
            cur,
            cs,
            five,
            ms,
        )
    }
}

/// The best of `best` and the targets `ts` taken in order: a target replaces
/// the best so far only when it covers strictly more.
pub open spec fn pick(h: Seq<u8>, best: Option<(u32, Seq<u8>)>, ts: Seq<Seq<u8>>) -> Option<
    (u32, Seq<u8>),
>
    decreases ts.len(),
{
    if ts.len() == 0 {
        best
    } else {
        let b = pick(h, best, ts.drop_last());
        let c = spec_cover(h, ts.last());
        match b {
            Some(bb) => if c > bb.0 {
                Some((c as u32, ts.last()))
            } else {
                b
            },
            None => Some((c as u32, ts.last())),
        }
    }
}

/// The view of a search result.
pub open spec fn best_view(b: Option<(u32, Counts)>) -> Option<(u32, Seq<u8>)> {
    match b {
        Some(x) => Some((x.0, x.1@)),
        None => None,
    }
}

pub proof fn lemma_pick_concat(h: Seq<u8>, b: Option<(u32, Seq<u8>)>, x: Seq<Seq<u8>>, y: Seq<Seq<u8>>)
    ensures
        pick(h, b, x + y) == pick(h, pick(h, b, x), y),
    decreases y.len(),
{
    if y.len() == 0 {
        assert(x + y =~= x);
    } else {
        assert((x + y).drop_last() =~= x + y.drop_last());
        lemma_pick_concat(h, b, x, y.drop_last());
    }
}

/// Targets covering no more than the best so far change nothing.
pub proof fn lemma_pick_keeps(h: Seq<u8>, b: (u32, Seq<u8>), ts: Seq<Seq<u8>>)
    requires
        forall|j: int| 0 <= j < ts.len() ==> spec_cover(h, #[trigger] ts[j]) <= b.0,
    ensures
        pick(h, Some(b), ts) == Some(b),
    decreases ts.len(),
{
    if ts.len() > 0 {
        lemma_pick_keeps(h, b, ts.drop_last());
        assert(spec_cover(h, ts[ts.len() - 1]) <= b.0);
    }
}

proof fn lemma_inc_cover(h: Seq<u8>, c: Seq<u8>, x: usize)
    requires
        c.len() == 34,
        x < 34,
        c[x as int] < 255,
    ensures
        spec_cover(h, inc(c, x)) <= spec_cover(h, c) + 1,
        spec_cover(h, inc(c, x)) >= spec_cover(h, c),
{
    lemma_cover_update(h, c, x as int, (c[x as int] + 1) as u8);
}

pub proof fn lemma_add_set(h: Seq<u8>, c: Seq<u8>, s: Seq<usize>, left: int)
    requires
        room(c, left),
        left >= 1,
        s.len() == 3,
        s[0] < 34,
        s[1] < 34,
        s[2] < 34,
    ensures
        spec_cover(h, add_set(c, s)) <= spec_cover(h, c) + 3,
        room(add_set(c, s), left - 1),
{
    let c1 = inc(c, s[0]);
    let c2 = inc(c1, s[1]);
    lemma_inc_cover(h, c, s[0]);
    lemma_inc_cover(h, c1, s[1]);
    lemma_inc_cover(h, c2, s[2]);
    assert forall|x: int| 0 <= x < 34 implies #[trigger] add_set(c, s)[x] + 3 * (left - 1) <= 12 by {
        assert(c[x] + 3 * left <= 12);
    }
}

proof fn lemma_leaf_bound(h: Seq<u8>, cur: Seq<u8>, cs: Seq<usize>, five: bool, ms: Seq<Meld>)
    requires
        room(cur, 0),
        forall|j: int| 0 <= j < cs.len() ==> #[trigger] cs[j] < 34,
    ensures
        forall|j: int|
            0 <= j < leaf_targets(cur, cs, five, ms).len() ==> spec_cover(
                h,
                #[trigger] leaf_targets(cur, cs, five, ms)[j],
            ) <= spec_cover(h, cur) + 2,
    decreases cs.len(),
{
    if cs.len() > 0 {
        let p = cs.last();
        lemma_leaf_bound(h, cur, cs.drop_last(), five, ms);
        lemma_cover_update(h, cur, p as int, sat_add(cur[p as int], 2));
        let a = leaf_targets(cur, cs.drop_last(), five, ms);
        let t = with_pair(cur, p);
        assert forall|j: int|
            0 <= j < leaf_targets(cur, cs, five, ms).len() implies spec_cover(
            h,
            #[trigger] leaf_targets(cur, cs, five, ms)[j],
        ) <= spec_cover(h, cur) + 2 by {
            if j < a.len() {
                assert(leaf_targets(cur, cs, five, ms)[j] == a[j]);
            } else {
                assert(leaf_targets(cur, cs, five, ms)[j] == t);
            }
        }
    }
}

/// Every target of the search covers at most the current cover plus three
/// per set still to add plus two for the pair.
pub proof fn lemma_dfs_bound(
    h: Seq<u8>,
    opts: Seq<Seq<usize>>,
    i: int,
    left: nat,
    cur: Seq<u8>,
    cs: Seq<usize>,
    five: bool,
    ms: Seq<Meld>,
)
    requires
        sets_ok(opts),
        room(cur, left as int),
        forall|j: int| 0 <= j < cs.len() ==> #[trigger] cs[j] < 34,
    ensures
        forall|j: int|
            0 <= j < dfs(opts, i, left, cur, cs, five, ms).len() ==> spec_cover(
                h,
                #[trigger] dfs(opts, i, left, cur, cs, five, ms)[j],
            ) <= spec_cover(h, cur) + 3 * left + 2,
    decreases left, opts.len() - i,
{
    if left == 0 {
        lemma_leaf_bound(h, cur, cs, five, ms);
    } else if i < 0 || i >= opts.len() {
    } else {
        let nxt = add_set(cur, opts[i]);
        lemma_add_set(h, cur, opts[i], left as int);
        lemma_dfs_bound(h, opts, i, (left - 1) as nat, nxt, cs, five, ms);
        lemma_dfs_bound(h, opts, i + 1, left, cur, cs, five, ms);
        let a = dfs(opts, i, (left - 1) as nat, nxt, cs, five, ms);
        let b = dfs(opts, i + 1, left, cur, cs, five, ms);
        assert forall|j: int| 0 <= j < dfs(opts, i, left, cur, cs, five, ms).len() implies spec_cover(
            h,
            #[trigger] dfs(opts, i, left, cur, cs, five, ms)[j],
        ) <= spec_cover(h, cur) + 3 * left + 2 by {
            if j < a.len() {
                assert((a + b)[j] == a[j]);
            } else {
                assert((a + b)[j] == b[j - a.len()]);
            }
        }
    }
}


/// Whether some meld among the first `i`, or meld `i` among its first `j`
/// tiles, holds tile `x`.
pub open spec fn meld_has_before(ms: Seq<Meld>, i: int, j: int, x: int) -> bool {
    exists|i2: int, j2: int|
        0 <= i2 <= i && i2 < ms.len() && 0 <= j2 < spec_meld_tiles(ms[i2]).len() && (i2 < i || j2
            < j) && #[trigger] spec_meld_tiles(ms[i2])[j2] == x
}

proof fn lemma_marked_present(seen: Seq<bool>, t: Seq<u8>, ms: Seq<Meld>, lo: int, hi: int)
    requires
        0 <= lo <= hi <= 34,
        forall|y: int| 0 <= y < 34 ==> #[trigger] seen[y] == present(t, ms, y),
    ensures
        (exists|x: int| lo <= x < hi && #[trigger] seen[x]) == some_present(t, ms, lo, hi),
{
    if exists|x: int| lo <= x < hi && #[trigger] seen[x] {
        let x = choose|x: int| lo <= x < hi && #[trigger] seen[x];
        assert(present(t, ms, x));
    }
    if some_present(t, ms, lo, hi) {
        let x = choose|x: int| lo <= x < hi && #[trigger] present(t, ms, x);
        assert(seen[x]);
    }
}

/// Whether some tile in `lo..hi` is marked.
fn any_marked(seen: &[bool; 34], lo: usize, hi: usize) -> (r: bool)
    requires
        lo <= hi <= 34,
    ensures
        r == exists|x: int| lo <= x < hi && #[trigger] seen@[x],
{
    let mut x = lo;
    while x < hi
        invariant
            lo <= x <= hi,
            hi <= 34,
            forall|y: int| lo <= y < x ==> !#[trigger] seen@[y],
        decreases hi - x,
    {
        if seen[x] {
            return true;
        }
        x = x + 1;
    }
    false
}

/// Whether the target with the melds holds all five kinds: characters,
/// bamboo, dots, a wind and a dragon.
fn has_five_gates(t: &Counts, melds: &[Meld]) -> (r: bool)
    requires
        crate::calc::melds_in_range(melds@),
    ensures
        r == five_gates_ok(t@, melds@),
{
    let mut seen: [bool; 34] = [false; 34];
    let mut x: usize = 0;
    while x < NUM_TILES
        invariant
            x <= 34,
            forall|y: int| 0 <= y < x ==> #[trigger] seen@[y] == (t@[y] > 0),
        decreases 34 - x,
    {
        seen[x] = t[x] > 0;
        x = x + 1;
    }
    let mut i: usize = 0;
    while i < melds.len()
        invariant
            i <= melds@.len(),
            crate::calc::melds_in_range(melds@),
            forall|y: int| 0 <= y < 34 ==> #[trigger] seen@[y] == (t@[y] > 0 || meld_has_before(melds@, i as int, 0, y)),
        decreases melds@.len() - i,
    {
        let ts = melds[i].tiles();
        let mut j: usize = 0;
        while j < ts.len()
            invariant
                j <= ts@.len(),
                i < melds@.len(),
                ts@ == spec_meld_tiles(melds@[i as int]),
                crate::calc::melds_in_range(melds@),
                forall|y: int| 0 <= y < 34 ==> #[trigger] seen@[y] == (t@[y] > 0 || meld_has_before(melds@, i as int, j as int, y)),
            decreases ts@.len() - j,
        {
            let x = ts[j];
            assert(x < 34) by {
                assert(melds@[i as int].kind == MeldKind::Chi ==> melds@[i as int].tile + 2 < 34);
            }
            seen[x] = true;
            assert forall|y: int| 0 <= y < 34 implies #[trigger] seen@[y] == (t@[y] > 0 || meld_has_before(melds@, i as int, j + 1, y)) by {
                if meld_has_before(melds@, i as int, j + 1, y) && !meld_has_before(melds@, i as int, j as int, y) {
                    let (i2, j2) = choose|i2: int, j2: int|
                        0 <= i2 <= i && i2 < melds@.len() && 0 <= j2 < spec_meld_tiles(melds@[i2]).len() && (i2 < i || j2
                            < j + 1) && #[trigger] spec_meld_tiles(melds@[i2])[j2] == y;
                    assert(i2 == i && j2 == j);
                }
                if y == x {
                    assert(spec_meld_tiles(melds@[i as int])[j as int] == y);
                }
            }
            j = j + 1;
        }
        assert forall|y: int| 0 <= y < 34 implies #[trigger] seen@[y] == (t@[y] > 0 || meld_has_before(melds@, i + 1, 0, y)) by {
            if meld_has_before(melds@, i as int, ts@.len() as int, y) {
                let (i2, j2) = choose|i2: int, j2: int|
                    0 <= i2 <= i && i2 < melds@.len() && 0 <= j2 < spec_meld_tiles(melds@[i2]).len() && (i2 < i || j2
                        < ts@.len()) && #[trigger] spec_meld_tiles(melds@[i2])[j2] == y;
                assert(meld_has_before(melds@, i + 1, 0, y));
            }
            if meld_has_before(melds@, i + 1, 0, y) {
                let (i2, j2) = choose|i2: int, j2: int|
                    0 <= i2 <= i + 1 && i2 < melds@.len() && 0 <= j2 < spec_meld_tiles(melds@[i2]).len() && (i2 < i + 1 || j2
                        < 0) && #[trigger] spec_meld_tiles(melds@[i2])[j2] == y;
                assert(meld_has_before(melds@, i as int, ts@.len() as int, y));
            }
        }
        i = i + 1;
    }
    assert forall|y: int| 0 <= y < 34 implies #[trigger] seen@[y] == present(t@, melds@, y) by {
        if meld_has_before(melds@, melds@.len() as int, 0, y) {
            let (i2, j2) = choose|i2: int, j2: int|
                0 <= i2 <= melds@.len() && i2 < melds@.len() && 0 <= j2 < spec_meld_tiles(melds@[i2]).len() && (i2 < melds@.len() || j2
                    < 0) && #[trigger] spec_meld_tiles(melds@[i2])[j2] == y;
            assert(meld_has(melds@, y));
        }
        if meld_has(melds@, y) {
            let (i2, j2) = choose|i2: int, j2: int|
                0 <= i2 < melds@.len() && 0 <= j2 < spec_meld_tiles(melds@[i2]).len() && #[trigger] spec_meld_tiles(
                    melds@[i2],
                )[j2] == y;
            assert(meld_has_before(melds@, melds@.len() as int, 0, y));
        }
    }
    let a = any_marked(&seen, 0, 9);
    let b = any_marked(&seen, 9, 18);
    let c = any_marked(&seen, 18, 27);
    let d = any_marked(&seen, 27, 31);
    let e = any_marked(&seen, 31, 34);
    proof {
        lemma_marked_present(seen@, t@, melds@, 0, 9);
        lemma_marked_present(seen@, t@, melds@, 9, 18);
        lemma_marked_present(seen@, t@, melds@, 18, 27);
        lemma_marked_present(seen@, t@, melds@, 27, 31);
        lemma_marked_present(seen@, t@, melds@, 31, 34);
    }
    a && b && c && d && e
}


/// Adds `left` sets from `opts[i..]` to `cur` (which `cov` tiles of the hand
/// cover) and then a pair from `cands`, keeping in `best` the first target
/// found that covers the most; a branch that cannot beat `best` is cut.
fn rec(
    i: usize,
    left: usize,
    cur: &Counts,
    cov: u32,
    hand: &Counts,
    five_gates: bool,
    melds: &[Meld],
    opts: &Vec<[usize; 3]>,
    cands: &Vec<usize>,
    best: &mut Option<(u32, Counts)>,
)
    requires
        i <= opts@.len(),
        left <= 4,
        room(cur@, left as int),
        cov == spec_cover(hand@, cur@),
        sets_ok(sets_view(opts@)),
        forall|j: int| 0 <= j < cands@.len() ==> #[trigger] cands@[j] < 34,
        five_gates ==> crate::calc::melds_in_range(melds@),
    ensures
        best_view(*final(best)) == pick(
            hand@,
            best_view(*old(best)),
            dfs(sets_view(opts@), i as int, left as nat, cur@, cands@, five_gates, melds@),
        ),
    decreases left,
{
    let ghost ov = sets_view(opts@);
    proof {
        lemma_cover_bounds(hand@, cur@, 34);
    }
    let ub = cov + 3 * (left as u32) + 2;
    match *best {
        Some((bc, _)) => {
            if ub <= bc {
                proof {
                    lemma_dfs_bound(hand@, ov, i as int, left as nat, cur@, cands@, five_gates, melds@);
                    let b = (*old(best)).unwrap();
                    lemma_pick_keeps(
                        hand@,
                        (b.0, b.1@),
                        dfs(ov, i as int, left as nat, cur@, cands@, five_gates, melds@),
                    );
                }
                return;
            }
        },
        None => {},
    }
    if left == 0 {
        let mut j: usize = 0;
        while j < cands.len()
            invariant
                j <= cands@.len(),
                room(cur@, 0),
                cov == spec_cover(hand@, cur@),
                forall|k: int| 0 <= k < cands@.len() ==> #[trigger] cands@[k] < 34,
                five_gates ==> crate::calc::melds_in_range(melds@),
                best_view(*best) == pick(
                    hand@,
                    best_view(*old(best)),
                    leaf_targets(cur@, cands@.subrange(0, j as int), five_gates, melds@),
                ),
            decreases cands@.len() - j,
        {
            let p = cands[j];
            let mut t: Counts = *cur;
            t[p] = t[p].saturating_add(2);
            let ghost cs = cands@.subrange(0, j + 1);
            assert(cs.drop_last() =~= cands@.subrange(0, j as int));
            assert(t@ =~= with_pair(cur@, p));
            let keep = !five_gates || has_five_gates(&t, melds);
            if keep {
                proof {
                    lemma_cover_update(hand@, cur@, p as int, sat_add(cur@[p as int], 2));
                    lemma_cover_bounds(hand@, t@, 34);
                    lemma_cover_bounds(hand@, cur@, 34);
                }
                let g = gain(hand, cur, p, 2);
                let c = cov + g;
                let better = match *best {
                    Some((bc, _)) => c > bc,
                    None => true,
                };
                let ghost before = best_view(*best);
                assert(leaf_targets(cur@, cs, five_gates, melds@) =~= leaf_targets(
                    cur@,
                    cands@.subrange(0, j as int),
                    five_gates,
                    melds@,
                ) + seq![t@]);
                assert((leaf_targets(cur@, cands@.subrange(0, j as int), five_gates, melds@) + seq![t@]).drop_last()
                    =~= leaf_targets(cur@, cands@.subrange(0, j as int), five_gates, melds@));
                if better {
                    *best = Some((c, t));
                }
            } else {
                assert(leaf_targets(cur@, cs, five_gates, melds@) =~= leaf_targets(
                    cur@,
                    cands@.subrange(0, j as int),
                    five_gates,
                    melds@,
                ));
            }
            j = j + 1;
        }
        assert(cands@.subrange(0, cands@.len() as int) =~= cands@);
        return;
    }
    let ghost b0 = best_view(*best);
    let mut k: usize = i;
    while k < opts.len()
        invariant
            i <= k <= opts@.len(),
            1 <= left <= 4,
            ov == sets_view(opts@),
            room(cur@, left as int),
            cov == spec_cover(hand@, cur@),
            sets_ok(ov),
            forall|j: int| 0 <= j < cands@.len() ==> #[trigger] cands@[j] < 34,
            five_gates ==> crate::calc::melds_in_range(melds@),
            pick(hand@, best_view(*best), dfs(ov, k as int, left as nat, cur@, cands@, five_gates, melds@))
                == pick(hand@, b0, dfs(ov, i as int, left as nat, cur@, cands@, five_gates, melds@)),
        decreases opts@.len() - k,
    {
        let s = opts[k];
        assert(ov[k as int] == s@);
        let mut nc: Counts = *cur;
        let g = place(hand, &mut nc, s, Ghost(left as int));
        proof {
            lemma_cover_bounds(hand@, nc@, 34);
        }
        let ghost bb = best_view(*best);
        let ghost a = dfs(ov, k as int, (left - 1) as nat, nc@, cands@, five_gates, melds@);
        let ghost rest = dfs(ov, k + 1, left as nat, cur@, cands@, five_gates, melds@);
        assert(dfs(ov, k as int, left as nat, cur@, cands@, five_gates, melds@) == a + rest);
        rec(k, left - 1, &nc, cov + g, hand, five_gates, melds, opts, cands, best);
        proof {
            lemma_pick_concat(hand@, bb, a, rest);
        }
        k = k + 1;
    }
}


/// Adds the three tiles of `s` to `cur`; returns how much the cover grew.
fn place(hand: &Counts, cur: &mut Counts, s: [usize; 3], Ghost(left): Ghost<int>) -> (g: u32)
    requires
        room(old(cur)@, left),
        left >= 1,
        s@[0] < 34,
        s@[1] < 34,
        s@[2] < 34,
    ensures
        final(cur)@ == add_set(old(cur)@, s@),
        g == spec_cover(hand@, final(cur)@) - spec_cover(hand@, old(cur)@),
        g <= 3,
        room(final(cur)@, left - 1),
{
    proof {
        lemma_add_set(hand@, old(cur)@, s@, left);
    }
    let g0 = gain(hand, cur, s[0], 1);
    proof {
        lemma_cover_update(hand@, cur@, s[0] as int, sat_add(cur@[s[0] as int], 1));
    }
    cur[s[0]] = cur[s[0]] + 1;
    let g1 = gain(hand, cur, s[1], 1);
    proof {
        lemma_cover_update(hand@, cur@, s[1] as int, sat_add(cur@[s[1] as int], 1));
    }
    cur[s[1]] = cur[s[1]] + 1;
    let g2 = gain(hand, cur, s[2], 1);
    proof {
        lemma_cover_update(hand@, cur@, s[2] as int, sat_add(cur@[s[2] as int], 1));
    }
    cur[s[2]] = cur[s[2]] + 1;
    assert(cur@ =~= add_set(old(cur)@, s@));
    g0 + g1 + g2
}

/// The candidate sets over tiles below `n`: the triplet of each tile passing
/// the filter, then (when runs are allowed) the run starting there.
pub open spec fn opts_upto(f: Filter, runs: bool, n: int) -> Seq<Seq<usize>>
    decreases n,
{
    if n <= 0 {
        Seq::empty()
    } else {
        let t = (n - 1) as usize;
        opts_upto(f, runs, n - 1) + (if filter_ok(f, t) {
            seq![seq![t, t, t]]
        } else {
            Seq::empty()
        }) + (if runs && is_suited(t) && num(t) <= 7 && filter_ok(f, (t + 1) as usize) && filter_ok(
            f,
            (t + 2) as usize,
        ) {
            seq![seq![t, (t + 1) as usize, (t + 2) as usize]]
        } else {
            Seq::empty()
        })
    }
}

/// All candidate sets for filter `f`.
pub open spec fn spec_opts(f: Filter, runs: bool) -> Seq<Seq<usize>> {
    opts_upto(f, runs, 34)
}

fn build_opts(f: Filter, allow_runs: bool) -> (v: Vec<[usize; 3]>)
    ensures
        sets_view(v@) == spec_opts(f, allow_runs),
        sets_ok(sets_view(v@)),
{
    let mut v: Vec<[usize; 3]> = Vec::new();
    let mut t: usize = 0;
    while t < NUM_TILES
        invariant
            t <= 34,
            sets_view(v@) == opts_upto(f, allow_runs, t as int),
            sets_ok(sets_view(v@)),
        decreases 34 - t,
    {
        let ghost v0 = sets_view(v@);
        if f.ok(t) {
            let a: [usize; 3] = [t, t, t];
            assert(a@ =~= seq![t, t, t]);
            v.push(a);
        }
        let ghost v1 = sets_view(v@);
        assert(v1 =~= v0 + if filter_ok(f, t) {
            seq![seq![t, t, t]]
        } else {
            Seq::empty()
        });
        if allow_runs && is_suited(t) && num(t) <= 7 && f.ok(t + 1) && f.ok(t + 2) {
            let a: [usize; 3] = [t, t + 1, t + 2];
            assert(a@ =~= seq![t, (t + 1) as usize, (t + 2) as usize]);
            v.push(a);
        }
        assert(sets_view(v@) =~= v1 + if allow_runs && is_suited(t) && num(t) <= 7 && filter_ok(
            f,
            (t + 1) as usize,
        ) && filter_ok(f, (t + 2) as usize) {
            seq![seq![t, (t + 1) as usize, (t + 2) as usize]]
        } else {
            Seq::empty()
        });
        t = t + 1;
    }
    v
}


/// What a candidate set is ordered by: how many of its tiles the hand holds.
pub open spec fn opt_key(h: Seq<u8>, o: Seq<usize>) -> int {
    h[o[0] as int] + h[o[1] as int] + h[o[2] as int]
}

/// The sets among the first `n` of `os` whose key is `v`, in order.
pub open spec fn with_key(h: Seq<u8>, os: Seq<Seq<usize>>, v: int, n: int) -> Seq<Seq<usize>>
    decreases n,
{
    if n <= 0 {
        Seq::empty()
    } else {
        with_key(h, os, v, n - 1) + if opt_key(h, os[n - 1]) == v {
            seq![os[n - 1]]
        } else {
            Seq::empty()
        }
    }
}

/// The sets with key at least `v`, by key from 765 (the largest) down, in
/// their first order among equal keys.
pub open spec fn keys_down_to(h: Seq<u8>, os: Seq<Seq<usize>>, v: int) -> Seq<Seq<usize>>
    decreases 766 - v,
{
    if v >= 766 {
        Seq::empty()
    } else {
        keys_down_to(h, os, v + 1) + with_key(h, os, v, os.len() as int)
    }
}

/// The candidate sets ordered by key, largest first, ties in their first
/// order (a stable sort).
pub open spec fn sorted_opts(h: Seq<u8>, os: Seq<Seq<usize>>) -> Seq<Seq<usize>> {
    keys_down_to(h, os, 0)
}

/// Orders the candidate sets so that those using most of the hand come first.
fn sort_opts(hand: &Counts, opts: &Vec<[usize; 3]>) -> (r: Vec<[usize; 3]>)
    requires
        sets_ok(sets_view(opts@)),
    ensures
        sets_view(r@) == sorted_opts(hand@, sets_view(opts@)),
        sets_ok(sets_view(r@)),
{
    let ghost os = sets_view(opts@);
    let mut out: Vec<[usize; 3]> = Vec::new();
    let mut w: u32 = 0;
    while w < 766
        invariant
            w <= 766,
            os == sets_view(opts@),
            sets_ok(os),
            sets_view(out@) == keys_down_to(hand@, os, 766 - w),
            sets_ok(sets_view(out@)),
        decreases 766 - w,
    {
        let v: u32 = 765 - w;
        let ghost base = sets_view(out@);
        let mut k: usize = 0;
        while k < opts.len()
            invariant
                k <= opts@.len(),
                v <= 765,
                os == sets_view(opts@),
                sets_ok(os),
                sets_view(out@) == base + with_key(hand@, os, v as int, k as int),
                sets_ok(sets_view(out@)),
            decreases opts@.len() - k,
        {
            let o = opts[k];
            assert(os[k as int] == o@);
            let key = hand[o[0]] as u32 + hand[o[1]] as u32 + hand[o[2]] as u32;
            let ghost before = sets_view(out@);
            assert(key == opt_key(hand@, os[k as int]));
            if key == v {
                out.push(o);
                assert(sets_view(out@) =~= before.push(o@));
            } else {
                assert(sets_view(out@) =~= before);
            }
            k = k + 1;
            assert(sets_view(out@) =~= base + with_key(hand@, os, v as int, k as int));
        }
        w = w + 1;
        assert(keys_down_to(hand@, os, 766 - w) == keys_down_to(hand@, os, 766 - w + 1) + with_key(
            hand@,
            os,
            v as int,
            os.len() as int,
        ));
    }
    out
}


fn pair_candidates(f: Filter, pair_tile: Option<usize>) -> (v: Vec<usize>)
    ensures
        v@ == pair_cands(f, pair_tile),
{
    match pair_tile {
        Some(p) => {
            let mut v: Vec<usize> = Vec::new();
            v.push(p);
            assert(v@ =~= seq![p]);
            v
        },
        None => {
            let mut v: Vec<usize> = Vec::new();
            let mut t: usize = 0;
            while t < NUM_TILES
                invariant
                    t <= 34,
                    v@ == tiles_passing(f, t as int),
                decreases 34 - t,
            {
                if f.ok(t) {
                    v.push(t);
                }
                t = t + 1;
                assert(v@ =~= tiles_passing(f, t as int));
            }
            v
        },
    }
}

proof fn lemma_tiles_passing(f: Filter, n: int)
    requires
        0 <= n <= 34,
    ensures
        forall|j: int| 0 <= j < tiles_passing(f, n).len() ==> #[trigger] tiles_passing(f, n)[j] < n,
    decreases n,
{
    if n > 0 {
        lemma_tiles_passing(f, n - 1);
        let a = tiles_passing(f, n - 1);
        assert forall|j: int| 0 <= j < tiles_passing(f, n).len() implies #[trigger] tiles_passing(f, n)[j] < n by {
            if j < a.len() {
                assert(tiles_passing(f, n)[j] == a[j]);
            }
        }
    }
}

/// Whether a set is not three of a kind.
pub open spec fn spec_is_run3(s: Seq<usize>) -> bool {
    !(s[0] == s[1] && s[1] == s[2])
}

/// Whether a meld rules the pattern out: a chi where runs are not allowed,
/// or a tile the filter refuses.
pub open spec fn meld_blocked(m: Meld, f: Filter, runs: bool) -> bool {
    ||| !runs && m.kind == MeldKind::Chi
    ||| exists|j: int|
        0 <= j < spec_meld_tiles(m).len() && !filter_ok(f, #[trigger] spec_meld_tiles(m)[j])
}

/// Whether a forced set rules the pattern out: a tile the filter refuses, or
/// a run where runs are not allowed.
pub open spec fn forced_blocked(s: Seq<usize>, f: Filter, runs: bool) -> bool {
    ||| !filter_ok(f, s[0])
    ||| !filter_ok(f, s[1])
    ||| !filter_ok(f, s[2])
    ||| !runs && spec_is_run3(s)
}

/// No tile.
pub open spec fn zeros() -> Seq<u8> {
    Seq::new(34, |i: int| 0u8)
}

pub proof fn lemma_cover_zeros(h: Seq<u8>, n: int)
    requires
        0 <= n <= 34,
    ensures
        crate::plan::target::cover_upto(h, zeros(), n) == 0,
    decreases n,
{
    if n > 0 {
        lemma_cover_zeros(h, n - 1);
    }
}

/// The first `k` forced sets, as counts.
pub open spec fn forced_upto(fs: Seq<Seq<usize>>, k: int) -> Seq<u8>
    decreases k,
{
    if k <= 0 {
        zeros()
    } else {
        add_set(forced_upto(fs, k - 1), fs[k - 1])
    }
}

/// Whether the pattern is ruled out before any search.
pub open spec fn forced_excluded(
    ms: Seq<Meld>,
    f: Filter,
    runs: bool,
    forced: Seq<Seq<usize>>,
    pair: Option<usize>,
) -> bool {
    ||| exists|i: int| 0 <= i < ms.len() && meld_blocked(#[trigger] ms[i], f, runs)
    ||| exists|i: int| 0 <= i < forced.len() && forced_blocked(#[trigger] forced[i], f, runs)
    ||| ms.len() > 4
    ||| forced.len() + ms.len() > 4
    ||| !sets_ok(forced)
    ||| match pair {
        Some(p) => !filter_ok(f, p) || p >= 34,
        None => false,
    }
}

/// The best standard shape with the forced sets: `None` when the melds or
/// forced sets rule the pattern out (or no target is left); otherwise the
/// first target, in search order over the sorted candidate sets, that covers
/// the most, with its cover.
#[verifier::opaque]
pub open spec fn spec_best_forced(
    h: Seq<u8>,
    ms: Seq<Meld>,
    f: Filter,
    runs: bool,
    five: bool,
    forced: Seq<Seq<usize>>,
    pair: Option<usize>,
) -> Option<(u32, Seq<u8>)> {
    if forced_excluded(ms, f, runs, forced, pair) {
        None
    } else {
        pick(
            h,
            None,
            dfs(
                sorted_opts(h, spec_opts(f, runs)),
                0,
                (4 - ms.len() - forced.len()) as nat,
                forced_upto(forced, forced.len() as int),
                pair_cands(f, pair),
                five,
                ms,
            ),
        )
    }
}

fn meld_ok(m: &Meld, f: Filter, allow_runs: bool) -> (r: bool)
    requires
        m.kind == MeldKind::Chi ==> m.tile + 2 <= usize::MAX,
    ensures
        r == !meld_blocked(*m, f, allow_runs),
{
    if !allow_runs && m.kind == MeldKind::Chi {
        return false;
    }
    let ts = m.tiles();
    let mut j: usize = 0;
    while j < ts.len()
        invariant
            j <= ts@.len(),
            ts@ == spec_meld_tiles(*m),
            !(!allow_runs && m.kind == MeldKind::Chi),
            forall|k: int| 0 <= k < j ==> filter_ok(f, #[trigger] ts@[k]),
        decreases ts@.len() - j,
    {
        if !f.ok(ts[j]) {
            return false;
        }
        j = j + 1;
    }
    true
}

/// Every meld's tiles can be listed (no chow's last index passes the
/// machine's range).
pub open spec fn tiles_fit(ms: Seq<Meld>) -> bool {
    forall|i: int| 0 <= i < ms.len() ==> (#[trigger] ms[i]).kind == MeldKind::Chi ==> ms[i].tile + 2 <= usize::MAX
}

/// A tile index, or a tile the filter refuses (which rules the pattern out
/// before it is used).
pub open spec fn tile_or_refused(f: Filter, t: usize) -> bool {
    t < 34 || !filter_ok(f, t)
}

/// The standard shape (melds, the forced sets, further sets, a pair) that
/// covers most of the hand, with its cover; the target counts hold the
/// concealed part only.
pub fn best_forced(
    hand: &Counts,
    melds: &[Meld],
    f: Filter,
    allow_runs: bool,
    five_gates: bool,
    forced: &[[usize; 3]],
    pair_tile: Option<usize>,
) -> (r: Option<(u32, Counts)>)
    requires
        tiles_fit(melds@),
        five_gates && melds@.len() <= 4 ==> crate::calc::melds_in_range(melds@),
        forall|k: int, j: int|
            0 <= k < forced@.len() && 0 <= j < 3 ==> tile_or_refused(f, #[trigger] forced@[k]@[j]),
        pair_tile matches Some(p) ==> tile_or_refused(f, p),
    ensures
        best_view(r) == spec_best_forced(
            hand@,
            melds@,
            f,
            allow_runs,
            five_gates,
            sets_view(forced@),
            pair_tile,
        ),
{
    let ghost fv = sets_view(forced@);
    proof {
        reveal(spec_best_forced);
    }
    let mut i: usize = 0;
    while i < melds.len()
        invariant
            i <= melds@.len(),
            tiles_fit(melds@),
            forall|k: int| 0 <= k < i ==> !meld_blocked(#[trigger] melds@[k], f, allow_runs),
        decreases melds@.len() - i,
    {
        assert(melds@[i as int].kind == MeldKind::Chi ==> melds@[i as int].tile + 2 <= usize::MAX);
        if !meld_ok(&melds[i], f, allow_runs) {
            proof {
                reveal(spec_best_forced);
            }
            return None;
        }
        i = i + 1;
    }
    let mut k: usize = 0;
    while k < forced.len()
        invariant
            k <= forced@.len(),
            fv == sets_view(forced@),
            forall|j: int| 0 <= j < k ==> !forced_blocked(#[trigger] fv[j], f, allow_runs),
        decreases forced@.len() - k,
    {
        let s = forced[k];
        assert(fv[k as int] == s@);
        if !f.ok(s[0]) || !f.ok(s[1]) || !f.ok(s[2]) {
            proof {
                reveal(spec_best_forced);
            }
            return None;
        }
        if !allow_runs && !(s[0] == s[1] && s[1] == s[2]) {
            proof {
                reveal(spec_best_forced);
            }
            return None;
        }
        k = k + 1;
    }
    if melds.len() > 4 {
        return None;
    }
    let used = 4 - melds.len();
    if forced.len() > used {
        return None;
    }
    let left0 = used - forced.len();
    match pair_tile {
        Some(p) => {
            if !f.ok(p) {
                return None;
            }
        },
        None => {},
    }
    proof {
        assert forall|k: int| 0 <= k < fv.len() implies (#[trigger] fv[k]).len() == 3 && fv[k][0] < 34
            && fv[k][1] < 34 && fv[k][2] < 34 by {
            assert(fv[k] == forced@[k]@);
            assert(!forced_blocked(fv[k], f, allow_runs));
            assert(tile_or_refused(f, forced@[k]@[0]));
            assert(tile_or_refused(f, forced@[k]@[1]));
            assert(tile_or_refused(f, forced@[k]@[2]));
        }
    }
    assert(!forced_excluded(melds@, f, allow_runs, fv, pair_tile));
    let opts0 = build_opts(f, allow_runs);
    let opts = sort_opts(hand, &opts0);
    let mut cur = counts();
    assert(cur@ =~= zeros());
    proof {
        lemma_cover_zeros(hand@, 34);
    }
    let mut cov0: u32 = 0;
    let mut j: usize = 0;
    while j < forced.len()
        invariant
            j <= forced@.len(),
            forced@.len() <= 4,
            fv == sets_view(forced@),
            sets_ok(fv),
            cur@ == forced_upto(fv, j as int),
            room(cur@, 4 - j),
            cov0 == spec_cover(hand@, cur@),
            cov0 <= 3 * j,
        decreases forced@.len() - j,
    {
        let s = forced[j];
        assert(fv[j as int] == s@);
        let g = place(hand, &mut cur, s, Ghost(4 - j as int));
        cov0 = cov0 + g;
        j = j + 1;
    }
    let cands = pair_candidates(f, pair_tile);
    proof {
        lemma_tiles_passing(f, 34);
        assert forall|x: int| 0 <= x < 34 implies #[trigger] cur@[x] + 3 * left0 <= 12 by {
            assert(cur@[x] + 3 * (4 - forced@.len()) <= 12);
        }
    }
    let mut best: Option<(u32, Counts)> = None;
    rec(0, left0, &cur, cov0, hand, five_gates, melds, &opts, &cands, &mut best);
    best
}

/// The standard shape (melds, four sets in all, a pair) that covers most
/// of the hand.
pub fn best_standard(
    hand: &Counts,
    melds: &[Meld],
    f: Filter,
    allow_runs: bool,
    five_gates: bool,
) -> (r: Option<(u32, Counts)>)
    requires
        tiles_fit(melds@),
        five_gates && melds@.len() <= 4 ==> crate::calc::melds_in_range(melds@),
    ensures
        best_view(r) == spec_best_forced(
            hand@,
            melds@,
            f,
            allow_runs,
            five_gates,
            Seq::empty(),
            None,
        ),
{
    let forced: Vec<[usize; 3]> = Vec::new();
    assert(sets_view(forced@) =~= Seq::<Seq<usize>>::empty());
    best_forced(hand, melds, f, allow_runs, five_gates, forced.as_slice(), None)
}

/// The run of suit `s` starting at rank `n`.
pub fn run(s: usize, n: usize) -> (r: [usize; 3])
    requires
        1 <= n,
        s * 9 + n + 1 <= usize::MAX,
    ensures
        r@ == seq![(s * 9 + n - 1) as usize, (s * 9 + n) as usize, (s * 9 + n + 1) as usize],
{
    let r = [s * 9 + n - 1, s * 9 + n, s * 9 + n + 1];
    assert(r@ =~= seq![(s * 9 + n - 1) as usize, (s * 9 + n) as usize, (s * 9 + n + 1) as usize]);
    r
}

/// The triplet of suit `s`, rank `n`.
pub fn trip(s: usize, n: usize) -> (r: [usize; 3])
    requires
        1 <= n,
        s * 9 + n <= usize::MAX,
    ensures
        r@ == seq![(s * 9 + n - 1) as usize, (s * 9 + n - 1) as usize, (s * 9 + n - 1) as usize],
{
    let t = s * 9 + n - 1;
    let r = [t, t, t];
    assert(r@ =~= seq![t, t, t]);
    r
}


/// What the search keeps: nothing for no targets; otherwise the first
/// target of greatest cover, with that cover.
pub proof fn lemma_pick_best(h: Seq<u8>, ts: Seq<Seq<u8>>)
    ensures
        pick(h, None, ts) is None <==> ts.len() == 0,
        pick(h, None, ts) matches Some(b) ==> {
            &&& b.0 == spec_cover(h, b.1)
            &&& exists|j: int| 0 <= j < ts.len() && ts[j] == b.1 && (forall|k: int| 0 <= k < j ==> spec_cover(h, #[trigger] ts[k]) < b.0)
            &&& forall|k: int| 0 <= k < ts.len() ==> spec_cover(h, #[trigger] ts[k]) <= b.0
        },
    decreases ts.len(),
{
    if ts.len() > 0 {
        let w = ts.drop_last();
        lemma_pick_best(h, w);
        let t = ts.last();
        lemma_cover_bounds(h, t, 34);
        match pick(h, None, w) {
            Some(b) => {
                lemma_cover_bounds(h, b.1, 34);
                let j = choose|j: int| 0 <= j < w.len() && w[j] == b.1 && (forall|k: int| 0 <= k < j ==> spec_cover(h, #[trigger] w[k]) < b.0);
                assert(ts[j] == w[j]);
                if spec_cover(h, t) > b.0 {
                    assert(ts[ts.len() - 1] == t);
                    assert forall|k: int| 0 <= k < ts.len() - 1 implies spec_cover(h, #[trigger] ts[k]) < spec_cover(h, t) by {
                        assert(ts[k] == w[k]);
                    }
                } else {
                    assert forall|k: int| 0 <= k < j implies spec_cover(h, #[trigger] ts[k]) < b.0 by {
                        assert(ts[k] == w[k]);
                    }
                    assert forall|k: int| 0 <= k < ts.len() implies spec_cover(h, #[trigger] ts[k]) <= b.0 by {
                        if k < w.len() {
                            assert(ts[k] == w[k]);
                        }
                    }
                }
            },
            None => {
                assert(w.len() == 0);
                assert(ts[0] == t);
            },
        }
    }
}

/// `c` with the sets `ss` added, first to last.
pub open spec fn add_sets(c: Seq<u8>, ss: Seq<Seq<usize>>) -> Seq<u8>
    decreases ss.len(),
{
    if ss.len() == 0 {
        c
    } else {
        add_sets(add_set(c, ss[0]), ss.drop_first())
    }
}

/// The options at indices `ix`.
pub open spec fn chosen(opts: Seq<Seq<usize>>, ix: Seq<int>) -> Seq<Seq<usize>> {
    ix.map_values(|k: int| opts[k])
}

/// Whether `t` is `cur` with `left` options from `opts[i..]` and a pair
/// candidate added (and has the five kinds when `five` asks for them).
pub open spec fn built_from(
    t: Seq<u8>,
    opts: Seq<Seq<usize>>,
    i: int,
    left: nat,
    cur: Seq<u8>,
    cs: Seq<usize>,
    five: bool,
    ms: Seq<Meld>,
) -> bool {
    exists|ix: Seq<int>, p: usize|
        {
            &&& ix.len() == left
            &&& forall|k: int| 0 <= k < ix.len() ==> i <= #[trigger] ix[k] < opts.len()
            &&& cs.contains(p)
            &&& t == with_pair(add_sets(cur, chosen(opts, ix)), p)
            &&& (five ==> five_gates_ok(t, ms))
        }
}

proof fn lemma_leaf_shape(cur: Seq<u8>, cs: Seq<usize>, five: bool, ms: Seq<Meld>, opts: Seq<Seq<usize>>, i: int)
    ensures
        forall|j: int|
            0 <= j < leaf_targets(cur, cs, five, ms).len() ==> built_from(
                #[trigger] leaf_targets(cur, cs, five, ms)[j],
                opts,
                i,
                0,
                cur,
                cs,
                five,
                ms,
            ),
    decreases cs.len(),
{
    if cs.len() > 0 {
        let p = cs.last();
        let w = cs.drop_last();
        lemma_leaf_shape(cur, w, five, ms, opts, i);
        let a = leaf_targets(cur, w, five, ms);
        let e: Seq<int> = Seq::empty();
        assert(chosen(opts, e) =~= Seq::<Seq<usize>>::empty());
        assert forall|j: int| 0 <= j < leaf_targets(cur, cs, five, ms).len() implies built_from(
            #[trigger] leaf_targets(cur, cs, five, ms)[j],
            opts,
            i,
            0,
            cur,
            cs,
            five,
            ms,
        ) by {
            let t = leaf_targets(cur, cs, five, ms)[j];
            if j < a.len() {
                assert(t == a[j]);
                assert(built_from(a[j], opts, i, 0, cur, w, five, ms));
                let (ix, q) = choose|ix: Seq<int>, q: usize|
                    {
                        &&& ix.len() == 0
                        &&& forall|k: int| 0 <= k < ix.len() ==> i <= #[trigger] ix[k] < opts.len()
                        &&& w.contains(q)
                        &&& a[j] == with_pair(add_sets(cur, chosen(opts, ix)), q)
                        &&& (five ==> five_gates_ok(a[j], ms))
                    };
                let k = choose|k: int| 0 <= k < w.len() && w[k] == q;
                assert(cs[k] == q);
                assert(cs.contains(q));
            } else {
                assert(t == with_pair(cur, p));
                assert(cs[cs.len() - 1] == p);
                assert(add_sets(cur, chosen(opts, e)) == cur);
            }
        }
    }
}

/// Every target of the search is `cur` with `left` options from
/// `opts[i..]` and a pair candidate added.
pub proof fn lemma_dfs_shape(
    opts: Seq<Seq<usize>>,
    i: int,
    left: nat,
    cur: Seq<u8>,
    cs: Seq<usize>,
    five: bool,
    ms: Seq<Meld>,
)
    ensures
        forall|j: int|
            0 <= j < dfs(opts, i, left, cur, cs, five, ms).len() ==> built_from(
                #[trigger] dfs(opts, i, left, cur, cs, five, ms)[j],
                opts,
                i,
                left,
                cur,
                cs,
                five,
                ms,
            ),
    decreases left, opts.len() - i,
{
    if left == 0 {
        lemma_leaf_shape(cur, cs, five, ms, opts, i);
    } else if i < 0 || i >= opts.len() {
    } else {
        let nxt = add_set(cur, opts[i]);
        lemma_dfs_shape(opts, i, (left - 1) as nat, nxt, cs, five, ms);
        lemma_dfs_shape(opts, i + 1, left, cur, cs, five, ms);
        let a = dfs(opts, i, (left - 1) as nat, nxt, cs, five, ms);
        let b = dfs(opts, i + 1, left, cur, cs, five, ms);
        assert forall|j: int| 0 <= j < dfs(opts, i, left, cur, cs, five, ms).len() implies built_from(
            #[trigger] dfs(opts, i, left, cur, cs, five, ms)[j],
            opts,
            i,
            left,
            cur,
            cs,
            five,
            ms,
        ) by {
            let t = dfs(opts, i, left, cur, cs, five, ms)[j];
            if j < a.len() {
                assert(t == a[j]);
                assert(built_from(a[j], opts, i, (left - 1) as nat, nxt, cs, five, ms));
                let (ix, q) = choose|ix: Seq<int>, q: usize|
                    {
                        &&& ix.len() == (left - 1) as nat
                        &&& forall|k: int| 0 <= k < ix.len() ==> i <= #[trigger] ix[k] < opts.len()
                        &&& cs.contains(q)
                        &&& a[j] == with_pair(add_sets(nxt, chosen(opts, ix)), q)
                        &&& (five ==> five_gates_ok(a[j], ms))
                    };
                let ix2 = seq![i] + ix;
                assert(chosen(opts, ix2).drop_first() =~= chosen(opts, ix));
                assert(chosen(opts, ix2)[0] == opts[i]);
                assert(add_sets(cur, chosen(opts, ix2)) == add_sets(nxt, chosen(opts, ix)));
                assert forall|k: int| 0 <= k < ix2.len() implies i <= #[trigger] ix2[k] < opts.len() by {
                    if k > 0 {
                        assert(ix2[k] == ix[k - 1]);
                    }
                }
            } else {
                assert(t == b[j - a.len()]);
                assert(built_from(b[j - a.len()], opts, i + 1, left, cur, cs, five, ms));
                let (ix, q) = choose|ix: Seq<int>, q: usize|
                    {
                        &&& ix.len() == left
                        &&& forall|k: int| 0 <= k < ix.len() ==> i + 1 <= #[trigger] ix[k] < opts.len()
                        &&& cs.contains(q)
                        &&& b[j - a.len()] == with_pair(add_sets(cur, chosen(opts, ix)), q)
                        &&& (five ==> five_gates_ok(b[j - a.len()], ms))
                    };
                assert forall|k: int| 0 <= k < ix.len() implies i <= #[trigger] ix[k] < opts.len() by {}
            }
        }
    }
}

/// The standard shape found is the forced sets, then as many sets as are
/// still missing taken from the search's candidate sets, then a pair
/// candidate; with the five kinds when they are asked for.
pub proof fn lemma_best_forced_shape(
    h: Seq<u8>,
    ms: Seq<Meld>,
    f: Filter,
    runs: bool,
    five: bool,
    forced: Seq<Seq<usize>>,
    pair: Option<usize>,
)
    ensures
        spec_best_forced(h, ms, f, runs, five, forced, pair) matches Some(b) ==> built_from(
            b.1,
            sorted_opts(h, spec_opts(f, runs)),
            0,
            (4 - ms.len() - forced.len()) as nat,
            forced_upto(forced, forced.len() as int),
            pair_cands(f, pair),
            five,
            ms,
        ),
{
    lemma_best_forced_optimal(h, ms, f, runs, five, forced, pair);
    let os = sorted_opts(h, spec_opts(f, runs));
    let left = (4 - ms.len() - forced.len()) as nat;
    let cur = forced_upto(forced, forced.len() as int);
    let cs = pair_cands(f, pair);
    lemma_dfs_shape(os, 0, left, cur, cs, five, ms);
    let r = spec_best_forced(h, ms, f, runs, five, forced, pair);
    if r is Some {
        let b = r->0;
        let ts = dfs(os, 0, left, cur, cs, five, ms);
        let j = choose|j: int| 0 <= j < ts.len() && ts[j] == b.1;
        assert(built_from(ts[j], os, 0, left, cur, cs, five, ms));
    }
}

/// The standard shape found covers at least as much of the hand as any
/// target of the search, and is one of them.
pub proof fn lemma_best_forced_optimal(
    h: Seq<u8>,
    ms: Seq<Meld>,
    f: Filter,
    runs: bool,
    five: bool,
    forced: Seq<Seq<usize>>,
    pair: Option<usize>,
)
    ensures
        ({
            let r = spec_best_forced(h, ms, f, runs, five, forced, pair);
            let ts = dfs(
                sorted_opts(h, spec_opts(f, runs)),
                0,
                (4 - ms.len() - forced.len()) as nat,
                forced_upto(forced, forced.len() as int),
                pair_cands(f, pair),
                five,
                ms,
            );
            &&& r is None <==> (forced_excluded(ms, f, runs, forced, pair) || ts.len() == 0)
            &&& r matches Some(b) ==> {
                &&& b.0 == spec_cover(h, b.1)
                &&& exists|j: int| 0 <= j < ts.len() && ts[j] == b.1
                &&& forall|k: int| 0 <= k < ts.len() ==> spec_cover(h, #[trigger] ts[k]) <= b.0
            }
        }),
{
    reveal(spec_best_forced);
    let ts = dfs(
        sorted_opts(h, spec_opts(f, runs)),
        0,
        (4 - ms.len() - forced.len()) as nat,
        forced_upto(forced, forced.len() as int),
        pair_cands(f, pair),
        five,
        ms,
    );
    lemma_pick_best(h, ts);
}


pub proof fn lemma_add_set_sum(c: Seq<u8>, s: Seq<usize>, left: int)
    requires
        room(c, left),
        left >= 1,
        s.len() == 3,
        s[0] < 34,
        s[1] < 34,
        s[2] < 34,
    ensures
        sum_upto(add_set(c, s), 34) == sum_upto(c, 34) + 3,
{
    let c1 = inc(c, s[0]);
    let c2 = inc(c1, s[1]);
    lemma_sum_update(c, s[0] as int, (c[s[0] as int] + 1) as u8, 34);
    lemma_sum_update(c1, s[1] as int, (c1[s[1] as int] + 1) as u8, 34);
    lemma_sum_update(c2, s[2] as int, (c2[s[2] as int] + 1) as u8, 34);
}

proof fn lemma_leaf_sums(cur: Seq<u8>, cs: Seq<usize>, five: bool, ms: Seq<Meld>)
    requires
        room(cur, 0),
        forall|j: int| 0 <= j < cs.len() ==> #[trigger] cs[j] < 34,
    ensures
        forall|j: int|
            0 <= j < leaf_targets(cur, cs, five, ms).len() ==> sum_upto(
                #[trigger] leaf_targets(cur, cs, five, ms)[j],
                34,
            ) == sum_upto(cur, 34) + 2,
    decreases cs.len(),
{
    if cs.len() > 0 {
        let p = cs.last();
        lemma_leaf_sums(cur, cs.drop_last(), five, ms);
        lemma_sum_update(cur, p as int, sat_add(cur[p as int], 2), 34);
        let a = leaf_targets(cur, cs.drop_last(), five, ms);
        assert forall|j: int| 0 <= j < leaf_targets(cur, cs, five, ms).len() implies sum_upto(
            #[trigger] leaf_targets(cur, cs, five, ms)[j],
            34,
        ) == sum_upto(cur, 34) + 2 by {
            if j < a.len() {
                assert(leaf_targets(cur, cs, five, ms)[j] == a[j]);
            } else {
                assert(leaf_targets(cur, cs, five, ms)[j] == with_pair(cur, p));
            }
        }
    }
}

/// Every target of the search holds three tiles per set still to add and
/// two for the pair beyond `cur`.
pub proof fn lemma_dfs_sums(
    opts: Seq<Seq<usize>>,
    i: int,
    left: nat,
    cur: Seq<u8>,
    cs: Seq<usize>,
    five: bool,
    ms: Seq<Meld>,
)
    requires
        sets_ok(opts),
        room(cur, left as int),
        forall|j: int| 0 <= j < cs.len() ==> #[trigger] cs[j] < 34,
    ensures
        forall|j: int|
            0 <= j < dfs(opts, i, left, cur, cs, five, ms).len() ==> sum_upto(
                #[trigger] dfs(opts, i, left, cur, cs, five, ms)[j],
                34,
            ) == sum_upto(cur, 34) + 3 * left + 2,
    decreases left, opts.len() - i,
{
    if left == 0 {
        lemma_leaf_sums(cur, cs, five, ms);
    } else if i < 0 || i >= opts.len() {
    } else {
        let nxt = add_set(cur, opts[i]);
        lemma_add_set(cur, cur, opts[i], left as int);
        lemma_add_set_sum(cur, opts[i], left as int);
        lemma_dfs_sums(opts, i, (left - 1) as nat, nxt, cs, five, ms);
        lemma_dfs_sums(opts, i + 1, left, cur, cs, five, ms);
        let a = dfs(opts, i, (left - 1) as nat, nxt, cs, five, ms);
        let b = dfs(opts, i + 1, left, cur, cs, five, ms);
        assert forall|j: int| 0 <= j < dfs(opts, i, left, cur, cs, five, ms).len() implies sum_upto(
            #[trigger] dfs(opts, i, left, cur, cs, five, ms)[j],
            34,
        ) == sum_upto(cur, 34) + 3 * left + 2 by {
            if j < a.len() {
                assert((a + b)[j] == a[j]);
            } else {
                assert((a + b)[j] == b[j - a.len()]);
            }
        }
    }
}

pub proof fn lemma_forced_upto(fs: Seq<Seq<usize>>, k: int)
    requires
        sets_ok(fs),
        0 <= k <= fs.len(),
        k <= 4,
    ensures
        room(forced_upto(fs, k), 4 - k),
        sum_upto(forced_upto(fs, k), 34) == 3 * k,
    decreases k,
{
    if k > 0 {
        lemma_forced_upto(fs, k - 1);
        lemma_add_set(forced_upto(fs, k - 1), forced_upto(fs, k - 1), fs[k - 1], 4 - (k - 1));
        lemma_add_set_sum(forced_upto(fs, k - 1), fs[k - 1], 4 - (k - 1));
    } else {
        assert(sum_upto(zeros(), 34) == 0) by {
            lemma_zeros_sum(34);
        }
    }
}

proof fn lemma_zeros_sum(n: int)
    requires
        0 <= n <= 34,
    ensures
        sum_upto(zeros(), n) == 0,
    decreases n,
{
    if n > 0 {
        lemma_zeros_sum(n - 1);
    }
}

/// A standard shape beside `m` melds holds 3 * (4 - m) + 2 tiles; so for a
/// hand of one tile fewer the tiles to draw are one more than the tiles to
/// discard, and the tiles to discard are as many as the hand holds beyond
/// the cover.
pub proof fn lemma_need_one_more(
    h: Seq<u8>,
    ms: Seq<Meld>,
    f: Filter,
    runs: bool,
    five: bool,
    forced: Seq<Seq<usize>>,
    pair: Option<usize>,
)
    requires
        h.len() == 34,
    ensures
        spec_best_forced(h, ms, f, runs, five, forced, pair) matches Some(b) ==> {
            &&& b.1.len() == 34
            &&& ms.len() <= 4
            &&& seq_sum(b.1) == 3 * (4 - ms.len()) + 2
            &&& spec_drop(h, b.1).len() == seq_sum(h) - b.0
            &&& spec_need(h, b.1).len() == seq_sum(b.1) - b.0
            &&& seq_sum(h) == 3 * (4 - ms.len()) + 1 ==> spec_need(h, b.1).len() == spec_drop(h, b.1).len() + 1
        },
{
    lemma_best_forced_optimal(h, ms, f, runs, five, forced, pair);
    let r = spec_best_forced(h, ms, f, runs, five, forced, pair);
    if r is Some {
        let b = r->0;
        reveal(spec_best_forced);
        let left = (4 - ms.len() - forced.len()) as nat;
        let cur = forced_upto(forced, forced.len() as int);
        let os = sorted_opts(h, spec_opts(f, runs));
        let cs = pair_cands(f, pair);
        let ts = dfs(os, 0, left, cur, cs, five, ms);
        lemma_forced_upto(forced, forced.len() as int);
        lemma_sorted_opts_ok(h, f, runs);
        lemma_tiles_passing(f, 34);
        lemma_dfs_sums(os, 0, left, cur, cs, five, ms);
        let j = choose|j: int| 0 <= j < ts.len() && ts[j] == b.1;
        assert(sum_upto(ts[j], 34) == 3 * forced.len() + 3 * left + 2);
        assert(b.1.len() == 34) by {
            lemma_dfs_len(os, 0, left, cur, cs, five, ms);
        }
        lemma_total(b.1);
        lemma_total(h);
        lemma_excess_len(h, b.1, 34);
        lemma_excess_len(b.1, h, 34);
    }
}

proof fn lemma_leaf_len(cur: Seq<u8>, cs: Seq<usize>, five: bool, ms: Seq<Meld>)
    requires
        cur.len() == 34,
        forall|j: int| 0 <= j < cs.len() ==> #[trigger] cs[j] < 34,
    ensures
        forall|j: int|
            0 <= j < leaf_targets(cur, cs, five, ms).len() ==> (#[trigger] leaf_targets(cur, cs, five, ms)[j]).len() == cur.len(),
    decreases cs.len(),
{
    if cs.len() > 0 {
        lemma_leaf_len(cur, cs.drop_last(), five, ms);
        let a = leaf_targets(cur, cs.drop_last(), five, ms);
        assert forall|j: int| 0 <= j < leaf_targets(cur, cs, five, ms).len() implies (#[trigger] leaf_targets(cur, cs, five, ms)[j]).len() == cur.len() by {
            if j < a.len() {
                assert(leaf_targets(cur, cs, five, ms)[j] == a[j]);
            }
        }
    }
}

proof fn lemma_dfs_len(
    opts: Seq<Seq<usize>>,
    i: int,
    left: nat,
    cur: Seq<u8>,
    cs: Seq<usize>,
    five: bool,
    ms: Seq<Meld>,
)
    requires
        cur.len() == 34,
        sets_ok(opts),
        forall|j: int| 0 <= j < cs.len() ==> #[trigger] cs[j] < 34,
    ensures
        forall|j: int|
            0 <= j < dfs(opts, i, left, cur, cs, five, ms).len() ==> (#[trigger] dfs(opts, i, left, cur, cs, five, ms)[j]).len() == cur.len(),
    decreases left, opts.len() - i,
{
    if left == 0 {
        lemma_leaf_len(cur, cs, five, ms);
    } else if i < 0 || i >= opts.len() {
    } else {
        let nxt = add_set(cur, opts[i]);
        lemma_dfs_len(opts, i, (left - 1) as nat, nxt, cs, five, ms);
        lemma_dfs_len(opts, i + 1, left, cur, cs, five, ms);
        let a = dfs(opts, i, (left - 1) as nat, nxt, cs, five, ms);
        let b = dfs(opts, i + 1, left, cur, cs, five, ms);
        assert forall|j: int| 0 <= j < dfs(opts, i, left, cur, cs, five, ms).len() implies (#[trigger] dfs(opts, i, left, cur, cs, five, ms)[j]).len() == cur.len() by {
            if j < a.len() {
                assert((a + b)[j] == a[j]);
            } else {
                assert((a + b)[j] == b[j - a.len()]);
            }
        }
    }
}


proof fn lemma_opts_ok(f: Filter, runs: bool, n: int)
    requires
        0 <= n <= 34,
    ensures
        sets_ok(opts_upto(f, runs, n)),
    decreases n,
{
    if n > 0 {
        lemma_opts_ok(f, runs, n - 1);
        let t = (n - 1) as usize;
        let a = opts_upto(f, runs, n - 1);
        let b: Seq<Seq<usize>> = if filter_ok(f, t) {
            seq![seq![t, t, t]]
        } else {
            Seq::empty()
        };
        let c: Seq<Seq<usize>> = if runs && is_suited(t) && num(t) <= 7 && filter_ok(f, (t + 1) as usize) && filter_ok(
            f,
            (t + 2) as usize,
        ) {
            seq![seq![t, (t + 1) as usize, (t + 2) as usize]]
        } else {
            Seq::empty()
        };
        assert(opts_upto(f, runs, n) == a + b + c);
        assert forall|k: int| 0 <= k < (a + b + c).len() implies (#[trigger] (a + b + c)[k]).len() == 3
            && (a + b + c)[k][0] < 34 && (a + b + c)[k][1] < 34 && (a + b + c)[k][2] < 34 by {
            if k < a.len() {
                assert((a + b + c)[k] == a[k]);
            } else if k < a.len() + b.len() {
                assert((a + b + c)[k] == b[k - a.len()]);
            } else {
                assert((a + b + c)[k] == c[k - a.len() - b.len()]);
            }
        }
    }
}

proof fn lemma_with_key_ok(h: Seq<u8>, os: Seq<Seq<usize>>, v: int, n: int)
    requires
        sets_ok(os),
        0 <= n <= os.len(),
    ensures
        sets_ok(with_key(h, os, v, n)),
    decreases n,
{
    if n > 0 {
        lemma_with_key_ok(h, os, v, n - 1);
        let a = with_key(h, os, v, n - 1);
        assert forall|k: int| 0 <= k < with_key(h, os, v, n).len() implies (#[trigger] with_key(h, os, v, n)[k]).len() == 3
            && with_key(h, os, v, n)[k][0] < 34 && with_key(h, os, v, n)[k][1] < 34 && with_key(h, os, v, n)[k][2] < 34 by {
            if k < a.len() {
                assert(with_key(h, os, v, n)[k] == a[k]);
            } else {
                assert(with_key(h, os, v, n)[k] == os[n - 1]);
            }
        }
    }
}

proof fn lemma_keys_down_ok(h: Seq<u8>, os: Seq<Seq<usize>>, v: int)
    requires
        sets_ok(os),
    ensures
        sets_ok(keys_down_to(h, os, v)),
    decreases 766 - v,
{
    if v < 766 {
        lemma_keys_down_ok(h, os, v + 1);
        lemma_with_key_ok(h, os, v, os.len() as int);
        let a = keys_down_to(h, os, v + 1);
        let b = with_key(h, os, v, os.len() as int);
        assert forall|k: int| 0 <= k < (a + b).len() implies (#[trigger] (a + b)[k]).len() == 3
            && (a + b)[k][0] < 34 && (a + b)[k][1] < 34 && (a + b)[k][2] < 34 by {
            if k < a.len() {
                assert((a + b)[k] == a[k]);
            } else {
                assert((a + b)[k] == b[k - a.len()]);
            }
        }
    }
}

pub proof fn lemma_sorted_opts_ok(h: Seq<u8>, f: Filter, runs: bool)
    ensures
        sets_ok(sorted_opts(h, spec_opts(f, runs))),
{
    lemma_opts_ok(f, runs, 34);
    lemma_keys_down_ok(h, spec_opts(f, runs), 0);
}

/// What the planner asks of the melds: their tiles can be listed, and with
/// at most four melds (when the shape searches can use them) they are on
/// the tile range.
pub open spec fn plan_melds_ok(ms: Seq<Meld>) -> bool {
    tiles_fit(ms) && (ms.len() <= 4 ==> crate::calc::melds_in_range(ms))
}

/// Melds on the tile range can list their tiles.
pub proof fn lemma_in_range_fits(ms: Seq<Meld>)
    requires
        crate::calc::melds_in_range(ms),
    ensures
        tiles_fit(ms),
{
    assert forall|i: int| 0 <= i < ms.len() implies (#[trigger] ms[i]).kind == MeldKind::Chi ==> ms[i].tile + 2 <= usize::MAX by {
        assert(ms[i].kind == MeldKind::Chi ==> ms[i].tile + 2 < 34);
    }
}

} // verus!
