//! Facts about a winning hand that many patterns read: the runs and
//! triplets of a decomposition, the suits and kinds of tiles held.
use vstd::prelude::*;
use crate::decompose::{Group, SetKind};
use crate::plan::{filter_ok, Filter};
use crate::tiles::{is_terminal_or_honor, num, suit, Counts, NUM_TILES};

verus! {

/// Lowest tiles of the runs among `ds`, in order.
pub open spec fn run_tiles(ds: Seq<Group>) -> Seq<usize>
    decreases ds.len(),
{
    if ds.len() == 0 {
        Seq::empty()
    } else {
        run_tiles(ds.drop_last()) + if ds.last().kind == SetKind::Run {
            seq![ds.last().tile]
        } else {
            Seq::empty()
        }
    }
}

/// Tiles of the triplets (kans included) among `ds`, in order.
pub open spec fn trip_tiles(ds: Seq<Group>) -> Seq<usize>
    decreases ds.len(),
{
    if ds.len() == 0 {
        Seq::empty()
    } else {
        trip_tiles(ds.drop_last()) + if ds.last().kind == SetKind::Triplet {
            seq![ds.last().tile]
        } else {
            Seq::empty()
        }
    }
}

pub proof fn lemma_run_tiles_len(ds: Seq<Group>)
    ensures
        run_tiles(ds).len() <= ds.len(),
        trip_tiles(ds).len() <= ds.len(),
    decreases ds.len(),
{
    if ds.len() > 0 {
        lemma_run_tiles_len(ds.drop_last());
    }
}

/// The lowest tiles of the runs of a decomposition.
pub fn runs_of(sets: &Vec<Group>) -> (v: Vec<usize>)
    ensures
        v@ == run_tiles(sets@),
{
    let mut v: Vec<usize> = Vec::new();
    let mut i: usize = 0;
    while i < sets.len()
        invariant
            i <= sets@.len(),
            v@ == run_tiles(sets@.subrange(0, i as int)),
        decreases sets@.len() - i,
    {
        assert(sets@.subrange(0, i + 1).drop_last() =~= sets@.subrange(0, i as int));
        if sets[i].kind == SetKind::Run {
            v.push(sets[i].tile);
        }
        i = i + 1;
        assert(v@ =~= run_tiles(sets@.subrange(0, i as int)));
    }
    assert(sets@.subrange(0, sets@.len() as int) =~= sets@);
    v
}

/// The tiles of the triplets of a decomposition.
pub fn trips_of(sets: &Vec<Group>) -> (v: Vec<usize>)
    ensures
        v@ == trip_tiles(sets@),
{
    let mut v: Vec<usize> = Vec::new();
    let mut i: usize = 0;
    while i < sets.len()
        invariant
            i <= sets@.len(),
            v@ == trip_tiles(sets@.subrange(0, i as int)),
        decreases sets@.len() - i,
    {
        assert(sets@.subrange(0, i + 1).drop_last() =~= sets@.subrange(0, i as int));
        if sets[i].kind == SetKind::Triplet {
            v.push(sets[i].tile);
        }
        i = i + 1;
        assert(v@ =~= trip_tiles(sets@.subrange(0, i as int)));
    }
    assert(sets@.subrange(0, sets@.len() as int) =~= sets@);
    v
}

/// How many elements of `v` lie in `lo ..= hi`.
pub open spec fn count_between(v: Seq<usize>, lo: int, hi: int) -> int
    decreases v.len(),
{
    if v.len() == 0 {
        0
    } else {
        count_between(v.drop_last(), lo, hi) + if lo <= v.last() <= hi {
            1int
        } else {
            0int
        }
    }
}

pub fn count_in(v: &Vec<usize>, lo: usize, hi: usize) -> (r: usize)
    ensures
        r == count_between(v@, lo as int, hi as int),
{
    let mut r: usize = 0;
    let mut i: usize = 0;
    while i < v.len()
        invariant
            i <= v@.len(),
            r <= i,
            r == count_between(v@.subrange(0, i as int), lo as int, hi as int),
        decreases v@.len() - i,
    {
        assert(v@.subrange(0, i + 1).drop_last() =~= v@.subrange(0, i as int));
        if lo <= v[i] && v[i] <= hi {
            r = r + 1;
        }
        i = i + 1;
    }
    assert(v@.subrange(0, v@.len() as int) =~= v@);
    r
}

/// The hand holds some tile of kind `lo ..= hi`.
pub open spec fn held_in(all: Counts, lo: int, hi: int) -> bool {
    exists|t: int| lo <= t <= hi && 0 <= t < 34 && #[trigger] all@[t] > 0
}

pub fn any_held(all: &Counts, lo: usize, hi: usize) -> (r: bool)
    requires
        lo <= hi < 34,
    ensures
        r == held_in(*all, lo as int, hi as int),
{
    let mut t: usize = lo;
    while t <= hi
        invariant
            lo <= t,
            hi < 34,
            t <= hi + 1,
            forall|u: int| lo <= u < t ==> #[trigger] all@[u] == 0,
        decreases hi + 1 - t,
    {
        if all[t] > 0 {
            return true;
        }
        t = t + 1;
    }
    false
}

/// The hand holds some tile of suit `s` (0..2).
pub open spec fn suit_held(all: Counts, s: int) -> bool {
    held_in(all, s * 9, s * 9 + 8)
}

/// How many of the three suits the hand holds.
pub open spec fn suit_count(all: Counts) -> int {
    (if suit_held(all, 0) { 1int } else { 0int }) + (if suit_held(all, 1) { 1int } else { 0int }) + (
    if suit_held(all, 2) {
        1int
    } else {
        0int
    })
}

/// Which of the three suits the hand holds.
pub fn suits_present(all: &Counts) -> (p: [bool; 3])
    ensures
        forall|s: int| 0 <= s < 3 ==> #[trigger] p@[s] == suit_held(*all, s),
{
    let p = [any_held(all, 0, 8), any_held(all, 9, 17), any_held(all, 18, 26)];
    assert(p@[0] == suit_held(*all, 0));
    assert(p@[1] == suit_held(*all, 1));
    assert(p@[2] == suit_held(*all, 2));
    p
}

pub fn suits_held(all: &Counts) -> (n: usize)
    ensures
        n == suit_count(*all),
        n <= 3,
{
    let p = suits_present(all);
    let mut n: usize = 0;
    if p[0] {
        n = n + 1;
    }
    if p[1] {
        n = n + 1;
    }
    if p[2] {
        n = n + 1;
    }
    n
}

/// The hand holds an honor.
pub open spec fn honor_held(all: Counts) -> bool {
    held_in(all, 27, 33)
}

pub fn has_honor(all: &Counts) -> (r: bool)
    ensures
        r == honor_held(*all),
{
    any_held(all, 27, 33)
}

/// Every tile the hand holds passes filter `f`.
pub open spec fn all_pass(all: Counts, f: Filter) -> bool {
    forall|t: int| 0 <= t < 34 ==> #[trigger] all@[t] == 0 || filter_ok(f, t as usize)
}

pub fn all_tiles_pass(all: &Counts, f: Filter) -> (r: bool)
    ensures
        r == all_pass(*all, f),
{
    let mut t: usize = 0;
    while t < NUM_TILES
        invariant
            t <= 34,
            forall|u: int| 0 <= u < t ==> #[trigger] all@[u] == 0 || filter_ok(f, u as usize),
        decreases 34 - t,
    {
        if all[t] != 0 && !f.ok(t) {
            return false;
        }
        t = t + 1;
    }
    true
}

/// The hand holds no terminal and no honor.
pub open spec fn all_simples(all: Counts) -> bool {
    forall|t: int| 0 <= t < 34 ==> #[trigger] all@[t] == 0 || !is_terminal_or_honor(t as usize)
}

pub fn all_tiles_simple(all: &Counts) -> (r: bool)
    ensures
        r == all_simples(*all),
{
    let mut t: usize = 0;
    while t < NUM_TILES
        invariant
            t <= 34,
            forall|u: int| 0 <= u < t ==> #[trigger] all@[u] == 0 || !is_terminal_or_honor(u as usize),
        decreases 34 - t,
    {
        if all[t] != 0 && is_terminal_or_honor(t) {
            return false;
        }
        t = t + 1;
    }
    true
}

/// Some tile of `v` has suit `s` and rank `n`.
pub open spec fn present(v: Seq<usize>, s: int, n: int) -> bool {
    exists|i: int| 0 <= i < v.len() && suit(#[trigger] v[i]) == s && num(v[i]) == n
}

/// Which (suit, rank) pairs the tiles of `v` cover: entry `s * 10 + n`.
pub fn presence(v: &Vec<usize>) -> (p: [bool; 30])
    ensures
        forall|s: int, n: int|
            #![trigger p@[s * 10 + n]]
            #![trigger present(v@, s, n)]
            0 <= s < 3 && 0 <= n < 10 ==> p@[s * 10 + n] == present(v@, s, n),
{
    let mut p: [bool; 30] = [false; 30];
    let mut i: usize = 0;
    while i < v.len()
        invariant
            i <= v@.len(),
            p@.len() == 30,
            forall|s: int, n: int|
                0 <= s < 3 && 0 <= n < 10 ==> #[trigger] p@[s * 10 + n] == exists|j: int|
                    0 <= j < i && suit(#[trigger] v@[j]) == s && num(v@[j]) == n,
        decreases v@.len() - i,
    {
        let t = v[i];
        let s = suit(t);
        if s < 3 {
            let n = num(t);
            p[s * 10 + n] = true;
            assert forall|s2: int, n2: int| 0 <= s2 < 3 && 0 <= n2 < 10 implies #[trigger] p@[s2 * 10 + n2] == exists|j: int|
                0 <= j < i + 1 && suit(#[trigger] v@[j]) == s2 && num(v@[j]) == n2 by {
                if s2 == s && n2 == n {
                    assert(suit(v@[i as int]) == s2 && num(v@[i as int]) == n2);
                } else {
                    assert(s2 * 10 + n2 != s * 10 + n);
                }
            }
        }
        i = i + 1;
    }
    p
}

} // verus!
