//! Patterns of the standard shape (four sets and a pair).
use vstd::prelude::*;
use crate::decompose::{Group, SetKind};
use crate::fans::facts::{
    all_pass, all_simples, all_tiles_pass, all_tiles_simple, count_between, count_in, held_in,
    honor_held, present, presence, run_tiles, suit_count, trip_tiles, any_held,
};
use crate::fans::{f, mk, Fan, FanKind, WinCtx, WinModel};
use crate::fans::pairs::{pair_fans, pair_part};
use crate::plan::Filter;
use crate::tiles::{
    is_dragon, is_suited, is_terminal, is_terminal_or_honor, is_wind, num, seq_sum, suit, total,
    Counts, NUM_TILES,
};

verus! {

/// `fan` if `b`, else nothing.
pub open spec fn opt(b: bool, fan: Fan) -> Seq<Fan> {
    if b {
        seq![fan]
    } else {
        Seq::empty()
    }
}

/// Facts of a standard interpretation computed once.
pub struct Facts {
    pub runs: Vec<usize>,
    pub trips: Vec<usize>,
    pub pair: usize,
    pub nsuit: usize,
    pub honor: bool,
}

/// `h` holds the facts of the standard interpretation in `ctx`.
pub open spec fn facts_of(h: Facts, ctx: WinModel) -> bool {
    &&& ctx.decomp.pair == Some(h.pair)
    &&& h.runs@ == run_tiles(ctx.decomp.sets)
    &&& h.trips@ == trip_tiles(ctx.decomp.sets)
    &&& h.nsuit == suit_count(ctx.all)
    &&& h.honor == honor_held(ctx.all)
}

// ----- honors and colors -----

/// A nine-gates hand in suit `s`: 1112345678999 of the suit plus one more,
/// nothing else.
pub open spec fn gates_in(all: Counts, s: int) -> bool {
    &&& forall|i: int| 0 <= i < 34 && !(s * 9 <= i < s * 9 + 9) ==> #[trigger] all@[i] == 0
    &&& all@[s * 9] >= 3
    &&& all@[s * 9 + 8] >= 3
    &&& forall|i: int| 1 <= i <= 7 ==> #[trigger] all@[s * 9 + i] >= 1
    &&& seq_sum(all@) == 14
}

pub open spec fn nine_gates(all: Counts) -> bool {
    exists|s: int| 0 <= s < 3 && #[trigger] gates_in(all, s)
}

pub open spec fn big_honor_fans(ctx: WinModel) -> Seq<Fan> {
    let pair = ctx.decomp.pair->0;
    let trips = trip_tiles(ctx.decomp.sets);
    let w = count_between(trips, 27, 30);
    let dr = count_between(trips, 31, 33);
    opt(w == 4, mk(FanKind::DaSiXi, 88)) + opt(dr == 3, mk(FanKind::DaSanYuan, 88)) + opt(
        w == 3 && is_wind(pair),
        mk(FanKind::XiaoSiXi, 64),
    ) + opt(dr == 2 && is_dragon(pair), mk(FanKind::XiaoSanYuan, 64))
}

/// One-suit patterns: all honors, full flush, half flush.
pub open spec fn flush_fans(ns: int, h: bool) -> Seq<Fan> {
    if ns == 0 {
        seq![mk(FanKind::ZiYiSe, 64)]
    } else if ns == 1 && !h {
        seq![mk(FanKind::QingYiSe, 24)]
    } else if ns == 1 && h {
        seq![mk(FanKind::HunYiSe, 6)]
    } else {
        Seq::empty()
    }
}

pub open spec fn terminal_fans(all: Counts) -> Seq<Fan> {
    if all_pass(all, Filter::TermNum) {
        seq![mk(FanKind::QingYaoJiu, 64)]
    } else if all_pass(all, Filter::TermHonor) {
        seq![mk(FanKind::HunYaoJiu, 32)]
    } else {
        Seq::empty()
    }
}

pub open spec fn honor_color_fans(ctx: WinModel) -> Seq<Fan> {
    let all = ctx.all;
    big_honor_fans(ctx) + flush_fans(suit_count(all), honor_held(all)) + opt(
        all_pass(all, Filter::Green),
        mk(FanKind::LvYiSe, 88),
    ) + terminal_fans(all) + opt(nine_gates(all), mk(FanKind::JiuLianBaoDeng, 88))
}

pub fn flush_part(ns: usize, h: bool) -> (v: Vec<Fan>)
    ensures
        v@ == flush_fans(ns as int, h),
{
    let mut v: Vec<Fan> = Vec::new();
    if ns == 0 {
        v.push(f(FanKind::ZiYiSe, 64));
    } else if ns == 1 && !h {
        v.push(f(FanKind::QingYiSe, 24));
    } else if ns == 1 && h {
        v.push(f(FanKind::HunYiSe, 6));
    }
    assert(v@ =~= flush_fans(ns as int, h));
    v
}

fn gates_check(all: &Counts, s: usize) -> (r: bool)
    requires
        s < 3,
    ensures
        r == gates_in(*all, s as int),
{
    let b = s * 9;
    let mut i: usize = 0;
    while i < NUM_TILES
        invariant
            i <= 34,
            b == s * 9,
            s < 3,
            forall|j: int| 0 <= j < i && !(b <= j < b + 9) ==> #[trigger] all@[j] == 0,
        decreases 34 - i,
    {
        if !(i >= b && i < b + 9) && all[i] != 0 {
            return false;
        }
        i = i + 1;
    }
    if !(all[b] >= 3 && all[b + 8] >= 3) {
        return false;
    }
    let mut k: usize = 1;
    while k <= 7
        invariant
            1 <= k <= 8,
            b == s * 9,
            s < 3,
            forall|j: int| 1 <= j < k ==> #[trigger] all@[b + j] >= 1,
        decreases 8 - k,
    {
        if all[b + k] < 1 {
            return false;
        }
        k = k + 1;
    }
    total(all) == 14
}

fn big_honor_part(ctx: &WinCtx, h: &Facts) -> (v: Vec<Fan>)
    requires
        facts_of(*h, ctx@),
    ensures
        v@ == big_honor_fans(ctx@),
{
    let pair = h.pair;
    let w = count_in(&h.trips, 27, 30);
    let dr = count_in(&h.trips, 31, 33);
    let mut v: Vec<Fan> = Vec::new();
    if w == 4 {
        v.push(f(FanKind::DaSiXi, 88));
    }
    if dr == 3 {
        v.push(f(FanKind::DaSanYuan, 88));
    }
    let ghost p1 = v@;
    if w == 3 && is_wind(pair) {
        v.push(f(FanKind::XiaoSiXi, 64));
    }
    if dr == 2 && is_dragon(pair) {
        v.push(f(FanKind::XiaoSanYuan, 64));
    }
    assert(v@ =~= p1 + opt(w == 3 && is_wind(pair), mk(FanKind::XiaoSiXi, 64)) + opt(
        dr == 2 && is_dragon(pair),
        mk(FanKind::XiaoSanYuan, 64),
    ));
    assert(v@ =~= big_honor_fans(ctx@));
    v
}

fn honor_color_part(ctx: &WinCtx, h: &Facts) -> (v: Vec<Fan>)
    requires
        facts_of(*h, ctx@),
    ensures
        v@ == honor_color_fans(ctx@),
{
    let all = ctx.all;
    let mut v = big_honor_part(ctx, h);
    let mut a = flush_part(h.nsuit, h.honor);
    v.append(&mut a);
    let ghost p2 = v@;
    if all_tiles_pass(all, Filter::Green) {
        v.push(f(FanKind::LvYiSe, 88));
    }
    assert(v@ =~= p2 + opt(all_pass(*all, Filter::Green), mk(FanKind::LvYiSe, 88)));
    let ghost p3 = v@;
    if all_tiles_pass(all, Filter::TermNum) {
        v.push(f(FanKind::QingYaoJiu, 64));
    } else if all_tiles_pass(all, Filter::TermHonor) {
        v.push(f(FanKind::HunYaoJiu, 32));
    }
    assert(v@ =~= p3 + terminal_fans(*all));
    let ghost p4 = v@;
    let mut s: usize = 0;
    let mut gates = false;
    while s < 3
        invariant
            s <= 3,
            gates == exists|s2: int| 0 <= s2 < s && #[trigger] gates_in(*all, s2),
        decreases 3 - s,
    {
        if gates_check(all, s) {
            gates = true;
        }
        s = s + 1;
    }
    if gates {
        v.push(f(FanKind::JiuLianBaoDeng, 88));
    }
    assert(v@ =~= p4 + opt(nine_gates(*all), mk(FanKind::JiuLianBaoDeng, 88)));
    assert(v@ =~= honor_color_fans(ctx@));
    v
}


// ----- kans and triplets -----

/// Kans, concealed kans and exposed kans among `ds`.
pub open spec fn kan_counts(ds: Seq<Group>) -> (int, int, int)
    decreases ds.len(),
{
    if ds.len() == 0 {
        (0, 0, 0)
    } else {
        let r = kan_counts(ds.drop_last());
        let g = ds.last();
        (
            r.0 + if g.is_kan { 1int } else { 0int },
            r.1 + if g.is_kan && !g.open { 1int } else { 0int },
            r.2 + if g.is_kan && g.open { 1int } else { 0int },
        )
    }
}

pub open spec fn kan_fans(k: int, a: int, m: int) -> Seq<Fan> {
    if k >= 4 {
        seq![mk(FanKind::SiGang, 88)]
    } else if k == 3 {
        seq![mk(FanKind::SanGang, 32)]
    } else if k == 2 {
        if a == 2 {
            seq![mk(FanKind::ShuangAnGang, 6)]
        } else if m == 2 {
            seq![mk(FanKind::ShuangMingGang, 4)]
        } else {
            seq![mk(FanKind::YiMingYiAnGang, 5)]
        }
    } else if k == 1 {
        if a == 1 {
            seq![mk(FanKind::AnGang, 2)]
        } else {
            seq![mk(FanKind::MingGang, 1)]
        }
    } else {
        Seq::empty()
    }
}

/// A triplet held concealed: not from an exposed meld, and not completed by
/// the winning tile on a discard (a kan is never so completed).
pub open spec fn concealed_trip(g: Group, tsumo: bool, win: usize) -> bool {
    g.kind == SetKind::Triplet && !g.open && !(!tsumo && !g.is_kan && g.tile == win)
}

pub open spec fn concealed_trip_count(ds: Seq<Group>, tsumo: bool, win: usize) -> int
    decreases ds.len(),
{
    if ds.len() == 0 {
        0
    } else {
        concealed_trip_count(ds.drop_last(), tsumo, win) + if concealed_trip(ds.last(), tsumo, win) {
            1int
        } else {
            0int
        }
    }
}

pub open spec fn all_triplets(ds: Seq<Group>) -> bool {
    forall|i: int| 0 <= i < ds.len() ==> #[trigger] ds[i].kind == SetKind::Triplet
}

pub open spec fn concealed_fans(c: int) -> Seq<Fan> {
    if c == 4 {
        seq![mk(FanKind::SiAnKe, 64)]
    } else if c == 3 {
        seq![mk(FanKind::SanAnKe, 16)]
    } else if c == 2 {
        seq![mk(FanKind::ShuangAnKe, 2)]
    } else {
        Seq::empty()
    }
}

/// Dragon, prevailing-wind, seat-wind and terminal/honor triplets, one
/// triplet at a time; a dragon triplet counts only when it is the only one.
pub open spec fn one_trip_fans(t: usize, dr: int, round: usize, seat: usize) -> Seq<Fan> {
    if is_dragon(t) {
        opt(dr == 1, mk(FanKind::JianKe, 2))
    } else if is_wind(t) {
        opt(t == round, mk(FanKind::QuanFengKe, 2)) + opt(t == seat, mk(FanKind::MenFengKe, 2))
            + opt(t != round && t != seat, mk(FanKind::YaoJiuKe, 1))
    } else if is_terminal(t) {
        seq![mk(FanKind::YaoJiuKe, 1)]
    } else {
        Seq::empty()
    }
}

pub open spec fn trip_fans(trips: Seq<usize>, dr: int, round: usize, seat: usize) -> Seq<Fan>
    decreases trips.len(),
{
    if trips.len() == 0 {
        Seq::empty()
    } else {
        trip_fans(trips.drop_last(), dr, round, seat) + one_trip_fans(trips.last(), dr, round, seat)
    }
}

/// How many suited triplets of rank `n`.
pub open spec fn same_rank(trips: Seq<usize>, n: int) -> int
    decreases trips.len(),
{
    if trips.len() == 0 {
        0
    } else {
        same_rank(trips.drop_last(), n) + if is_suited(trips.last()) && num(trips.last()) == n {
            1int
        } else {
            0int
        }
    }
}

pub open spec fn same_rank_fans(trips: Seq<usize>) -> Seq<Fan> {
    if exists|n: int| 1 <= n <= 9 && #[trigger] same_rank(trips, n) >= 3 {
        seq![mk(FanKind::SanTongKe, 16)]
    } else if exists|n: int| 1 <= n <= 9 && #[trigger] same_rank(trips, n) == 2 {
        seq![mk(FanKind::ShuangTongKe, 2)]
    } else {
        Seq::empty()
    }
}

pub open spec fn triplet_fans(ctx: WinModel) -> Seq<Fan> {
    let ds = ctx.decomp.sets;
    let kc = kan_counts(ds);
    let pair = ctx.decomp.pair->0;
    let trips = trip_tiles(ds);
    let w = count_between(trips, 27, 30);
    let dr = count_between(trips, 31, 33);
    kan_fans(kc.0, kc.1, kc.2) + opt(all_triplets(ds), mk(FanKind::PengPengHe, 6)) + concealed_fans(
        concealed_trip_count(ds, ctx.tsumo, ctx.win_tile),
    ) + trip_fans(trips, dr, ctx.round_wind, ctx.seat_wind) + opt(
        w == 3 && !is_wind(pair),
        mk(FanKind::SanFengKe, 12),
    ) + opt(dr == 2, mk(FanKind::ShuangJianKe, 6)) + same_rank_fans(trips)
}

fn kan_part(sets: &Vec<Group>) -> (v: Vec<Fan>)
    ensures
        v@ == kan_fans(kan_counts(sets@).0, kan_counts(sets@).1, kan_counts(sets@).2),
{
    let mut k: usize = 0;
    let mut a: usize = 0;
    let mut m: usize = 0;
    let mut i: usize = 0;
    while i < sets.len()
        invariant
            i <= sets@.len(),
            k <= i,
            a <= i,
            m <= i,
            (k as int, a as int, m as int) == kan_counts(sets@.subrange(0, i as int)),
        decreases sets@.len() - i,
    {
        assert(sets@.subrange(0, i + 1).drop_last() =~= sets@.subrange(0, i as int));
        let g = sets[i];
        if g.is_kan {
            k = k + 1;
            if g.open {
                m = m + 1;
            } else {
                a = a + 1;
            }
        }
        i = i + 1;
    }
    assert(sets@.subrange(0, sets@.len() as int) =~= sets@);
    let mut v: Vec<Fan> = Vec::new();
    if k >= 4 {
        v.push(f(FanKind::SiGang, 88));
    } else if k == 3 {
        v.push(f(FanKind::SanGang, 32));
    } else if k == 2 {
        if a == 2 {
            v.push(f(FanKind::ShuangAnGang, 6));
        } else if m == 2 {
            v.push(f(FanKind::ShuangMingGang, 4));
        } else {
            v.push(f(FanKind::YiMingYiAnGang, 5));
        }
    } else if k == 1 {
        if a == 1 {
            v.push(f(FanKind::AnGang, 2));
        } else {
            v.push(f(FanKind::MingGang, 1));
        }
    }
    assert(v@ =~= kan_fans(k as int, a as int, m as int));
    v
}

fn concealed_count(sets: &Vec<Group>, tsumo: bool, win: usize) -> (c: usize)
    ensures
        c == concealed_trip_count(sets@, tsumo, win),
{
    let mut c: usize = 0;
    let mut i: usize = 0;
    while i < sets.len()
        invariant
            i <= sets@.len(),
            c <= i,
            c == concealed_trip_count(sets@.subrange(0, i as int), tsumo, win),
        decreases sets@.len() - i,
    {
        assert(sets@.subrange(0, i + 1).drop_last() =~= sets@.subrange(0, i as int));
        let g = sets[i];
        if g.kind == SetKind::Triplet && !g.open && !(!tsumo && !g.is_kan && g.tile == win) {
            c = c + 1;
        }
        i = i + 1;
    }
    assert(sets@.subrange(0, sets@.len() as int) =~= sets@);
    c
}

fn all_trips(sets: &Vec<Group>) -> (r: bool)
    ensures
        r == all_triplets(sets@),
{
    let mut i: usize = 0;
    while i < sets.len()
        invariant
            i <= sets@.len(),
            forall|j: int| 0 <= j < i ==> #[trigger] sets@[j].kind == SetKind::Triplet,
        decreases sets@.len() - i,
    {
        if sets[i].kind != SetKind::Triplet {
            return false;
        }
        i = i + 1;
    }
    true
}

fn one_trip_part(t: usize, dr: usize, round: usize, seat: usize) -> (v: Vec<Fan>)
    ensures
        v@ == one_trip_fans(t, dr as int, round, seat),
{
    let mut v: Vec<Fan> = Vec::new();
    if is_dragon(t) {
        if dr == 1 {
            v.push(f(FanKind::JianKe, 2));
        }
    } else if is_wind(t) {
        if t == round {
            v.push(f(FanKind::QuanFengKe, 2));
        }
        if t == seat {
            v.push(f(FanKind::MenFengKe, 2));
        }
        if t != round && t != seat {
            v.push(f(FanKind::YaoJiuKe, 1));
        }
    } else if is_terminal(t) {
        v.push(f(FanKind::YaoJiuKe, 1));
    }
    assert(v@ =~= one_trip_fans(t, dr as int, round, seat));
    v
}

fn same_rank_part(trips: &Vec<usize>) -> (v: Vec<Fan>)
    ensures
        v@ == same_rank_fans(trips@),
{
    let mut by_num: [usize; 10] = [0; 10];
    let mut i: usize = 0;
    while i < trips.len()
        invariant
            i <= trips@.len(),
            by_num@.len() == 10,
            forall|n: int| 1 <= n <= 9 ==> #[trigger] by_num@[n] == same_rank(trips@.subrange(0, i as int), n),
            forall|n: int| 0 <= n < 10 ==> #[trigger] by_num@[n] <= i,
        decreases trips@.len() - i,
    {
        assert(trips@.subrange(0, i + 1).drop_last() =~= trips@.subrange(0, i as int));
        let t = trips[i];
        if is_suited(t) {
            let n = num(t);
            by_num[n] = by_num[n] + 1;
        }
        i = i + 1;
    }
    assert(trips@.subrange(0, trips@.len() as int) =~= trips@);
    let mut san = false;
    let mut two = false;
    let mut n: usize = 1;
    while n <= 9
        invariant
            1 <= n <= 10,
            by_num@.len() == 10,
            forall|m: int| 1 <= m <= 9 ==> #[trigger] by_num@[m] == same_rank(trips@, m),
            san == exists|m: int| 1 <= m < n && #[trigger] same_rank(trips@, m) >= 3,
            two == exists|m: int| 1 <= m < n && #[trigger] same_rank(trips@, m) == 2,
        decreases 10 - n,
    {
        if by_num[n] >= 3 {
            san = true;
        }
        if by_num[n] == 2 {
            two = true;
        }
        n = n + 1;
    }
    let mut v: Vec<Fan> = Vec::new();
    if san {
        v.push(f(FanKind::SanTongKe, 16));
    } else if two {
        v.push(f(FanKind::ShuangTongKe, 2));
    }
    assert(v@ =~= same_rank_fans(trips@));
    v
}

fn triplet_part(ctx: &WinCtx, h: &Facts) -> (v: Vec<Fan>)
    requires
        facts_of(*h, ctx@),
    ensures
        v@ == triplet_fans(ctx@),
{
    let sets = &ctx.decomp.sets;
    let pair = h.pair;
    let w = count_in(&h.trips, 27, 30);
    let dr = count_in(&h.trips, 31, 33);
    let mut v = kan_part(sets);
    let ghost p1 = v@;
    if all_trips(sets) {
        v.push(f(FanKind::PengPengHe, 6));
    }
    assert(v@ =~= p1 + opt(all_triplets(sets@), mk(FanKind::PengPengHe, 6)));
    let ghost p2 = v@;
    let c = concealed_count(sets, ctx.tsumo, ctx.win_tile);
    if c == 4 {
        v.push(f(FanKind::SiAnKe, 64));
    } else if c == 3 {
        v.push(f(FanKind::SanAnKe, 16));
    } else if c == 2 {
        v.push(f(FanKind::ShuangAnKe, 2));
    }
    assert(v@ =~= p2 + concealed_fans(c as int));
    let ghost p3 = v@;
    let mut i: usize = 0;
    while i < h.trips.len()
        invariant
            i <= h.trips@.len(),
            v@ == p3 + trip_fans(h.trips@.subrange(0, i as int), dr as int, ctx.round_wind, ctx.seat_wind),
        decreases h.trips@.len() - i,
    {
        assert(h.trips@.subrange(0, i + 1).drop_last() =~= h.trips@.subrange(0, i as int));
        let mut a = one_trip_part(h.trips[i], dr, ctx.round_wind, ctx.seat_wind);
        v.append(&mut a);
        i = i + 1;
        assert(v@ =~= p3 + trip_fans(h.trips@.subrange(0, i as int), dr as int, ctx.round_wind, ctx.seat_wind));
    }
    assert(h.trips@.subrange(0, h.trips@.len() as int) =~= h.trips@);
    let ghost p4 = v@;
    if w == 3 && !is_wind(pair) {
        v.push(f(FanKind::SanFengKe, 12));
    }
    if dr == 2 {
        v.push(f(FanKind::ShuangJianKe, 6));
    }
    assert(v@ =~= p4 + opt(w == 3 && !is_wind(pair), mk(FanKind::SanFengKe, 12)) + opt(
        dr == 2,
        mk(FanKind::ShuangJianKe, 6),
    ));
    let mut b = same_rank_part(&h.trips);
    v.append(&mut b);
    assert(v@ =~= triplet_fans(ctx@));
    v
}


// ----- runs -----

/// How many times tile `t` occurs in `v`.
pub open spec fn count_eq(v: Seq<usize>, t: usize) -> int
    decreases v.len(),
{
    if v.len() == 0 {
        0
    } else {
        count_eq(v.drop_last(), t) + if v.last() == t {
            1int
        } else {
            0int
        }
    }
}

/// The largest number of identical suited runs among the first `i`
/// (at least 1).
pub open spec fn mult_upto(v: Seq<usize>, i: int) -> int
    decreases i,
{
    if i <= 0 {
        1
    } else {
        let m = if suit(v[i - 1]) < 3 {
            count_eq(v, v[i - 1])
        } else {
            1
        };
        let r = mult_upto(v, i - 1);
        if m > r {
            m
        } else {
            r
        }
    }
}

pub open spec fn same_run_fans(runs: Seq<usize>) -> Seq<Fan> {
    let b = mult_upto(runs, runs.len() as int);
    if b == 4 {
        seq![mk(FanKind::YiSeSiTongShun, 48)]
    } else if b == 3 {
        seq![mk(FanKind::YiSeSanTongShun, 24)]
    } else {
        Seq::empty()
    }
}

fn count_equal(v: &Vec<usize>, t: usize) -> (r: usize)
    ensures
        r == count_eq(v@, t),
        r <= v@.len(),
{
    let mut r: usize = 0;
    let mut i: usize = 0;
    while i < v.len()
        invariant
            i <= v@.len(),
            r <= i,
            r == count_eq(v@.subrange(0, i as int), t),
        decreases v@.len() - i,
    {
        assert(v@.subrange(0, i + 1).drop_last() =~= v@.subrange(0, i as int));
        if v[i] == t {
            r = r + 1;
        }
        i = i + 1;
    }
    assert(v@.subrange(0, v@.len() as int) =~= v@);
    r
}

fn same_run_part(runs: &Vec<usize>) -> (v: Vec<Fan>)
    ensures
        v@ == same_run_fans(runs@),
{
    let mut best: usize = 1;
    let mut i: usize = 0;
    while i < runs.len()
        invariant
            i <= runs@.len(),
            best == mult_upto(runs@, i as int),
        decreases runs@.len() - i,
    {
        let m = if suit(runs[i]) < 3 {
            count_equal(runs, runs[i])
        } else {
            1
        };
        if m > best {
            best = m;
        }
        i = i + 1;
    }
    let mut v: Vec<Fan> = Vec::new();
    if best == 4 {
        v.push(f(FanKind::YiSeSiTongShun, 48));
    } else if best == 3 {
        v.push(f(FanKind::YiSeSanTongShun, 24));
    }
    assert(v@ =~= same_run_fans(runs@));
    v
}

/// Ranks `n .. n + len` of suit `s` all occur in `v`.
pub open spec fn consec(v: Seq<usize>, s: int, n: int, len: int) -> bool {
    forall|j: int| 0 <= j < len ==> #[trigger] present(v, s, n + j)
}

/// Some suit has `len` consecutive ranks in `v`.
pub open spec fn has_consec(v: Seq<usize>, len: int) -> bool {
    exists|s: int, n: int| 0 <= s < 3 && 1 <= n && n + len - 1 <= 9 && #[trigger] consec(v, s, n, len)
}

/// Ranks `n, n + 2, ...` (`len` of them) of suit `s` occur in `v` and the
/// ranks between them do not: a chain of step 2 among the distinct ranks.
pub open spec fn chain2(v: Seq<usize>, s: int, n: int, len: int) -> bool {
    &&& forall|j: int| 0 <= j < len ==> #[trigger] present(v, s, n + 2 * j)
    &&& forall|j: int| 0 <= j < len - 1 ==> !#[trigger] present(v, s, n + 2 * j + 1)
}

/// Some suit has a chain of `len` distinct ranks of step 1 or 2.
pub open spec fn has_step(v: Seq<usize>, len: int) -> bool {
    ||| has_consec(v, len)
    ||| exists|s: int, n: int|
        0 <= s < 3 && 1 <= n && n + 2 * (len - 1) <= 9 && #[trigger] chain2(v, s, n, len)
}

pub open spec fn presence_of(p: [bool; 30], v: Seq<usize>) -> bool {
    forall|s: int, n: int|
        #![trigger p@[s * 10 + n]]
        #![trigger present(v, s, n)]
        0 <= s < 3 && 0 <= n < 10 ==> p@[s * 10 + n] == present(v, s, n)
}

fn window(p: &[bool; 30], v: &Vec<usize>, s: usize, n: usize, len: usize) -> (r: bool)
    requires
        presence_of(*p, v@),
        s < 3,
        1 <= n,
        n + len <= 10,
    ensures
        r == consec(v@, s as int, n as int, len as int),
{
    let mut j: usize = 0;
    while j < len
        invariant
            j <= len,
            s < 3,
            n + len <= 10,
            presence_of(*p, v@),
            forall|k: int| 0 <= k < j ==> #[trigger] present(v@, s as int, n + k),
        decreases len - j,
    {
        if !p[s * 10 + n + j] {
            assert(!present(v@, s as int, n + j));
            return false;
        }
        j = j + 1;
    }
    true
}

fn chain_window(p: &[bool; 30], v: &Vec<usize>, s: usize, n: usize, len: usize) -> (r: bool)
    requires
        presence_of(*p, v@),
        s < 3,
        1 <= n,
        1 <= len,
        n + 2 * (len - 1) <= 9,
    ensures
        r == chain2(v@, s as int, n as int, len as int),
{
    let mut j: usize = 0;
    while j < len
        invariant
            j <= len,
            s < 3,
            1 <= len,
            n + 2 * (len - 1) <= 9,
            presence_of(*p, v@),
            forall|k: int| 0 <= k < j ==> #[trigger] present(v@, s as int, n + 2 * k),
            forall|k: int| 0 <= k < j && k < len - 1 ==> !#[trigger] present(v@, s as int, n + 2 * k + 1),
        decreases len - j,
    {
        if !p[s * 10 + n + 2 * j] {
            assert(!present(v@, s as int, n + 2 * j));
            return false;
        }
        if j + 1 < len && p[s * 10 + n + 2 * j + 1] {
            assert(present(v@, s as int, n + 2 * j + 1));
            return false;
        }
        j = j + 1;
    }
    true
}

fn consec_exists(v: &Vec<usize>, len: usize) -> (r: bool)
    requires
        1 <= len <= 9,
    ensures
        r == has_consec(v@, len as int),
{
    let p = presence(v);
    let mut s: usize = 0;
    while s < 3
        invariant
            s <= 3,
            1 <= len <= 9,
            presence_of(p, v@),
            forall|s2: int, n: int|
                0 <= s2 < s && 1 <= n && n + len - 1 <= 9 ==> !#[trigger] consec(v@, s2, n, len as int),
        decreases 3 - s,
    {
        let mut n: usize = 1;
        while n + len <= 10
            invariant
                1 <= n <= 10,
                s < 3,
                1 <= len <= 9,
                presence_of(p, v@),
                forall|s2: int, m: int|
                    0 <= s2 < s && 1 <= m && m + len - 1 <= 9 ==> !#[trigger] consec(v@, s2, m, len as int),
                forall|m: int| 1 <= m < n ==> !#[trigger] consec(v@, s as int, m, len as int),
            decreases 10 - n,
        {
            if window(&p, v, s, n, len) {
                return true;
            }
            n = n + 1;
        }
        s = s + 1;
    }
    false
}

fn step_exists(v: &Vec<usize>, len: usize) -> (r: bool)
    requires
        1 <= len <= 5,
    ensures
        r == has_step(v@, len as int),
{
    if consec_exists(v, len) {
        return true;
    }
    let p = presence(v);
    let mut s: usize = 0;
    while s < 3
        invariant
            s <= 3,
            1 <= len <= 5,
            presence_of(p, v@),
            forall|s2: int, n: int|
                0 <= s2 < s && 1 <= n && n + 2 * (len - 1) <= 9 ==> !#[trigger] chain2(v@, s2, n, len as int),
        decreases 3 - s,
    {
        let mut n: usize = 1;
        while n + 2 * (len - 1) <= 9
            invariant
                1 <= n <= 10,
                s < 3,
                1 <= len <= 5,
                presence_of(p, v@),
                forall|s2: int, m: int|
                    0 <= s2 < s && 1 <= m && m + 2 * (len - 1) <= 9 ==> !#[trigger] chain2(v@, s2, m, len as int),
                forall|m: int| 1 <= m < n ==> !#[trigger] chain2(v@, s as int, m, len as int),
            decreases 10 - n,
        {
            if chain_window(&p, v, s, n, len) {
                return true;
            }
            n = n + 1;
        }
        s = s + 1;
    }
    false
}

/// Shifted triplets of one suit: four or three consecutive ranks.
pub open spec fn shifted_trip_fans(trips: Seq<usize>) -> Seq<Fan> {
    if has_consec(trips, 4) && !has_consec(trips, 5) {
        seq![mk(FanKind::YiSeSiJieGao, 48)]
    } else if has_consec(trips, 3) && !has_consec(trips, 4) {
        seq![mk(FanKind::YiSeSanJieGao, 24)]
    } else {
        Seq::empty()
    }
}

/// Shifted runs of one suit: four or three runs stepping by 1 or by 2.
pub open spec fn shifted_run_fans(runs: Seq<usize>) -> Seq<Fan> {
    if has_step(runs, 4) && !has_step(runs, 5) {
        seq![mk(FanKind::YiSeSiBuGao, 32)]
    } else if has_step(runs, 3) && !has_step(runs, 4) {
        seq![mk(FanKind::YiSeSanBuGao, 16)]
    } else {
        Seq::empty()
    }
}

fn shifted_trip_part(trips: &Vec<usize>) -> (v: Vec<Fan>)
    ensures
        v@ == shifted_trip_fans(trips@),
{
    let c3 = consec_exists(trips, 3);
    let c4 = consec_exists(trips, 4);
    let c5 = consec_exists(trips, 5);
    let mut v: Vec<Fan> = Vec::new();
    if c4 && !c5 {
        v.push(f(FanKind::YiSeSiJieGao, 48));
    } else if c3 && !c4 {
        v.push(f(FanKind::YiSeSanJieGao, 24));
    }
    assert(v@ =~= shifted_trip_fans(trips@));
    v
}

fn shifted_run_part(runs: &Vec<usize>) -> (v: Vec<Fan>)
    ensures
        v@ == shifted_run_fans(runs@),
{
    let c3 = step_exists(runs, 3);
    let c4 = step_exists(runs, 4);
    let c5 = step_exists(runs, 5);
    let mut v: Vec<Fan> = Vec::new();
    if c4 && !c5 {
        v.push(f(FanKind::YiSeSiBuGao, 32));
    } else if c3 && !c4 {
        v.push(f(FanKind::YiSeSanBuGao, 16));
    }
    assert(v@ =~= shifted_run_fans(runs@));
    v
}

/// Pure straight: 123, 456, 789 of one suit.
pub open spec fn pure_straight(runs: Seq<usize>) -> bool {
    exists|s: int| 0 <= s < 3 && #[trigger] present(runs, s, 1) && present(runs, s, 4) && present(runs, s, 7)
}

/// Mixed straight: 123, 456, 789 in three different suits.
pub open spec fn mixed_straight(runs: Seq<usize>) -> bool {
    exists|a: int, b: int, c: int|
        0 <= a < 3 && 0 <= b < 3 && 0 <= c < 3 && a != b && b != c && a != c && #[trigger] present(
            runs,
            a,
            1,
        ) && #[trigger] present(runs, b, 4) && #[trigger] present(runs, c, 7)
}

/// Same run in three suits.
pub open spec fn triple_run(runs: Seq<usize>) -> bool {
    exists|n: int| 1 <= n <= 7 && #[trigger] present(runs, 0, n) && present(runs, 1, n) && present(runs, 2, n)
}

/// Three ranks, in any order, that are consecutive.
pub open spec fn consec3(a: int, b: int, c: int) -> bool {
    let lo = if a <= b && a <= c { a } else if b <= c { b } else { c };
    let hi = if a >= b && a >= c { a } else if b >= c { b } else { c };
    let mid = a + b + c - lo - hi;
    mid == lo + 1 && hi == mid + 1
}

/// One rank from each suit, the three consecutive.
pub open spec fn cross_shift(v: Seq<usize>) -> bool {
    exists|a: int, b: int, c: int|
        1 <= a <= 9 && 1 <= b <= 9 && 1 <= c <= 9 && #[trigger] present(v, 0, a) && #[trigger] present(
            v,
            1,
            b,
        ) && #[trigger] present(v, 2, c) && consec3(a, b, c)
}

fn straight_part(runs: &Vec<usize>) -> (v: Vec<Fan>)
    ensures
        v@ == opt(pure_straight(runs@), mk(FanKind::QingLong, 16)) + opt(
            mixed_straight(runs@),
            mk(FanKind::HuaLong, 8),
        ),
{
    let p = presence(runs);
    let mut qing = false;
    let mut s: usize = 0;
    while s < 3
        invariant
            s <= 3,
            presence_of(p, runs@),
            qing == exists|s2: int| 0 <= s2 < s && #[trigger] present(runs@, s2, 1) && present(runs@, s2, 4) && present(runs@, s2, 7),
        decreases 3 - s,
    {
        assert(p@[s * 10 + 1] == present(runs@, s as int, 1));
        assert(p@[s * 10 + 4] == present(runs@, s as int, 4));
        assert(p@[s * 10 + 7] == present(runs@, s as int, 7));
        if p[s * 10 + 1] && p[s * 10 + 4] && p[s * 10 + 7] {
            qing = true;
        }
        s = s + 1;
    }
    let hua = (p[1] && p[14] && p[27]) || (p[1] && p[17] && p[24]) || (p[4] && p[11] && p[27]) || (
    p[4] && p[17] && p[21]) || (p[7] && p[11] && p[24]) || (p[7] && p[14] && p[21]);
    assert(p@[1] == present(runs@, 0, 1));
    assert(p@[4] == present(runs@, 0, 4));
    assert(p@[7] == present(runs@, 0, 7));
    assert(p@[11] == present(runs@, 1, 1));
    assert(p@[14] == present(runs@, 1, 4));
    assert(p@[17] == present(runs@, 1, 7));
    assert(p@[21] == present(runs@, 2, 1));
    assert(p@[24] == present(runs@, 2, 4));
    assert(p@[27] == present(runs@, 2, 7));
    assert(hua == mixed_straight(runs@)) by {
        if mixed_straight(runs@) {
            let (a, b, c) = choose|a: int, b: int, c: int|
                0 <= a < 3 && 0 <= b < 3 && 0 <= c < 3 && a != b && b != c && a != c && #[trigger] present(
                    runs@,
                    a,
                    1,
                ) && #[trigger] present(runs@, b, 4) && #[trigger] present(runs@, c, 7);
            assert(hua);
        }
        if hua {
            if p[1] && p[14] && p[27] {
                assert(present(runs@, 0, 1) && present(runs@, 1, 4) && present(runs@, 2, 7));
            } else if p[1] && p[17] && p[24] {
                assert(present(runs@, 0, 1) && present(runs@, 2, 4) && present(runs@, 1, 7));
            } else if p[4] && p[11] && p[27] {
                assert(present(runs@, 1, 1) && present(runs@, 0, 4) && present(runs@, 2, 7));
            } else if p[4] && p[17] && p[21] {
                assert(present(runs@, 2, 1) && present(runs@, 0, 4) && present(runs@, 1, 7));
            } else if p[7] && p[11] && p[24] {
                assert(present(runs@, 1, 1) && present(runs@, 2, 4) && present(runs@, 0, 7));
            } else {
                assert(present(runs@, 2, 1) && present(runs@, 1, 4) && present(runs@, 0, 7));
            }
        }
    }
    let mut v: Vec<Fan> = Vec::new();
    if qing {
        v.push(f(FanKind::QingLong, 16));
    }
    if hua {
        v.push(f(FanKind::HuaLong, 8));
    }
    assert(v@ =~= opt(pure_straight(runs@), mk(FanKind::QingLong, 16)) + opt(
        mixed_straight(runs@),
        mk(FanKind::HuaLong, 8),
    ));
    v
}

fn triple_run_check(runs: &Vec<usize>) -> (r: bool)
    ensures
        r == triple_run(runs@),
{
    let p = presence(runs);
    let mut found = false;
    let mut n: usize = 1;
    while n <= 7
        invariant
            1 <= n <= 8,
            presence_of(p, runs@),
            found == exists|m: int| 1 <= m < n && #[trigger] present(runs@, 0, m) && present(runs@, 1, m) && present(runs@, 2, m),
        decreases 8 - n,
    {
        if p[n] && p[10 + n] && p[20 + n] {
            assert(present(runs@, 0, n as int) && present(runs@, 1, n as int) && present(runs@, 2, n as int));
            found = true;
        }
        n = n + 1;
    }
    found
}

fn consec3_exec(a: usize, b: usize, c: usize) -> (r: bool)
    requires
        a <= 9 && b <= 9 && c <= 9,
    ensures
        r == consec3(a as int, b as int, c as int),
{
    let lo = if a <= b && a <= c { a } else if b <= c { b } else { c };
    let hi = if a >= b && a >= c { a } else if b >= c { b } else { c };
    let mid = a + b + c - lo - hi;
    mid == lo + 1 && hi == mid + 1
}

fn cross_shift_check(v: &Vec<usize>) -> (r: bool)
    ensures
        r == cross_shift(v@),
{
    let p = presence(v);
    let mut a: usize = 1;
    while a <= 9
        invariant
            1 <= a <= 10,
            presence_of(p, v@),
            forall|a2: int, b: int, c: int|
                1 <= a2 < a && 1 <= b <= 9 && 1 <= c <= 9 && #[trigger] present(v@, 0, a2) && #[trigger] present(v@, 1, b) && #[trigger] present(v@, 2, c) ==> !consec3(a2, b, c),
        decreases 10 - a,
    {
        let mut b: usize = 1;
        while b <= 9
            invariant
                1 <= a <= 9,
                1 <= b <= 10,
                presence_of(p, v@),
                forall|a2: int, b2: int, c: int|
                    1 <= a2 < a && 1 <= b2 <= 9 && 1 <= c <= 9 && #[trigger] present(v@, 0, a2) && #[trigger] present(v@, 1, b2) && #[trigger] present(v@, 2, c) ==> !consec3(a2, b2, c),
                forall|b2: int, c: int|
                    1 <= b2 < b && 1 <= c <= 9 && present(v@, 0, a as int) && #[trigger] present(v@, 1, b2) && #[trigger] present(v@, 2, c) ==> !consec3(a as int, b2, c),
            decreases 10 - b,
        {
            let mut c: usize = 1;
            while c <= 9
                invariant
                    1 <= a <= 9,
                    1 <= b <= 9,
                    1 <= c <= 10,
                    presence_of(p, v@),
                    forall|a2: int, b2: int, c2: int|
                        1 <= a2 < a && 1 <= b2 <= 9 && 1 <= c2 <= 9 && #[trigger] present(v@, 0, a2) && #[trigger] present(v@, 1, b2) && #[trigger] present(v@, 2, c2) ==> !consec3(a2, b2, c2),
                    forall|b2: int, c2: int|
                        1 <= b2 < b && 1 <= c2 <= 9 && present(v@, 0, a as int) && #[trigger] present(v@, 1, b2) && #[trigger] present(v@, 2, c2) ==> !consec3(a as int, b2, c2),
                    forall|c2: int|
                        1 <= c2 < c && present(v@, 0, a as int) && present(v@, 1, b as int) && #[trigger] present(v@, 2, c2) ==> !consec3(a as int, b as int, c2),
                decreases 10 - c,
            {
                if p[a] && p[10 + b] && p[20 + c] && consec3_exec(a, b, c) {
                    assert(present(v@, 0, a as int) && present(v@, 1, b as int) && present(v@, 2, c as int));
                    return true;
                }
                assert(p@[a as int] == present(v@, 0, a as int));
                assert(p@[10 + b] == present(v@, 1, b as int));
                assert(p@[20 + c] == present(v@, 2, c as int));
                c = c + 1;
            }
            b = b + 1;
        }
        a = a + 1;
    }
    false
}


pub open spec fn run_fans(ctx: WinModel) -> Seq<Fan> {
    let runs = run_tiles(ctx.decomp.sets);
    let trips = trip_tiles(ctx.decomp.sets);
    same_run_fans(runs) + shifted_trip_fans(trips) + opt(pure_straight(runs), mk(FanKind::QingLong, 16))
        + opt(mixed_straight(runs), mk(FanKind::HuaLong, 8)) + shifted_run_fans(runs) + opt(
        triple_run(runs),
        mk(FanKind::SanSeSanTongShun, 8),
    ) + opt(cross_shift(trips), mk(FanKind::SanSeSanJieGao, 8)) + opt(
        cross_shift(runs),
        mk(FanKind::SanSeSanBuGao, 6),
    ) + pair_fans(runs)
}

fn run_part_a(ctx: &WinCtx, h: &Facts) -> (v: Vec<Fan>)
    requires
        facts_of(*h, ctx@),
    ensures
        v@ == same_run_fans(h.runs@) + shifted_trip_fans(h.trips@) + opt(
            pure_straight(h.runs@),
            mk(FanKind::QingLong, 16),
        ) + opt(mixed_straight(h.runs@), mk(FanKind::HuaLong, 8)) + shifted_run_fans(h.runs@),
{
    let mut v = same_run_part(&h.runs);
    let mut a = shifted_trip_part(&h.trips);
    v.append(&mut a);
    let mut b = straight_part(&h.runs);
    v.append(&mut b);
    let mut c = shifted_run_part(&h.runs);
    v.append(&mut c);
    v
}

fn run_part(ctx: &WinCtx, h: &Facts) -> (v: Vec<Fan>)
    requires
        facts_of(*h, ctx@),
        h.runs@.len() <= 10000,
    ensures
        v@ == run_fans(ctx@),
{
    let mut v = run_part_a(ctx, h);
    let ghost p1 = v@;
    if triple_run_check(&h.runs) {
        v.push(f(FanKind::SanSeSanTongShun, 8));
    }
    if cross_shift_check(&h.trips) {
        v.push(f(FanKind::SanSeSanJieGao, 8));
    }
    if cross_shift_check(&h.runs) {
        v.push(f(FanKind::SanSeSanBuGao, 6));
    }
    assert(v@ =~= p1 + opt(triple_run(h.runs@), mk(FanKind::SanSeSanTongShun, 8)) + opt(
        cross_shift(h.trips@),
        mk(FanKind::SanSeSanJieGao, 8),
    ) + opt(cross_shift(h.runs@), mk(FanKind::SanSeSanBuGao, 6)));
    let mut d = pair_part(&h.runs);
    v.append(&mut d);
    assert(v@ =~= run_fans(ctx@));
    v
}

// ----- the rest of the standard patterns -----

/// Every set includes a 5 and so does the pair.
pub open spec fn with_five(ds: Seq<Group>, pair: usize) -> bool {
    &&& forall|i: int|
        0 <= i < ds.len() ==> match #[trigger] ds[i].kind {
            SetKind::Run => 3 <= num(ds[i].tile) <= 5,
            SetKind::Triplet => is_suited(ds[i].tile) && num(ds[i].tile) == 5,
        }
    &&& is_suited(pair)
    &&& num(pair) == 5
}

/// Every set includes a terminal or honor and so does the pair.
pub open spec fn with_yao(ds: Seq<Group>, pair: usize) -> bool {
    &&& forall|i: int|
        0 <= i < ds.len() ==> match #[trigger] ds[i].kind {
            SetKind::Run => num(ds[i].tile) == 1 || num(ds[i].tile) == 7,
            SetKind::Triplet => is_terminal_or_honor(ds[i].tile),
        }
    &&& is_terminal_or_honor(pair)
}

pub open spec fn all_even(ds: Seq<Group>) -> bool {
    forall|i: int| 0 <= i < ds.len() ==> is_suited(#[trigger] ds[i].tile) && num(ds[i].tile) % 2 == 0
}

pub open spec fn all_runs(ds: Seq<Group>) -> bool {
    forall|i: int| 0 <= i < ds.len() ==> #[trigger] ds[i].kind == SetKind::Run
}

/// Some set is a kan of tile `t`.
pub open spec fn kan_on(ds: Seq<Group>, t: int) -> bool {
    exists|i: int| 0 <= i < ds.len() && #[trigger] ds[i].is_kan && ds[i].tile == t
}

/// Four of a kind not declared as a kan, one entry per such tile below `n`.
pub open spec fn four_kind_fans(all: Counts, ds: Seq<Group>, n: int) -> Seq<Fan>
    decreases n,
{
    if n <= 0 {
        Seq::empty()
    } else {
        four_kind_fans(all, ds, n - 1) + opt(
            all@[n - 1] == 4 && !kan_on(ds, n - 1),
            mk(FanKind::SiGuiYi, 2),
        )
    }
}

pub open spec fn size_fans(all: Counts) -> Seq<Fan> {
    if all_pass(all, Filter::Big) {
        seq![mk(FanKind::QuanDa, 24)]
    } else if all_pass(all, Filter::Mid) {
        seq![mk(FanKind::QuanZhong, 24)]
    } else if all_pass(all, Filter::Small) {
        seq![mk(FanKind::QuanXiao, 24)]
    } else {
        Seq::empty()
    }
}

/// How many runs have rank `n`.
pub open spec fn rank_count(runs: Seq<usize>, n: int) -> int
    decreases runs.len(),
{
    if runs.len() == 0 {
        0
    } else {
        rank_count(runs.drop_last(), n) + if num(runs.last()) == n {
            1int
        } else {
            0int
        }
    }
}

pub open spec fn all_in_suit(runs: Seq<usize>, s: int) -> bool {
    forall|i: int| 0 <= i < runs.len() ==> suit(#[trigger] runs[i]) == s
}

pub open spec fn none_in_suit(runs: Seq<usize>, s: int) -> bool {
    forall|i: int| 0 <= i < runs.len() ==> suit(#[trigger] runs[i]) != s
}

/// Suits other than `ps` that hold both a 123 and a 789 run.
pub open spec fn terminal_pairs_besides(runs: Seq<usize>, ps: int) -> int {
    (if 0 != ps && present(runs, 0, 1) && present(runs, 0, 7) { 1int } else { 0int }) + (if 1 != ps
        && present(runs, 1, 1) && present(runs, 1, 7) {
        1int
    } else {
        0int
    }) + (if 2 != ps && present(runs, 2, 1) && present(runs, 2, 7) {
        1int
    } else {
        0int
    })
}

/// Pure and mixed terminal chows around a pair of 5s.
pub open spec fn dragon_meet_fans(ds: Seq<Group>, pair: usize, runs: Seq<usize>) -> Seq<Fan> {
    if ds.len() == 4 && all_runs(ds) && is_suited(pair) && num(pair) == 5 {
        let ps = suit(pair) as int;
        opt(
            all_in_suit(runs, ps) && rank_count(runs, 1) == 2 && rank_count(runs, 7) == 2,
            mk(FanKind::YiSeShuangLongHui, 64),
        ) + opt(
            terminal_pairs_besides(runs, ps) == 2 && none_in_suit(runs, ps),
            mk(FanKind::SanSeShuangLongHui, 16),
        )
    } else {
        Seq::empty()
    }
}

pub open spec fn misc_fans_a(ctx: WinModel) -> Seq<Fan> {
    let all = ctx.all;
    let ds = ctx.decomp.sets;
    let pair = ctx.decomp.pair->0;
    let ns = suit_count(all);
    opt(with_five(ds, pair), mk(FanKind::QuanDaiWu, 16)) + opt(
        with_yao(ds, pair),
        mk(FanKind::QuanDaiYao, 4),
    ) + size_fans(all) + opt(all_pass(all, Filter::Above5), mk(FanKind::DaYuWu, 12)) + opt(
        all_pass(all, Filter::Below5),
        mk(FanKind::XiaoYuWu, 12),
    ) + opt(
        all_triplets(ds) && all_even(ds) && is_suited(pair) && num(pair) % 2 == 0,
        mk(FanKind::QuanShuangKe, 24),
    ) + opt(ns == 3 && held_in(all, 27, 30) && held_in(all, 31, 33), mk(FanKind::WuMenQi, 6))
}

pub open spec fn misc_fans_b(ctx: WinModel) -> Seq<Fan> {
    let all = ctx.all;
    let ds = ctx.decomp.sets;
    let pair = ctx.decomp.pair->0;
    let ns = suit_count(all);
    opt(all_runs(ds) && is_suited(pair), mk(FanKind::PingHe, 2)) + opt(
        all_simples(all),
        mk(FanKind::DuanYao, 2),
    ) + opt(ns == 2, mk(FanKind::QueYiMen, 1)) + opt(!honor_held(all), mk(FanKind::WuZi, 1))
        + four_kind_fans(all, ds, 34) + opt(all_pass(all, Filter::Tuibu), mk(FanKind::TuiBuDao, 8))
        + dragon_meet_fans(ds, pair, run_tiles(ds))
}

pub open spec fn misc_fans(ctx: WinModel) -> Seq<Fan> {
    misc_fans_a(ctx) + misc_fans_b(ctx)
}

fn with_five_check(ds: &Vec<Group>, pair: usize) -> (r: bool)
    ensures
        r == with_five(ds@, pair),
{
    let mut i: usize = 0;
    while i < ds.len()
        invariant
            i <= ds@.len(),
            forall|j: int|
                0 <= j < i ==> match #[trigger] ds@[j].kind {
                    SetKind::Run => 3 <= num(ds@[j].tile) <= 5,
                    SetKind::Triplet => is_suited(ds@[j].tile) && num(ds@[j].tile) == 5,
                },
        decreases ds@.len() - i,
    {
        let g = ds[i];
        let ok = match g.kind {
            SetKind::Run => 3 <= num(g.tile) && num(g.tile) <= 5,
            SetKind::Triplet => is_suited(g.tile) && num(g.tile) == 5,
        };
        if !ok {
            return false;
        }
        i = i + 1;
    }
    is_suited(pair) && num(pair) == 5
}

fn with_yao_check(ds: &Vec<Group>, pair: usize) -> (r: bool)
    ensures
        r == with_yao(ds@, pair),
{
    let mut i: usize = 0;
    while i < ds.len()
        invariant
            i <= ds@.len(),
            forall|j: int|
                0 <= j < i ==> match #[trigger] ds@[j].kind {
                    SetKind::Run => num(ds@[j].tile) == 1 || num(ds@[j].tile) == 7,
                    SetKind::Triplet => is_terminal_or_honor(ds@[j].tile),
                },
        decreases ds@.len() - i,
    {
        let g = ds[i];
        let ok = match g.kind {
            SetKind::Run => num(g.tile) == 1 || num(g.tile) == 7,
            SetKind::Triplet => is_terminal_or_honor(g.tile),
        };
        if !ok {
            return false;
        }
        i = i + 1;
    }
    is_terminal_or_honor(pair)
}

fn all_even_check(ds: &Vec<Group>) -> (r: bool)
    ensures
        r == all_even(ds@),
{
    let mut i: usize = 0;
    while i < ds.len()
        invariant
            i <= ds@.len(),
            forall|j: int| 0 <= j < i ==> is_suited(#[trigger] ds@[j].tile) && num(ds@[j].tile) % 2 == 0,
        decreases ds@.len() - i,
    {
        if !(is_suited(ds[i].tile) && num(ds[i].tile) % 2 == 0) {
            return false;
        }
        i = i + 1;
    }
    true
}

pub fn all_runs_check(ds: &Vec<Group>) -> (r: bool)
    ensures
        r == all_runs(ds@),
{
    let mut i: usize = 0;
    while i < ds.len()
        invariant
            i <= ds@.len(),
            forall|j: int| 0 <= j < i ==> #[trigger] ds@[j].kind == SetKind::Run,
        decreases ds@.len() - i,
    {
        if ds[i].kind != SetKind::Run {
            return false;
        }
        i = i + 1;
    }
    true
}

fn kan_on_check(ds: &Vec<Group>, t: usize) -> (r: bool)
    ensures
        r == kan_on(ds@, t as int),
{
    let mut i: usize = 0;
    while i < ds.len()
        invariant
            i <= ds@.len(),
            forall|j: int| 0 <= j < i ==> !(#[trigger] ds@[j].is_kan && ds@[j].tile == t),
        decreases ds@.len() - i,
    {
        if ds[i].is_kan && ds[i].tile == t {
            assert(ds@[i as int].is_kan && ds@[i as int].tile == t);
            return true;
        }
        i = i + 1;
    }
    false
}

fn size_part(all: &Counts) -> (v: Vec<Fan>)
    ensures
        v@ == size_fans(*all),
{
    let mut v: Vec<Fan> = Vec::new();
    if all_tiles_pass(all, Filter::Big) {
        v.push(f(FanKind::QuanDa, 24));
    } else if all_tiles_pass(all, Filter::Mid) {
        v.push(f(FanKind::QuanZhong, 24));
    } else if all_tiles_pass(all, Filter::Small) {
        v.push(f(FanKind::QuanXiao, 24));
    }
    assert(v@ =~= size_fans(*all));
    v
}

fn rank_count_exec(runs: &Vec<usize>, n: usize) -> (r: usize)
    ensures
        r == rank_count(runs@, n as int),
{
    let mut r: usize = 0;
    let mut i: usize = 0;
    while i < runs.len()
        invariant
            i <= runs@.len(),
            r <= i,
            r == rank_count(runs@.subrange(0, i as int), n as int),
        decreases runs@.len() - i,
    {
        assert(runs@.subrange(0, i + 1).drop_last() =~= runs@.subrange(0, i as int));
        if num(runs[i]) == n {
            r = r + 1;
        }
        i = i + 1;
    }
    assert(runs@.subrange(0, runs@.len() as int) =~= runs@);
    r
}

fn suit_check(runs: &Vec<usize>, s: usize, same: bool) -> (r: bool)
    ensures
        same ==> r == all_in_suit(runs@, s as int),
        !same ==> r == none_in_suit(runs@, s as int),
{
    let mut i: usize = 0;
    while i < runs.len()
        invariant
            i <= runs@.len(),
            forall|j: int| 0 <= j < i ==> (suit(#[trigger] runs@[j]) == s) == same,
        decreases runs@.len() - i,
    {
        if (suit(runs[i]) == s) != same {
            return false;
        }
        i = i + 1;
    }
    true
}

fn dragon_meet_part(ds: &Vec<Group>, pair: usize, runs: &Vec<usize>) -> (v: Vec<Fan>)
    requires
        runs@ == run_tiles(ds@),
    ensures
        v@ == dragon_meet_fans(ds@, pair, runs@),
{
    let mut v: Vec<Fan> = Vec::new();
    if ds.len() == 4 && all_runs_check(ds) && is_suited(pair) && num(pair) == 5 {
        let ps = suit(pair);
        let same = suit_check(runs, ps, true);
        let c1 = rank_count_exec(runs, 1);
        let c7 = rank_count_exec(runs, 7);
        if same && c1 == 2 && c7 == 2 {
            v.push(f(FanKind::YiSeShuangLongHui, 64));
        }
        let ghost p1 = v@;
        let p = presence(runs);
        let mut full: usize = 0;
        let mut s: usize = 0;
        while s < 3
            invariant
                s <= 3,
                ps < 3,
                full <= s,
                forall|a: int, n: int|
                    #![trigger p@[a * 10 + n]]
                    #![trigger present(runs@, a, n)]
                    0 <= a < 3 && 0 <= n < 10 ==> p@[a * 10 + n] == present(runs@, a, n),
                full == (if 0 < s && 0 != ps && present(runs@, 0, 1) && present(runs@, 0, 7) {
                    1int
                } else {
                    0int
                }) + (if 1 < s && 1 != ps && present(runs@, 1, 1) && present(runs@, 1, 7) {
                    1int
                } else {
                    0int
                }) + (if 2 < s && 2 != ps && present(runs@, 2, 1) && present(runs@, 2, 7) {
                    1int
                } else {
                    0int
                }),
            decreases 3 - s,
        {
            assert(p@[s * 10 + 1] == present(runs@, s as int, 1));
            assert(p@[s * 10 + 7] == present(runs@, s as int, 7));
            if s != ps && p[s * 10 + 1] && p[s * 10 + 7] {
                full = full + 1;
            }
            s = s + 1;
        }
        if full == 2 && suit_check(runs, ps, false) {
            v.push(f(FanKind::SanSeShuangLongHui, 16));
        }
        assert(v@ =~= p1 + opt(
            terminal_pairs_besides(runs@, ps as int) == 2 && none_in_suit(runs@, ps as int),
            mk(FanKind::SanSeShuangLongHui, 16),
        ));
    }
    assert(v@ =~= dragon_meet_fans(ds@, pair, runs@));
    v
}

fn misc_part_a(ctx: &WinCtx, h: &Facts) -> (v: Vec<Fan>)
    requires
        facts_of(*h, ctx@),
    ensures
        v@ == misc_fans_a(ctx@),
{
    let all = ctx.all;
    let ds = &ctx.decomp.sets;
    let pair = h.pair;
    let ns = h.nsuit;
    let mut v: Vec<Fan> = Vec::new();
    if with_five_check(ds, pair) {
        v.push(f(FanKind::QuanDaiWu, 16));
    }
    if with_yao_check(ds, pair) {
        v.push(f(FanKind::QuanDaiYao, 4));
    }
    let ghost p0 = v@;
    let mut a = size_part(all);
    v.append(&mut a);
    let ghost p1 = v@;
    if all_tiles_pass(all, Filter::Above5) {
        v.push(f(FanKind::DaYuWu, 12));
    }
    if all_tiles_pass(all, Filter::Below5) {
        v.push(f(FanKind::XiaoYuWu, 12));
    }
    assert(v@ =~= p1 + opt(all_pass(*all, Filter::Above5), mk(FanKind::DaYuWu, 12)) + opt(
        all_pass(*all, Filter::Below5),
        mk(FanKind::XiaoYuWu, 12),
    ));
    let ghost p2 = v@;
    if all_trips(ds) && all_even_check(ds) && is_suited(pair) && num(pair) % 2 == 0 {
        v.push(f(FanKind::QuanShuangKe, 24));
    }
    if ns == 3 && any_held(all, 27, 30) && any_held(all, 31, 33) {
        v.push(f(FanKind::WuMenQi, 6));
    }
    assert(v@ =~= p2 + opt(
        all_triplets(ds@) && all_even(ds@) && is_suited(pair) && num(pair) % 2 == 0,
        mk(FanKind::QuanShuangKe, 24),
    ) + opt(ns == 3 && held_in(*all, 27, 30) && held_in(*all, 31, 33), mk(FanKind::WuMenQi, 6)));
    assert(v@ =~= misc_fans_a(ctx@));
    v
}

fn misc_part_b(ctx: &WinCtx, h: &Facts) -> (v: Vec<Fan>)
    requires
        facts_of(*h, ctx@),
    ensures
        v@ == misc_fans_b(ctx@),
{
    let all = ctx.all;
    let ds = &ctx.decomp.sets;
    let pair = h.pair;
    let ns = h.nsuit;
    let mut v: Vec<Fan> = Vec::new();
    if all_runs_check(ds) && is_suited(pair) {
        v.push(f(FanKind::PingHe, 2));
    }
    if all_tiles_simple(all) {
        v.push(f(FanKind::DuanYao, 2));
    }
    let ghost p4 = v@;
    if ns == 2 {
        v.push(f(FanKind::QueYiMen, 1));
    }
    if !h.honor {
        v.push(f(FanKind::WuZi, 1));
    }
    assert(v@ =~= p4 + opt(ns == 2, mk(FanKind::QueYiMen, 1)) + opt(
        !honor_held(*all),
        mk(FanKind::WuZi, 1),
    ));
    let ghost p5 = v@;
    let mut t: usize = 0;
    while t < NUM_TILES
        invariant
            t <= 34,
            v@ == p5 + four_kind_fans(*all, ds@, t as int),
        decreases 34 - t,
    {
        if all[t] == 4 && !kan_on_check(ds, t) {
            v.push(f(FanKind::SiGuiYi, 2));
        }
        t = t + 1;
        assert(v@ =~= p5 + four_kind_fans(*all, ds@, t as int));
    }
    let ghost p6 = v@;
    if all_tiles_pass(all, Filter::Tuibu) {
        v.push(f(FanKind::TuiBuDao, 8));
    }
    assert(v@ =~= p6 + opt(all_pass(*all, Filter::Tuibu), mk(FanKind::TuiBuDao, 8)));
    let mut b = dragon_meet_part(ds, pair, &h.runs);
    v.append(&mut b);
    assert(v@ =~= misc_fans_b(ctx@));
    v
}

// ----- the winning tile -----

/// Whether run `g` holds tile `w` (and, if asked, is concealed).
pub open spec fn run_holds(g: Group, w: usize, concealed_only: bool) -> bool {
    &&& g.kind == SetKind::Run
    &&& (g.tile == w || g.tile + 1 == w || g.tile + 2 == w)
    &&& (concealed_only ==> !g.open)
}

/// First set from `i` on that is a run holding `w` (the length if none).
pub open spec fn first_run_with(ds: Seq<Group>, w: usize, concealed_only: bool, i: int) -> int
    decreases ds.len() - i,
{
    if i >= ds.len() {
        ds.len() as int
    } else if run_holds(ds[i], w, concealed_only) {
        i
    } else {
        first_run_with(ds, w, concealed_only, i + 1)
    }
}

/// Edge wait (12 waiting on 3, 89 on 7) or closed wait (13 on 2) of the run
/// `g` completed by `w`.
pub open spec fn edge_fans(g: Group, w: usize) -> Seq<Fan> {
    if w == g.tile + 2 && num(g.tile) == 1 {
        seq![mk(FanKind::BianZhang, 1)]
    } else if w == g.tile && num(g.tile) == 7 {
        seq![mk(FanKind::BianZhang, 1)]
    } else if w == g.tile + 1 {
        seq![mk(FanKind::KanZhang, 1)]
    } else {
        Seq::empty()
    }
}

/// On a single wait: the pair completed (single wait on the pair), or the
/// first run holding the winning tile as an edge or closed wait.
pub open spec fn wait_fans(ctx: WinModel, pair: usize, concealed_only: bool) -> Seq<Fan> {
    let ds = ctx.decomp.sets;
    let w = ctx.win_tile;
    if ctx.single_wait {
        if pair == w {
            seq![mk(FanKind::DanDiaoJiang, 1)]
        } else {
            let i = first_run_with(ds, w, concealed_only, 0);
            if i < ds.len() {
                edge_fans(ds[i], w)
            } else {
                Seq::empty()
            }
        }
    } else {
        Seq::empty()
    }
}

fn run_holds_exec(g: Group, w: usize, concealed_only: bool) -> (r: bool)
    ensures
        r == run_holds(g, w, concealed_only),
{
    g.kind == SetKind::Run && (g.tile == w || (w >= 1 && g.tile == w - 1) || (w >= 2 && g.tile == w - 2))
        && (!concealed_only || !g.open)
}

pub fn wait_part(ctx: &WinCtx, pair: usize, concealed_only: bool) -> (v: Vec<Fan>)
    ensures
        v@ == wait_fans(ctx@, pair, concealed_only),
{
    let ds = &ctx.decomp.sets;
    let w = ctx.win_tile;
    let mut v: Vec<Fan> = Vec::new();
    if ctx.single_wait {
        if pair == w {
            v.push(f(FanKind::DanDiaoJiang, 1));
        } else {
            let mut i: usize = 0;
            while i < ds.len() && !run_holds_exec(ds[i], w, concealed_only)
                invariant
                    i <= ds@.len(),
                    first_run_with(ds@, w, concealed_only, 0) == first_run_with(ds@, w, concealed_only, i as int),
                decreases ds@.len() - i,
            {
                i = i + 1;
            }
            if i < ds.len() {
                let g = ds[i];
                let n = num(g.tile);
                if w >= 2 && g.tile == w - 2 && n == 1 {
                    v.push(f(FanKind::BianZhang, 1));
                } else if w == g.tile && n == 7 {
                    v.push(f(FanKind::BianZhang, 1));
                } else if w >= 1 && g.tile == w - 1 {
                    v.push(f(FanKind::KanZhang, 1));
                }
            }
        }
    }
    assert(v@ =~= wait_fans(ctx@, pair, concealed_only));
    v
}

// ----- all standard patterns -----

/// The standard patterns before exclusions, in the order they are listed.
pub open spec fn standard_raw(ctx: WinModel) -> Seq<Fan> {
    honor_color_fans(ctx) + triplet_fans(ctx) + run_fans(ctx) + misc_fans(ctx) + wait_fans(
        ctx,
        ctx.decomp.pair->0,
        false,
    )
}


/// The standard patterns before exclusions.
pub fn standard_part(ctx: &WinCtx) -> (v: Vec<Fan>)
    requires
        ctx.decomp.pair is Some,
        ctx.decomp.sets.len() <= 10000,
    ensures
        v@ == standard_raw(ctx@),
{
    let pair = match ctx.decomp.pair {
        Some(p) => p,
        None => 0,
    };
    proof {
        crate::fans::facts::lemma_run_tiles_len(ctx.decomp.sets@);
    }
    let h = Facts {
        runs: crate::fans::facts::runs_of(&ctx.decomp.sets),
        trips: crate::fans::facts::trips_of(&ctx.decomp.sets),
        pair,
        nsuit: crate::fans::facts::suits_held(ctx.all),
        honor: crate::fans::facts::has_honor(ctx.all),
    };
    let mut v = honor_color_part(ctx, &h);
    let mut a = triplet_part(ctx, &h);
    v.append(&mut a);
    let mut b = run_part(ctx, &h);
    v.append(&mut b);
    let mut c = misc_part_a(ctx, &h);
    v.append(&mut c);
    let mut d = misc_part_b(ctx, &h);
    v.append(&mut d);
    let mut e = wait_part(ctx, pair, false);
    v.append(&mut e);
    assert(v@ =~= standard_raw(ctx@));
    v
}

} // verus!
