//! Only the one-suit check lists a flush: no other pattern of a standard
//! hand is the full or the half flush.
use vstd::prelude::*;
use crate::fans::facts::{run_tiles, trip_tiles};
use crate::fans::pairs::pair_fans;
use crate::fans::standard::{
    all_even, all_in_suit, all_runs, all_triplets, big_honor_fans, concealed_fans,
    concealed_trip_count, cross_shift, dragon_meet_fans, flush_fans, four_kind_fans, kan_counts,
    kan_fans, kan_on, misc_fans_a, misc_fans_b, mixed_straight, nine_gates, none_in_suit,
    one_trip_fans, opt, pure_straight, rank_count, run_fans, same_rank_fans, same_run_fans,
    shifted_run_fans, shifted_trip_fans, size_fans, standard_raw, terminal_fans,
    terminal_pairs_besides, trip_fans, triple_run, triplet_fans, wait_fans, with_five, with_yao,
};
use crate::fans::{mk, Fan, FanKind, WinModel};

verus! {

/// No fan of `v` is the full or the half flush.
pub open spec fn no_flush(v: Seq<Fan>) -> bool {
    forall|i: int|
        0 <= i < v.len() ==> (#[trigger] v[i]).kind != FanKind::QingYiSe && v[i].kind != FanKind::HunYiSe
}

proof fn lemma_nf_add(a: Seq<Fan>, c: Seq<Fan>)
    requires
        no_flush(a),
        no_flush(c),
    ensures
        no_flush(a + c),
{
    assert forall|i: int| 0 <= i < (a + c).len() implies (#[trigger] (a + c)[i]).kind != FanKind::QingYiSe
        && (a + c)[i].kind != FanKind::HunYiSe by {
        if i < a.len() {
            assert((a + c)[i] == a[i]);
        } else {
            assert((a + c)[i] == c[i - a.len()]);
        }
    }
}

proof fn lemma_nf_trip(trips: Seq<usize>, dr: int, round: usize, seat: usize)
    ensures
        no_flush(trip_fans(trips, dr, round, seat)),
    decreases trips.len(),
{
    if trips.len() > 0 {
        lemma_nf_trip(trips.drop_last(), dr, round, seat);
        let t = trips.last();
        let a = opt(t == round, mk(FanKind::QuanFengKe, 2));
        let b = opt(t == seat, mk(FanKind::MenFengKe, 2));
        let c = opt(t != round && t != seat, mk(FanKind::YaoJiuKe, 1));
        lemma_nf_add(a, b);
        lemma_nf_add(a + b, c);
        assert(no_flush(one_trip_fans(t, dr, round, seat)));
        lemma_nf_add(trip_fans(trips.drop_last(), dr, round, seat), one_trip_fans(t, dr, round, seat));
    }
}

proof fn lemma_nf_four(all: crate::tiles::Counts, ds: Seq<crate::decompose::Group>, n: int)
    ensures
        no_flush(four_kind_fans(all, ds, n)),
    decreases n,
{
    if n > 0 {
        lemma_nf_four(all, ds, n - 1);
        lemma_nf_add(
            four_kind_fans(all, ds, n - 1),
            opt(all@[n - 1] == 4 && !kan_on(ds, n - 1), mk(FanKind::SiGuiYi, 2)),
        );
    }
}

proof fn lemma_nf_pairs(runs: Seq<usize>)
    ensures
        no_flush(pair_fans(runs)),
{
    let c = crate::fans::pairs::pair_counts(runs);
    let a = opt(c[0] > 0, mk(FanKind::YiBanGao, c[0] as u32));
    let b = opt(c[1] > 0, mk(FanKind::XiXiangFeng, c[1] as u32));
    let d = opt(c[2] > 0, mk(FanKind::LianLiu, c[2] as u32));
    let e = opt(c[3] > 0, mk(FanKind::LaoShaoFu, c[3] as u32));
    lemma_nf_add(a, b);
    lemma_nf_add(a + b, d);
    lemma_nf_add(a + b + d, e);
    assert(pair_fans(runs) == a + b + d + e);
}

proof fn lemma_nf_triplet(ctx: WinModel)
    ensures
        no_flush(triplet_fans(ctx)),
{
    let ds = ctx.decomp.sets;
    let trips = trip_tiles(ds);
    let pair = ctx.decomp.pair->0;
    let w = crate::fans::facts::count_between(trips, 27, 30);
    let dr = crate::fans::facts::count_between(trips, 31, 33);
    let kc = kan_counts(ds);
    let k1 = kan_fans(kc.0, kc.1, kc.2);
    assert(no_flush(k1));
    let k2 = opt(all_triplets(ds), mk(FanKind::PengPengHe, 6));
    let k3 = concealed_fans(concealed_trip_count(ds, ctx.tsumo, ctx.win_tile));
    assert(no_flush(k3));
    lemma_nf_trip(trips, dr, ctx.round_wind, ctx.seat_wind);
    let k4 = trip_fans(trips, dr, ctx.round_wind, ctx.seat_wind);
    let k5 = opt(w == 3 && !crate::tiles::is_wind(pair), mk(FanKind::SanFengKe, 12));
    let k6 = opt(dr == 2, mk(FanKind::ShuangJianKe, 6));
    let k7 = same_rank_fans(trips);
    assert(no_flush(k7));
    lemma_nf_add(k1, k2);
    lemma_nf_add(k1 + k2, k3);
    lemma_nf_add(k1 + k2 + k3, k4);
    lemma_nf_add(k1 + k2 + k3 + k4, k5);
    lemma_nf_add(k1 + k2 + k3 + k4 + k5, k6);
    lemma_nf_add(k1 + k2 + k3 + k4 + k5 + k6, k7);
    assert(triplet_fans(ctx) == k1 + k2 + k3 + k4 + k5 + k6 + k7);
}

proof fn lemma_nf_run(ctx: WinModel)
    ensures
        no_flush(run_fans(ctx)),
{
    let ds = ctx.decomp.sets;
    let runs = run_tiles(ds);
    let trips = trip_tiles(ds);
    let r1 = same_run_fans(runs);
    assert(no_flush(r1));
    let r2 = shifted_trip_fans(trips);
    assert(no_flush(r2));
    let r3 = opt(pure_straight(runs), mk(FanKind::QingLong, 16));
    let r4 = opt(mixed_straight(runs), mk(FanKind::HuaLong, 8));
    let r5 = shifted_run_fans(runs);
    assert(no_flush(r5));
    let r6 = opt(triple_run(runs), mk(FanKind::SanSeSanTongShun, 8));
    let r7 = opt(cross_shift(trips), mk(FanKind::SanSeSanJieGao, 8));
    let r8 = opt(cross_shift(runs), mk(FanKind::SanSeSanBuGao, 6));
    lemma_nf_pairs(runs);
    let r9 = pair_fans(runs);
    lemma_nf_add(r1, r2);
    lemma_nf_add(r1 + r2, r3);
    lemma_nf_add(r1 + r2 + r3, r4);
    lemma_nf_add(r1 + r2 + r3 + r4, r5);
    lemma_nf_add(r1 + r2 + r3 + r4 + r5, r6);
    lemma_nf_add(r1 + r2 + r3 + r4 + r5 + r6, r7);
    lemma_nf_add(r1 + r2 + r3 + r4 + r5 + r6 + r7, r8);
    lemma_nf_add(r1 + r2 + r3 + r4 + r5 + r6 + r7 + r8, r9);
    assert(run_fans(ctx) == r1 + r2 + r3 + r4 + r5 + r6 + r7 + r8 + r9);
}

proof fn lemma_nf_misc_a(ctx: WinModel)
    ensures
        no_flush(misc_fans_a(ctx)),
{
    let all = ctx.all;
    let ds = ctx.decomp.sets;
    let pair = ctx.decomp.pair->0;
    let ns = crate::fans::facts::suit_count(all);
    let a1 = opt(with_five(ds, pair), mk(FanKind::QuanDaiWu, 16));
    let a2 = opt(with_yao(ds, pair), mk(FanKind::QuanDaiYao, 4));
    let a3 = size_fans(all);
    assert(no_flush(a3));
    let a4 = opt(crate::fans::facts::all_pass(all, crate::plan::Filter::Above5), mk(FanKind::DaYuWu, 12));
    let a5 = opt(crate::fans::facts::all_pass(all, crate::plan::Filter::Below5), mk(FanKind::XiaoYuWu, 12));
    let a6 = opt(
        all_triplets(ds) && all_even(ds) && crate::tiles::is_suited(pair) && crate::tiles::num(pair) % 2 == 0,
        mk(FanKind::QuanShuangKe, 24),
    );
    let a7 = opt(
        ns == 3 && crate::fans::facts::held_in(all, 27, 30) && crate::fans::facts::held_in(all, 31, 33),
        mk(FanKind::WuMenQi, 6),
    );
    lemma_nf_add(a1, a2);
    lemma_nf_add(a1 + a2, a3);
    lemma_nf_add(a1 + a2 + a3, a4);
    lemma_nf_add(a1 + a2 + a3 + a4, a5);
    lemma_nf_add(a1 + a2 + a3 + a4 + a5, a6);
    lemma_nf_add(a1 + a2 + a3 + a4 + a5 + a6, a7);
    assert(misc_fans_a(ctx) == a1 + a2 + a3 + a4 + a5 + a6 + a7);
}

proof fn lemma_nf_misc_b(ctx: WinModel)
    ensures
        no_flush(misc_fans_b(ctx)),
{
    let all = ctx.all;
    let ds = ctx.decomp.sets;
    let pair = ctx.decomp.pair->0;
    let ns = crate::fans::facts::suit_count(all);
    let b1 = opt(all_runs(ds) && crate::tiles::is_suited(pair), mk(FanKind::PingHe, 2));
    let b2 = opt(crate::fans::facts::all_simples(all), mk(FanKind::DuanYao, 2));
    let b3 = opt(ns == 2, mk(FanKind::QueYiMen, 1));
    let b4 = opt(!crate::fans::facts::honor_held(all), mk(FanKind::WuZi, 1));
    lemma_nf_four(all, ds, 34);
    let b5 = four_kind_fans(all, ds, 34);
    let b6 = opt(crate::fans::facts::all_pass(all, crate::plan::Filter::Tuibu), mk(FanKind::TuiBuDao, 8));
    let b7 = dragon_meet_fans(ds, pair, run_tiles(ds));
    if ds.len() == 4 && all_runs(ds) && crate::tiles::is_suited(pair) && crate::tiles::num(pair) == 5 {
        let ps = crate::tiles::suit(pair) as int;
        let runs = run_tiles(ds);
        lemma_nf_add(
            opt(
                all_in_suit(runs, ps) && rank_count(runs, 1) == 2 && rank_count(runs, 7) == 2,
                mk(FanKind::YiSeShuangLongHui, 64),
            ),
            opt(
                terminal_pairs_besides(runs, ps) == 2 && none_in_suit(runs, ps),
                mk(FanKind::SanSeShuangLongHui, 16),
            ),
        );
    }
    assert(no_flush(b7));
    lemma_nf_add(b1, b2);
    lemma_nf_add(b1 + b2, b3);
    lemma_nf_add(b1 + b2 + b3, b4);
    lemma_nf_add(b1 + b2 + b3 + b4, b5);
    lemma_nf_add(b1 + b2 + b3 + b4 + b5, b6);
    lemma_nf_add(b1 + b2 + b3 + b4 + b5 + b6, b7);
    assert(misc_fans_b(ctx) == b1 + b2 + b3 + b4 + b5 + b6 + b7);
}

/// Every flush in `v` is one of `fl`.
pub open spec fn flush_from(v: Seq<Fan>, fl: Seq<Fan>) -> bool {
    forall|i: int|
        0 <= i < v.len() && ((#[trigger] v[i]).kind == FanKind::QingYiSe || v[i].kind == FanKind::HunYiSe)
            ==> fl.contains(v[i])
}

proof fn lemma_ff_add(a: Seq<Fan>, c: Seq<Fan>, fl: Seq<Fan>)
    requires
        flush_from(a, fl),
        flush_from(c, fl),
    ensures
        flush_from(a + c, fl),
{
    assert forall|i: int|
        0 <= i < (a + c).len() && ((#[trigger] (a + c)[i]).kind == FanKind::QingYiSe || (a + c)[i].kind
            == FanKind::HunYiSe) implies fl.contains((a + c)[i]) by {
        if i < a.len() {
            assert((a + c)[i] == a[i]);
        } else {
            assert((a + c)[i] == c[i - a.len()]);
        }
    }
}

proof fn lemma_ff_self(fl: Seq<Fan>)
    ensures
        flush_from(fl, fl),
{
    assert forall|i: int|
        0 <= i < fl.len() && ((#[trigger] fl[i]).kind == FanKind::QingYiSe || fl[i].kind == FanKind::HunYiSe)
            implies fl.contains(fl[i]) by {}
}

/// Every flush the raw list of a standard hand holds is its one-suit
/// pattern: no other pattern is a flush.
#[verifier::rlimit(50)]
pub proof fn lemma_flush_only_there(ctx: WinModel)
    ensures
        flush_from(
            standard_raw(ctx),
            flush_fans(crate::fans::facts::suit_count(ctx.all), crate::fans::facts::honor_held(ctx.all)),
        ),
{
    let all = ctx.all;
    let pair = ctx.decomp.pair->0;
    let ds = ctx.decomp.sets;
    let fl = flush_fans(crate::fans::facts::suit_count(all), crate::fans::facts::honor_held(all));
    let trips = trip_tiles(ds);
    let w = crate::fans::facts::count_between(trips, 27, 30);
    let dr = crate::fans::facts::count_between(trips, 31, 33);
    let h1 = opt(w == 4, mk(FanKind::DaSiXi, 88));
    let h2 = opt(dr == 3, mk(FanKind::DaSanYuan, 88));
    let h3 = opt(w == 3 && crate::tiles::is_wind(pair), mk(FanKind::XiaoSiXi, 64));
    let h4 = opt(dr == 2 && crate::tiles::is_dragon(pair), mk(FanKind::XiaoSanYuan, 64));
    lemma_nf_add(h1, h2);
    lemma_nf_add(h1 + h2, h3);
    lemma_nf_add(h1 + h2 + h3, h4);
    let b = big_honor_fans(ctx);
    assert(b == h1 + h2 + h3 + h4);
    let g = opt(crate::fans::facts::all_pass(all, crate::plan::Filter::Green), mk(FanKind::LvYiSe, 88));
    let tm = terminal_fans(all);
    assert(no_flush(tm));
    let ng = opt(nine_gates(all), mk(FanKind::JiuLianBaoDeng, 88));
    lemma_nf_triplet(ctx);
    lemma_nf_run(ctx);
    lemma_nf_misc_a(ctx);
    lemma_nf_misc_b(ctx);
    let tf = triplet_fans(ctx);
    let rf = run_fans(ctx);
    let mm = crate::fans::standard::misc_fans(ctx);
    lemma_nf_add(misc_fans_a(ctx), misc_fans_b(ctx));
    assert(mm == misc_fans_a(ctx) + misc_fans_b(ctx));
    let wf = wait_fans(ctx, pair, false);
    assert(no_flush(wf));
    assert(no_flush(g));
    assert(no_flush(ng));
    lemma_ff_self(fl);
    lemma_ff_add(b, fl, fl);
    lemma_ff_add(b + fl, g, fl);
    lemma_ff_add(b + fl + g, tm, fl);
    lemma_ff_add(b + fl + g + tm, ng, fl);
    let hc = b + fl + g + tm + ng;
    assert(hc == crate::fans::standard::honor_color_fans(ctx));
    lemma_ff_add(hc, tf, fl);
    lemma_ff_add(hc + tf, rf, fl);
    lemma_ff_add(hc + tf + rf, mm, fl);
    lemma_ff_add(hc + tf + rf + mm, wf, fl);
    assert(standard_raw(ctx) == hc + tf + rf + mm + wf);
}

} // verus!
