//! Size bounds on fan lists, so that point totals fit in a `u32`.
use vstd::prelude::*;
use crate::decompose::Special;
use crate::fans::facts::{run_tiles, trip_tiles, lemma_run_tiles_len};
use crate::fans::pairs::{link_inner, link_outer, pair_counts, pair_fans, initial_links, LinkState, link_step, relabel, slot};
use crate::fans::special::{pairs_color_fans, special_base, special_color, special_raw};
use crate::fans::standard::{
    all_even, all_in_suit, all_runs, all_triplets, big_honor_fans, concealed_fans,
    concealed_trip_count, cross_shift, dragon_meet_fans, flush_fans, four_kind_fans,
    honor_color_fans, kan_counts, kan_fans, kan_on, misc_fans_a, misc_fans_b, mixed_straight,
    nine_gates, none_in_suit, one_trip_fans, opt, pure_straight, rank_count, run_fans,
    same_rank_fans, same_run_fans, shifted_run_fans, shifted_trip_fans, size_fans, standard_raw,
    terminal_fans, terminal_pairs_besides, trip_fans, triple_run, triplet_fans, wait_fans,
    with_five, with_yao,
};
use crate::fans::{
    exclusions, fan_sum, keep_fans, mk, mode_fans, spec_collect, without_single_wait, Fan,
    FanKind, WinModel, WinMode, is_self_drawn, ctx_ok,
};

verus! {

/// At most `n` fans, each worth at most `b`.
pub open spec fn fits(v: Seq<Fan>, n: int, b: int) -> bool {
    v.len() <= n && forall|i: int| 0 <= i < v.len() ==> (#[trigger] v[i]).value <= b
}

pub proof fn lemma_fits_add(a: Seq<Fan>, c: Seq<Fan>, na: int, nc: int, b: int)
    requires
        fits(a, na, b),
        fits(c, nc, b),
    ensures
        fits(a + c, na + nc, b),
{
    assert forall|i: int| 0 <= i < (a + c).len() implies (#[trigger] (a + c)[i]).value <= b by {
        if i >= a.len() {
            assert((a + c)[i] == c[i - a.len()]);
        }
    }
}

pub proof fn lemma_fits_weaken(a: Seq<Fan>, n: int, b: int, n2: int, b2: int)
    requires
        fits(a, n, b),
        n <= n2,
        b <= b2,
    ensures
        fits(a, n2, b2),
{
}

pub proof fn lemma_fan_sum_prefix(v: Seq<Fan>, k: int)
    requires
        0 <= k <= v.len(),
    ensures
        fan_sum(v.subrange(0, k)) <= fan_sum(v),
        fan_sum(v.subrange(0, k)) >= 0,
    decreases v.len(),
{
    if k == v.len() {
        assert(v.subrange(0, k) =~= v);
        lemma_fan_sum_nonneg(v);
    } else {
        lemma_fan_sum_prefix(v.drop_last(), k);
        assert(v.drop_last().subrange(0, k) =~= v.subrange(0, k));
    }
}

pub proof fn lemma_fan_sum_nonneg(v: Seq<Fan>)
    ensures
        fan_sum(v) >= 0,
    decreases v.len(),
{
    if v.len() > 0 {
        lemma_fan_sum_nonneg(v.drop_last());
    }
}

pub proof fn lemma_fan_sum_fits(v: Seq<Fan>, n: int, b: int)
    requires
        fits(v, n, b),
        b >= 0,
    ensures
        fan_sum(v) <= n * b,
    decreases v.len(),
{
    if v.len() > 0 {
        let w = v.drop_last();
        assert forall|i: int| 0 <= i < w.len() implies (#[trigger] w[i]).value <= b by {
            assert(w[i] == v[i]);
        }
        lemma_fan_sum_fits(w, n - 1, b);
        assert((n - 1) * b + b == n * b) by (nonlinear_arith);
    } else {
        assert(0 <= n * b) by (nonlinear_arith)
            requires
                0 <= n,
                0 <= b,
        ;
    }
}

proof fn lemma_keep_fits(v: Seq<Fan>, all: Seq<Fan>, n: int, b: int)
    requires
        fits(v, n, b),
    ensures
        fits(keep_fans(v, all), n, b),
    decreases v.len(),
{
    if v.len() > 0 {
        let w = v.drop_last();
        assert forall|i: int| 0 <= i < w.len() implies (#[trigger] w[i]).value <= b by {
            assert(w[i] == v[i]);
        }
        lemma_keep_fits(w, all, n - 1, b);
        let k = keep_fans(w, all);
        let tail = if crate::fans::excluded(all, v.last().kind) {
            Seq::<Fan>::empty()
        } else {
            seq![v.last()]
        };
        lemma_fits_add(k, tail, n - 1, 1, b);
    }
}

proof fn lemma_without_single_wait_fits(v: Seq<Fan>, n: int, b: int)
    requires
        fits(v, n, b),
    ensures
        fits(without_single_wait(v), n, b),
    decreases v.len(),
{
    if v.len() > 0 {
        let w = v.drop_last();
        assert forall|i: int| 0 <= i < w.len() implies (#[trigger] w[i]).value <= b by {
            assert(w[i] == v[i]);
        }
        lemma_without_single_wait_fits(w, n - 1, b);
        let k = without_single_wait(w);
        let tail = if v.last().kind == FanKind::DanDiaoJiang {
            Seq::<Fan>::empty()
        } else {
            seq![v.last()]
        };
        lemma_fits_add(k, tail, n - 1, 1, b);
    }
}

proof fn lemma_trip_fans_fits(trips: Seq<usize>, dr: int, round: usize, seat: usize)
    ensures
        fits(trip_fans(trips, dr, round, seat), 3 * (trips.len() as int), 2),
    decreases trips.len(),
{
    if trips.len() > 0 {
        lemma_trip_fans_fits(trips.drop_last(), dr, round, seat);
        let t = trips.last();
        let one = one_trip_fans(t, dr, round, seat);
        if is_dragon_spec(t) {
        } else if 27 <= t <= 30 {
            lemma_fits_add(
                opt(t == round, mk(FanKind::QuanFengKe, 2)),
                opt(t == seat, mk(FanKind::MenFengKe, 2)),
                1,
                1,
                2,
            );
            lemma_fits_add(
                opt(t == round, mk(FanKind::QuanFengKe, 2)) + opt(t == seat, mk(FanKind::MenFengKe, 2)),
                opt(t != round && t != seat, mk(FanKind::YaoJiuKe, 1)),
                2,
                1,
                2,
            );
        }
        assert(fits(one, 3, 2));
        lemma_fits_add(trip_fans(trips.drop_last(), dr, round, seat), one, 3 * ((trips.len() as int) - 1), 3, 2);
    }
}

pub open spec fn is_dragon_spec(t: usize) -> bool {
    31 <= t <= 33
}

proof fn lemma_four_kind_fits(all: crate::tiles::Counts, ds: Seq<crate::decompose::Group>, n: int)
    requires
        n >= 0,
    ensures
        fits(four_kind_fans(all, ds, n), n, 2),
    decreases n,
{
    if n > 0 {
        lemma_four_kind_fits(all, ds, n - 1);
        lemma_fits_add(
            four_kind_fans(all, ds, n - 1),
            opt(all@[n - 1] == 4 && !kan_on(ds, n - 1), mk(FanKind::SiGuiYi, 2)),
            n - 1,
            1,
            2,
        );
    }
}

proof fn lemma_link_inner_bound(runs: Seq<usize>, st: LinkState, i: int, j: int)
    requires
        st.1.len() == 4,
        st.0.len() == runs.len(),
        0 <= i < runs.len(),
        i < j,
    ensures
        link_inner(runs, st, i, j).1.len() == 4,
        link_inner(runs, st, i, j).0.len() == runs.len(),
        forall|k: int|
            0 <= k < 4 ==> #[trigger] link_inner(runs, st, i, j).1[k] <= st.1[k] + if j <= runs.len() {
                runs.len() - j
            } else {
                0
            },
        forall|k: int| 0 <= k < 4 ==> #[trigger] link_inner(runs, st, i, j).1[k] >= st.1[k],
    decreases runs.len() - j,
{
    if j < runs.len() {
        let st2 = link_step(runs, st, i, j);
        lemma_link_inner_bound(runs, st2, i, j + 1);
    }
}

proof fn lemma_link_outer_bound(runs: Seq<usize>, st: LinkState, i: int)
    requires
        st.1.len() == 4,
        st.0.len() == runs.len(),
        0 <= i <= runs.len(),
    ensures
        link_outer(runs, st, i).1.len() == 4,
        forall|k: int|
            0 <= k < 4 ==> #[trigger] link_outer(runs, st, i).1[k] <= st.1[k] + (runs.len() - i)
                * runs.len(),
        forall|k: int| 0 <= k < 4 ==> #[trigger] link_outer(runs, st, i).1[k] >= st.1[k],
    decreases runs.len() - i,
{
    if i < runs.len() {
        let st2 = link_inner(runs, st, i, i + 1);
        lemma_link_inner_bound(runs, st, i, i + 1);
        lemma_link_outer_bound(runs, st2, i + 1);
        assert forall|k: int| 0 <= k < 4 implies #[trigger] link_outer(runs, st, i).1[k] <= st.1[k] + (
        runs.len() - i) * runs.len() by {
            assert((runs.len() - (i + 1)) * runs.len() + runs.len() - (i + 1) <= (runs.len() - i)
                * runs.len()) by (nonlinear_arith)
                requires
                    0 <= i < runs.len(),
            ;
        }
    }
}

proof fn lemma_pair_fans_fits(runs: Seq<usize>)
    ensures
        fits(pair_fans(runs), 4, (runs.len() as int) * (runs.len() as int)),
{
    let init: LinkState = (initial_links(runs), seq![0int, 0, 0, 0]);
    lemma_link_outer_bound(runs, init, 0);
    let c = pair_counts(runs);
    assert(c == link_outer(runs, init, 0).1);
    assert(forall|k: int| 0 <= k < 4 ==> 0 <= #[trigger] c[k] <= (runs.len() as int) * (runs.len() as int));
    let m = (runs.len() as int) * (runs.len() as int);
    let a = opt(c[0] > 0, mk(FanKind::YiBanGao, c[0] as u32));
    let b = opt(c[1] > 0, mk(FanKind::XiXiangFeng, c[1] as u32));
    let d = opt(c[2] > 0, mk(FanKind::LianLiu, c[2] as u32));
    let e = opt(c[3] > 0, mk(FanKind::LaoShaoFu, c[3] as u32));
    assert(0 <= c[0] <= m && 0 <= c[1] <= m && 0 <= c[2] <= m && 0 <= c[3] <= m);
    assert(m <= u32::MAX ==> fits(a, 1, m));
    if m <= u32::MAX {
        lemma_fits_add(a, b, 1, 1, m);
        lemma_fits_add(a + b, d, 2, 1, m);
        lemma_fits_add(a + b + d, e, 3, 1, m);
    } else {
        assert forall|i: int| 0 <= i < pair_fans(runs).len() implies (#[trigger] pair_fans(runs)[i]).value <= m by {}
    }
}

proof fn lemma_honor_fits(ctx: WinModel)
    ensures
        fits(honor_color_fans(ctx), 8, 88),
{
    let ds = ctx.decomp.sets;
    let trips = trip_tiles(ds);
    let pair = ctx.decomp.pair->0;
    let w = crate::fans::facts::count_between(trips, 27, 30);
    let dr = crate::fans::facts::count_between(trips, 31, 33);
    let all = ctx.all;
    let h1 = opt(w == 4, mk(FanKind::DaSiXi, 88));
    let h2 = opt(dr == 3, mk(FanKind::DaSanYuan, 88));
    let h3 = opt(w == 3 && crate::tiles::is_wind(pair), mk(FanKind::XiaoSiXi, 64));
    let h4 = opt(dr == 2 && crate::tiles::is_dragon(pair), mk(FanKind::XiaoSanYuan, 64));
    lemma_fits_add(h1, h2, 1, 1, 88);
    lemma_fits_add(h1 + h2, h3, 2, 1, 88);
    lemma_fits_add(h1 + h2 + h3, h4, 3, 1, 88);
    assert(big_honor_fans(ctx) == h1 + h2 + h3 + h4);
    let fl = flush_fans(crate::fans::facts::suit_count(all), crate::fans::facts::honor_held(all));
    assert(fits(fl, 1, 88));
    let g = opt(crate::fans::facts::all_pass(all, crate::plan::Filter::Green), mk(FanKind::LvYiSe, 88));
    let tm = terminal_fans(all);
    assert(fits(tm, 1, 88));
    let ng = opt(nine_gates(all), mk(FanKind::JiuLianBaoDeng, 88));
    lemma_fits_add(big_honor_fans(ctx), fl, 4, 1, 88);
    lemma_fits_add(big_honor_fans(ctx) + fl, g, 5, 1, 88);
    lemma_fits_add(big_honor_fans(ctx) + fl + g, tm, 6, 1, 88);
    lemma_fits_add(big_honor_fans(ctx) + fl + g + tm, ng, 7, 1, 88);
    assert(honor_color_fans(ctx) == big_honor_fans(ctx) + fl + g + tm + ng);
}

proof fn lemma_triplet_fits(ctx: WinModel)
    ensures
        fits(triplet_fans(ctx), 6 + 3 * (ctx.decomp.sets.len() as int), 88),
{
    let ds = ctx.decomp.sets;
    let m = ds.len() as int;
    lemma_run_tiles_len(ds);
    let trips = trip_tiles(ds);
    let pair = ctx.decomp.pair->0;
    let w = crate::fans::facts::count_between(trips, 27, 30);
    let dr = crate::fans::facts::count_between(trips, 31, 33);
    let kc = kan_counts(ds);
    let k1 = kan_fans(kc.0, kc.1, kc.2);
    assert(fits(k1, 1, 88));
    let k2 = opt(all_triplets(ds), mk(FanKind::PengPengHe, 6));
    let k3 = concealed_fans(concealed_trip_count(ds, ctx.tsumo, ctx.win_tile));
    assert(fits(k3, 1, 88));
    lemma_trip_fans_fits(trips, dr, ctx.round_wind, ctx.seat_wind);
    let k4 = trip_fans(trips, dr, ctx.round_wind, ctx.seat_wind);
    lemma_fits_weaken(k4, 3 * (trips.len() as int), 2, 3 * m, 88);
    let k5 = opt(w == 3 && !crate::tiles::is_wind(pair), mk(FanKind::SanFengKe, 12));
    let k6 = opt(dr == 2, mk(FanKind::ShuangJianKe, 6));
    let k7 = same_rank_fans(trips);
    assert(fits(k7, 1, 88));
    lemma_fits_add(k1, k2, 1, 1, 88);
    lemma_fits_add(k1 + k2, k3, 2, 1, 88);
    lemma_fits_add(k1 + k2 + k3, k4, 3, 3 * m, 88);
    lemma_fits_add(k1 + k2 + k3 + k4, k5, 3 + 3 * m, 1, 88);
    lemma_fits_add(k1 + k2 + k3 + k4 + k5, k6, 4 + 3 * m, 1, 88);
    lemma_fits_add(k1 + k2 + k3 + k4 + k5 + k6, k7, 5 + 3 * m, 1, 88);
    assert(triplet_fans(ctx) == k1 + k2 + k3 + k4 + k5 + k6 + k7);
}

proof fn lemma_run_fits(ctx: WinModel)
    ensures
        fits(
            run_fans(ctx),
            12,
            88 + (run_tiles(ctx.decomp.sets).len() as int) * (run_tiles(ctx.decomp.sets).len() as int),
        ),
{
    let ds = ctx.decomp.sets;
    let runs = run_tiles(ds);
    let trips = trip_tiles(ds);
    let rn = runs.len() as int;
    assert(0 <= rn * rn) by (nonlinear_arith);
    let bb = 88 + rn * rn;
    let r1 = same_run_fans(runs);
    assert(fits(r1, 1, 88));
    let r2 = shifted_trip_fans(trips);
    assert(fits(r2, 1, 88));
    let r3 = opt(pure_straight(runs), mk(FanKind::QingLong, 16));
    let r4 = opt(mixed_straight(runs), mk(FanKind::HuaLong, 8));
    let r5 = shifted_run_fans(runs);
    assert(fits(r5, 1, 88));
    let r6 = opt(triple_run(runs), mk(FanKind::SanSeSanTongShun, 8));
    let r7 = opt(cross_shift(trips), mk(FanKind::SanSeSanJieGao, 8));
    let r8 = opt(cross_shift(runs), mk(FanKind::SanSeSanBuGao, 6));
    lemma_pair_fans_fits(runs);
    let r9 = pair_fans(runs);
    lemma_fits_weaken(r9, 4, rn * rn, 4, bb);
    lemma_fits_add(r1, r2, 1, 1, bb);
    lemma_fits_add(r1 + r2, r3, 2, 1, bb);
    lemma_fits_add(r1 + r2 + r3, r4, 3, 1, bb);
    lemma_fits_add(r1 + r2 + r3 + r4, r5, 4, 1, bb);
    lemma_fits_add(r1 + r2 + r3 + r4 + r5, r6, 5, 1, bb);
    lemma_fits_add(r1 + r2 + r3 + r4 + r5 + r6, r7, 6, 1, bb);
    lemma_fits_add(r1 + r2 + r3 + r4 + r5 + r6 + r7, r8, 7, 1, bb);
    lemma_fits_add(r1 + r2 + r3 + r4 + r5 + r6 + r7 + r8, r9, 8, 4, bb);
    assert(run_fans(ctx) == r1 + r2 + r3 + r4 + r5 + r6 + r7 + r8 + r9);
}

proof fn lemma_standard_fits(ctx: WinModel)
    ensures
        fits(
            standard_raw(ctx),
            75 + 3 * (ctx.decomp.sets.len() as int),
            88 + (ctx.decomp.sets.len() as int) * (ctx.decomp.sets.len() as int),
        ),
{
    let ds = ctx.decomp.sets;
    let m = ds.len() as int;
    lemma_run_tiles_len(ds);
    let rn = run_tiles(ds).len() as int;
    assert(rn * rn <= m * m) by (nonlinear_arith)
        requires
            0 <= rn <= m,
    ;
    let bb = 88 + m * m;
    let pair = ctx.decomp.pair->0;
    lemma_honor_fits(ctx);
    lemma_triplet_fits(ctx);
    lemma_run_fits(ctx);
    lemma_misc_a_fits(ctx);
    lemma_misc_b_fits(ctx);
    let hc = honor_color_fans(ctx);
    let tf = triplet_fans(ctx);
    let rf = run_fans(ctx);
    let ma = misc_fans_a(ctx);
    let mb = misc_fans_b(ctx);
    let wf = wait_fans(ctx, pair, false);
    assert(fits(wf, 1, 88));
    lemma_fits_weaken(hc, 8, 88, 8, bb);
    lemma_fits_weaken(tf, 6 + 3 * m, 88, 6 + 3 * m, bb);
    lemma_fits_weaken(rf, 12, 88 + rn * rn, 12, bb);
    lemma_fits_weaken(ma, 7, 88, 7, bb);
    lemma_fits_weaken(mb, 41, 88, 41, bb);
    lemma_fits_weaken(wf, 1, 88, 1, bb);
    lemma_fits_add(hc, tf, 8, 6 + 3 * m, bb);
    lemma_fits_add(hc + tf, rf, 14 + 3 * m, 12, bb);
    lemma_fits_add(hc + tf + rf, ma, 26 + 3 * m, 7, bb);
    lemma_fits_add(hc + tf + rf + ma, mb, 33 + 3 * m, 41, bb);
    lemma_fits_add(hc + tf + rf + ma + mb, wf, 74 + 3 * m, 1, bb);
    assert(standard_raw(ctx) == hc + tf + rf + (ma + mb) + wf);
    assert(hc + tf + rf + (ma + mb) =~= hc + tf + rf + ma + mb);
}

proof fn lemma_misc_a_fits(ctx: WinModel)
    ensures
        fits(misc_fans_a(ctx), 7, 88),
{
    let all = ctx.all;
    let ds = ctx.decomp.sets;
    let pair = ctx.decomp.pair->0;
    let ns = crate::fans::facts::suit_count(all);
    let a1 = opt(with_five(ds, pair), mk(FanKind::QuanDaiWu, 16));
    let a2 = opt(with_yao(ds, pair), mk(FanKind::QuanDaiYao, 4));
    let a3 = size_fans(all);
    assert(fits(a3, 1, 88));
    let a4 = opt(crate::fans::facts::all_pass(all, crate::plan::Filter::Above5), mk(FanKind::DaYuWu, 12));
    let a5 = opt(crate::fans::facts::all_pass(all, crate::plan::Filter::Below5), mk(FanKind::XiaoYuWu, 12));
    let a6 = opt(
        all_triplets(ds) && all_even(ds) && crate::tiles::is_suited(pair) && crate::tiles::num(pair) % 2 == 0,
        mk(FanKind::QuanShuangKe, 24),
    );
    let a7 = opt(
        ns == 3 && crate::fans::facts::held_in(all, 27, 30) && crate::fans::facts::held_in(all, 31, 33),
        mk(FanKind::WuMenQi, 6),
    );
    lemma_fits_add(a1, a2, 1, 1, 88);
    lemma_fits_add(a1 + a2, a3, 2, 1, 88);
    lemma_fits_add(a1 + a2 + a3, a4, 3, 1, 88);
    lemma_fits_add(a1 + a2 + a3 + a4, a5, 4, 1, 88);
    lemma_fits_add(a1 + a2 + a3 + a4 + a5, a6, 5, 1, 88);
    lemma_fits_add(a1 + a2 + a3 + a4 + a5 + a6, a7, 6, 1, 88);
    assert(misc_fans_a(ctx) == a1 + a2 + a3 + a4 + a5 + a6 + a7);
}

proof fn lemma_misc_b_fits(ctx: WinModel)
    ensures
        fits(misc_fans_b(ctx), 41, 88),
{
    let all = ctx.all;
    let ds = ctx.decomp.sets;
    let pair = ctx.decomp.pair->0;
    let ns = crate::fans::facts::suit_count(all);
    let b1 = opt(all_runs(ds) && crate::tiles::is_suited(pair), mk(FanKind::PingHe, 2));
    let b2 = opt(crate::fans::facts::all_simples(all), mk(FanKind::DuanYao, 2));
    let b3 = opt(ns == 2, mk(FanKind::QueYiMen, 1));
    let b4 = opt(!crate::fans::facts::honor_held(all), mk(FanKind::WuZi, 1));
    lemma_four_kind_fits(all, ds, 34);
    let b5 = four_kind_fans(all, ds, 34);
    lemma_fits_weaken(b5, 34, 2, 34, 88);
    let b6 = opt(crate::fans::facts::all_pass(all, crate::plan::Filter::Tuibu), mk(FanKind::TuiBuDao, 8));
    let b7 = dragon_meet_fans(ds, pair, run_tiles(ds));
    if ds.len() == 4 && all_runs(ds) && crate::tiles::is_suited(pair) && crate::tiles::num(pair) == 5 {
        let ps = crate::tiles::suit(pair) as int;
        let runs = run_tiles(ds);
        lemma_fits_add(
            opt(
                all_in_suit(runs, ps) && rank_count(runs, 1) == 2 && rank_count(runs, 7) == 2,
                mk(FanKind::YiSeShuangLongHui, 64),
            ),
            opt(
                terminal_pairs_besides(runs, ps) == 2 && none_in_suit(runs, ps),
                mk(FanKind::SanSeShuangLongHui, 16),
            ),
            1,
            1,
            88,
        );
    }
    assert(fits(b7, 2, 88));
    lemma_fits_add(b1, b2, 1, 1, 88);
    lemma_fits_add(b1 + b2, b3, 2, 1, 88);
    lemma_fits_add(b1 + b2 + b3, b4, 3, 1, 88);
    lemma_fits_add(b1 + b2 + b3 + b4, b5, 4, 34, 88);
    lemma_fits_add(b1 + b2 + b3 + b4 + b5, b6, 38, 1, 88);
    lemma_fits_add(b1 + b2 + b3 + b4 + b5 + b6, b7, 39, 2, 88);
    assert(misc_fans_b(ctx) == b1 + b2 + b3 + b4 + b5 + b6 + b7);
}

proof fn lemma_special_fits(ctx: WinModel, sp: Special)
    ensures
        fits(special_raw(ctx, sp), 10, 88),
{
    let base = special_base(ctx, sp);
    if sp == Special::Zuhelong {
        let z1 = seq![mk(FanKind::ZuHeLong, 12)];
        let z2 = opt(crate::fans::special::knitted_all_chows(ctx), mk(FanKind::PingHe, 2));
        let z3 = opt(!crate::fans::facts::honor_held(ctx.all), mk(FanKind::WuZi, 1));
        let z4 = match ctx.decomp.pair {
            Some(p) => wait_fans(ctx, p, true),
            None => Seq::empty(),
        };
        assert(fits(z4, 1, 88));
        lemma_fits_add(z1, z2, 1, 1, 88);
        lemma_fits_add(z1 + z2, z3, 2, 1, 88);
        lemma_fits_add(z1 + z2 + z3, z4, 3, 1, 88);
        assert(base == z1 + z2 + z3 + z4);
    }
    assert(fits(base, 4, 88));
    let col = special_color(ctx, sp);
    if sp == Special::SevenPairs || sp == Special::SevenPairsStraight {
        let all = ctx.all;
        let ns = crate::fans::facts::suit_count(all);
        let h = crate::fans::facts::honor_held(all);
        let c1 = if ns == 1 && !h {
            seq![mk(FanKind::QingYiSe, 24), mk(FanKind::WuZi, 1)]
        } else if ns == 1 && h {
            seq![mk(FanKind::HunYiSe, 6)]
        } else if ns == 0 {
            seq![mk(FanKind::ZiYiSe, 64)]
        } else {
            Seq::empty()
        };
        assert(fits(c1, 2, 88));
        let c2 = opt(ns == 2, mk(FanKind::QueYiMen, 1));
        let c3 = opt(!h, mk(FanKind::WuZi, 1));
        let c4 = opt(crate::fans::facts::all_simples(all), mk(FanKind::DuanYao, 2));
        lemma_fits_add(c1, c2, 2, 1, 88);
        lemma_fits_add(c1 + c2, c3, 3, 1, 88);
        lemma_fits_add(c1 + c2 + c3, c4, 4, 1, 88);
        assert(pairs_color_fans(all) == c1 + c2 + c3 + c4);
    }
    assert(fits(col, 5, 88));
    let all = ctx.all;
    let wm = opt(
        crate::fans::facts::suit_count(all) == 3 && crate::fans::facts::held_in(all, 27, 30)
            && crate::fans::facts::held_in(all, 31, 33),
        mk(FanKind::WuMenQi, 6),
    );
    lemma_fits_add(base, col, 4, 5, 88);
    lemma_fits_add(base + col, wm, 9, 1, 88);
}

/// The shape patterns of an interpretation with at most 500 sets: at most
/// 1575 fans, each worth at most 250088.
pub proof fn lemma_collect_fits(ctx: WinModel)
    requires
        ctx.decomp.sets.len() <= 500,
    ensures
        fits(spec_collect(ctx), 1575, 250088),
        fan_sum(spec_collect(ctx)) <= 393888600,
{
    let m = ctx.decomp.sets.len() as int;
    assert(m * m <= 250000) by (nonlinear_arith)
        requires
            0 <= m <= 500,
    ;
    match ctx.decomp.special {
        Some(sp) => {
            lemma_special_fits(ctx, sp);
            lemma_keep_fits(special_raw(ctx, sp), special_raw(ctx, sp), 10, 88);
            lemma_fits_weaken(exclusions(special_raw(ctx, sp)), 10, 88, 1575, 250088);
        },
        None => {
            lemma_standard_fits(ctx);
            let s = standard_raw(ctx);
            lemma_keep_fits(s, s, 75 + 3 * m, 88 + m * m);
            lemma_fits_weaken(exclusions(s), 75 + 3 * m, 88 + m * m, 1575, 250088);
        },
    }
    lemma_fan_sum_fits(spec_collect(ctx), 1575, 250088);
}

pub proof fn lemma_extras_fits(mode: WinMode, menqing: bool, implied: bool, qqr: bool)
    ensures
        fan_sum(mode_fans(mode, menqing, implied) + opt(qqr, mk(FanKind::QuanQiuRen, 6))) <= 24,
{
    let e = mode_fans(mode, menqing, implied) + opt(qqr, mk(FanKind::QuanQiuRen, 6));
    let a = mode_fans(mode, menqing, implied);
    let drawn = if menqing && !implied {
        seq![mk(FanKind::BuQiuRen, 4)]
    } else {
        seq![mk(FanKind::ZiMo, 1)]
    };
    let concealed = opt(menqing && !implied, mk(FanKind::MenQianQing, 2));
    let last = seq![mk(FanKind::HeJueZhang, 4)];
    lemma_fits_add(concealed, last, 1, 1, 6);
    lemma_fits_add(drawn, last, 1, 1, 6);
    assert(fits(a, 2, 6));
    lemma_fits_add(a, opt(qqr, mk(FanKind::QuanQiuRen, 6)), 2, 1, 6);
    lemma_fan_sum_fits(e, 3, 6);
}

/// The totals `score` adds fit in a `u32`.
pub proof fn lemma_score_bounds(ctx: WinModel, mode: WinMode)
    requires
        ctx_ok(ctx),
    ensures
        fan_sum(spec_collect(WinModel { tsumo: is_self_drawn(mode), ..ctx })) <= 393888600,
        fan_sum(without_single_wait(spec_collect(WinModel { tsumo: is_self_drawn(mode), ..ctx })))
            <= 393888600,
        forall|menqing: bool, implied: bool, qqr: bool|
            #[trigger] fan_sum(mode_fans(mode, menqing, implied) + opt(qqr, mk(FanKind::QuanQiuRen, 6)))
                <= 24,
{
    let c2 = WinModel { tsumo: is_self_drawn(mode), ..ctx };
    lemma_collect_fits(c2);
    lemma_without_single_wait_fits(spec_collect(c2), 1575, 250088);
    lemma_fan_sum_fits(without_single_wait(spec_collect(c2)), 1575, 250088);
    assert forall|menqing: bool, implied: bool, qqr: bool|
        #[trigger] fan_sum(mode_fans(mode, menqing, implied) + opt(qqr, mk(FanKind::QuanQiuRen, 6)))
            <= 24 by {
        lemma_extras_fits(mode, menqing, implied, qqr);
    }
}

} // verus!
