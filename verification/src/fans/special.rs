//! Patterns of the special shapes: seven pairs, thirteen orphans, honors
//! and knitted, and the knitted straight.
use vstd::prelude::*;
use crate::decompose::{knit_tile, knit_tiles, perm, spec_perm, Group, SetKind, Special};
use crate::fans::facts::{
    all_simples, all_tiles_simple, any_held, has_honor, held_in, honor_held, suit_count,
    suits_held,
};
use crate::fans::standard::{opt, flush_part, wait_fans, wait_part};
use crate::fans::{f, mk, Fan, FanKind, WinCtx, WinModel};
use crate::model::spec_meld_set;
use crate::tiles::{is_suited, Counts};

verus! {

/// The fourth set of a knitted-straight hand: the one concealed set, or
/// else the single meld.
pub open spec fn fourth_set(ctx: WinModel) -> Option<Group> {
    if ctx.decomp.sets.len() == 1 {
        Some(ctx.decomp.sets[0])
    } else if ctx.melds.len() == 1 {
        Some(spec_meld_set(ctx.melds[0]))
    } else {
        None
    }
}

/// A knitted straight whose fourth set is a run and whose pair is suited
/// also counts as all chows.
pub open spec fn knitted_all_chows(ctx: WinModel) -> bool {
    &&& fourth_set(ctx) is Some
    &&& fourth_set(ctx)->0.kind == SetKind::Run
    &&& ctx.decomp.pair is Some
    &&& is_suited(ctx.decomp.pair->0)
}

pub open spec fn special_base(ctx: WinModel, sp: Special) -> Seq<Fan> {
    match sp {
        Special::SevenPairsStraight => seq![mk(FanKind::LianQiDui, 88)],
        Special::SevenPairs => seq![mk(FanKind::QiDui, 24)],
        Special::ThirteenOrphans => seq![mk(FanKind::ShiSanYao, 88)],
        Special::SevenStars => seq![mk(FanKind::QiXingBuKao, 24)],
        Special::BuKao => seq![mk(FanKind::QuanBuKao, 12)],
        Special::Zuhelong => seq![mk(FanKind::ZuHeLong, 12)] + opt(
            knitted_all_chows(ctx),
            mk(FanKind::PingHe, 2),
        ) + opt(!honor_held(ctx.all), mk(FanKind::WuZi, 1)) + match ctx.decomp.pair {
            Some(p) => wait_fans(ctx, p, true),
            None => Seq::empty(),
        },
    }
}

/// The hand holds every tile of the knitted straight of ordering `i`.
pub open spec fn knit_held(all: Counts, i: int) -> bool {
    forall|j: int| 0 <= j < 9 ==> #[trigger] all@[knit_tile(spec_perm(i), j)] > 0
}

pub open spec fn pairs_color_fans(all: Counts) -> Seq<Fan> {
    let ns = suit_count(all);
    let h = honor_held(all);
    (if ns == 1 && !h {
        seq![mk(FanKind::QingYiSe, 24), mk(FanKind::WuZi, 1)]
    } else if ns == 1 && h {
        seq![mk(FanKind::HunYiSe, 6)]
    } else if ns == 0 {
        seq![mk(FanKind::ZiYiSe, 64)]
    } else {
        Seq::empty()
    }) + opt(ns == 2, mk(FanKind::QueYiMen, 1)) + opt(!h, mk(FanKind::WuZi, 1)) + opt(
        all_simples(all),
        mk(FanKind::DuanYao, 2),
    )
}

pub open spec fn special_color(ctx: WinModel, sp: Special) -> Seq<Fan> {
    match sp {
        Special::SevenPairs | Special::SevenPairsStraight => pairs_color_fans(ctx.all),
        Special::BuKao => opt(
            exists|i: int| 0 <= i < 6 && #[trigger] knit_held(ctx.all, i),
            mk(FanKind::ZuHeLong, 12),
        ),
        _ => Seq::empty(),
    }
}

/// The special-shape patterns before exclusions.
pub open spec fn special_raw(ctx: WinModel, sp: Special) -> Seq<Fan> {
    let all = ctx.all;
    special_base(ctx, sp) + special_color(ctx, sp) + opt(
        suit_count(all) == 3 && held_in(all, 27, 30) && held_in(all, 31, 33),
        mk(FanKind::WuMenQi, 6),
    )
}

fn fourth_set_exec(ctx: &WinCtx) -> (r: Option<Group>)
    ensures
        r == fourth_set(ctx@),
{
    if ctx.decomp.sets.len() == 1 {
        Some(ctx.decomp.sets[0])
    } else if ctx.melds.len() == 1 {
        Some(ctx.melds[0].to_set())
    } else {
        None
    }
}

fn special_base_part(ctx: &WinCtx, sp: Special) -> (v: Vec<Fan>)
    ensures
        v@ == special_base(ctx@, sp),
{
    let mut v: Vec<Fan> = Vec::new();
    match sp {
        Special::SevenPairsStraight => v.push(f(FanKind::LianQiDui, 88)),
        Special::SevenPairs => v.push(f(FanKind::QiDui, 24)),
        Special::ThirteenOrphans => v.push(f(FanKind::ShiSanYao, 88)),
        Special::SevenStars => v.push(f(FanKind::QiXingBuKao, 24)),
        Special::BuKao => v.push(f(FanKind::QuanBuKao, 12)),
        Special::Zuhelong => {
            v.push(f(FanKind::ZuHeLong, 12));
            let fourth = fourth_set_exec(ctx);
            let pinghe = match fourth {
                Some(g) => g.kind == SetKind::Run && match ctx.decomp.pair {
                    Some(p) => is_suited(p),
                    None => false,
                },
                None => false,
            };
            if pinghe {
                v.push(f(FanKind::PingHe, 2));
            }
            if !has_honor(ctx.all) {
                v.push(f(FanKind::WuZi, 1));
            }
            let ghost p1 = v@;
            match ctx.decomp.pair {
                Some(p) => {
                    let mut w = wait_part(ctx, p, true);
                    v.append(&mut w);
                },
                None => {},
            }
            assert(v@ =~= p1 + match ctx.decomp.pair {
                Some(p) => wait_fans(ctx@, p, true),
                None => Seq::empty(),
            });
        },
    }
    assert(v@ =~= special_base(ctx@, sp));
    v
}

fn knit_held_exec(all: &Counts, i: usize) -> (r: bool)
    requires
        i < 6,
    ensures
        r == knit_held(*all, i as int),
{
    let p = perm(i);
    assert(p@.map_values(|x: usize| x as int) =~= spec_perm(i as int));
    let k = knit_tiles(p);
    let mut j: usize = 0;
    while j < 9
        invariant
            j <= 9,
            i < 6,
            k@ == crate::decompose::spec_knit_tiles(spec_perm(i as int)),
            forall|m: int| 0 <= m < 9 ==> #[trigger] k@[m] < 27,
            forall|m: int| 0 <= m < j ==> #[trigger] all@[knit_tile(spec_perm(i as int), m)] > 0,
        decreases 9 - j,
    {
        assert(k@[j as int] as int == knit_tile(spec_perm(i as int), j as int));
        if all[k[j]] == 0 {
            return false;
        }
        j = j + 1;
    }
    true
}

fn pairs_color_part(all: &Counts) -> (v: Vec<Fan>)
    ensures
        v@ == pairs_color_fans(*all),
{
    let ns = suits_held(all);
    let h = has_honor(all);
    let mut v: Vec<Fan> = Vec::new();
    if ns == 1 && !h {
        v.push(f(FanKind::QingYiSe, 24));
        v.push(f(FanKind::WuZi, 1));
    } else if ns == 1 && h {
        v.push(f(FanKind::HunYiSe, 6));
    } else if ns == 0 {
        v.push(f(FanKind::ZiYiSe, 64));
    }
    let ghost p1 = v@;
    if ns == 2 {
        v.push(f(FanKind::QueYiMen, 1));
    }
    if !h {
        v.push(f(FanKind::WuZi, 1));
    }
    if all_tiles_simple(all) {
        v.push(f(FanKind::DuanYao, 2));
    }
    assert(v@ =~= p1 + opt(ns == 2, mk(FanKind::QueYiMen, 1)) + opt(!h, mk(FanKind::WuZi, 1)) + opt(
        all_simples(*all),
        mk(FanKind::DuanYao, 2),
    ));
    assert(v@ =~= pairs_color_fans(*all));
    v
}

/// The special-shape patterns before exclusions.
pub fn special_part(ctx: &WinCtx, sp: Special) -> (v: Vec<Fan>)
    ensures
        v@ == special_raw(ctx@, sp),
{
    let all = ctx.all;
    assert(ctx@.all == *all);
    let mut v = special_base_part(ctx, sp);
    let ghost p1 = v@;
    match sp {
        Special::SevenPairs | Special::SevenPairsStraight => {
            let mut a = pairs_color_part(all);
            v.append(&mut a);
        },
        Special::BuKao => {
            let mut i: usize = 0;
            let mut found = false;
            while i < 6
                invariant
                    i <= 6,
                    found == exists|j: int| 0 <= j < i && #[trigger] knit_held(*all, j),
                decreases 6 - i,
            {
                if knit_held_exec(all, i) {
                    found = true;
                }
                i = i + 1;
            }
            if found {
                v.push(f(FanKind::ZuHeLong, 12));
            }
        },
        _ => {},
    }
    assert(v@ =~= p1 + special_color(ctx@, sp));
    let ghost p2 = v@;
    let ns = suits_held(all);
    if ns == 3 && any_held(all, 27, 30) && any_held(all, 31, 33) {
        v.push(f(FanKind::WuMenQi, 6));
    }
    assert(v@ =~= special_raw(ctx@, sp));
    v
}

} // verus!
