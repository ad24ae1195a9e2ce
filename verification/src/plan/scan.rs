//! The patterns the planner tries, in order, and what each is asked of the
//! searches.
use vstd::prelude::*;
use crate::decompose::{perm, spec_perm};
use crate::model::{Meld, MeldKind};
use crate::plan::search::{
    best_forced, best_standard, best_view, run, sets_ok, sets_view, spec_best_forced, trip,
};
use crate::plan::shapes::{
    bu_kao, knitted, nine_gates, nine_gates_target, seven_pairs, seven_pairs_straight,
    spec_bu_kao, spec_knitted, spec_seven_pairs, spec_seven_pairs_straight, spec_thirteen_orphans,
    thirteen_orphans,
};
use crate::plan::target::spec_cover;
use crate::plan::{filter_ok, Filter};
use crate::tiles::{suit_name, suit_str, Counts};
use vstd::string::StringExecFns;

verus! {

/// A family of patterns the planner tries, in the order tried.
#[derive(Clone, Copy, Debug)]
pub enum Family {
    /// Full and half flush, suit by suit.
    Flush,
    /// Patterns that restrict the tiles of four sets and a pair.
    Restricted,
    PureStraight,
    MixedStraight,
    PureShiftedChows,
    MixedShiftedChows,
    PureTripleChow,
    MixedTripleChow,
    PureShiftedPungs,
    MixedShiftedPungs,
    QuadrupleChow,
    FourPureShiftedPungs,
    FourPureShiftedChows,
    PureTerminalChows,
    ThreeSuitedTerminalChows,
    NineGates,
    KnittedStraight,
    SevenPairs,
    SevenShiftedPairs,
    ThirteenOrphans,
    HonorsAndKnitted,
    SevenStars,
}

/// How many patterns a family holds.
pub open spec fn fam_len(f: Family) -> int {
    match f {
        Family::Flush => 6,
        Family::Restricted => 13,
        Family::PureStraight => 3,
        Family::MixedStraight => 6,
        Family::PureShiftedChows => 24,
        Family::MixedShiftedChows => 48,
        Family::PureTripleChow => 21,
        Family::MixedTripleChow => 7,
        Family::PureShiftedPungs => 21,
        Family::MixedShiftedPungs => 42,
        Family::QuadrupleChow => 21,
        Family::FourPureShiftedPungs => 18,
        Family::FourPureShiftedChows => 15,
        Family::PureTerminalChows => 3,
        Family::ThreeSuitedTerminalChows => 3,
        Family::NineGates => 27,
        Family::KnittedStraight => 6,
        _ => 1,
    }
}

/// How many melds are pungs or kongs.
pub open spec fn pungs(ms: Seq<Meld>) -> int
    decreases ms.len(),
{
    if ms.len() == 0 {
        0
    } else {
        pungs(ms.drop_last()) + if ms.last().kind != MeldKind::Chi {
            1int
        } else {
            0int
        }
    }
}

/// The families tried: the patterns built on fixed sets only while fewer
/// than two melds are pungs or kongs, nine gates only without melds, the
/// knitted straight beside at most one meld.
pub open spec fn families(ms: Seq<Meld>) -> Seq<Family> {
    seq![Family::Flush, Family::Restricted] + (if pungs(ms) < 2 {
        seq![
            Family::PureStraight,
            Family::MixedStraight,
            Family::PureShiftedChows,
            Family::MixedShiftedChows,
            Family::PureTripleChow,
            Family::MixedTripleChow,
            Family::PureShiftedPungs,
            Family::MixedShiftedPungs,
            Family::QuadrupleChow,
            Family::FourPureShiftedPungs,
            Family::FourPureShiftedChows,
            Family::PureTerminalChows,
            Family::ThreeSuitedTerminalChows,
        ] + (if ms.len() == 0 {
            seq![Family::NineGates]
        } else {
            Seq::empty()
        }) + (if ms.len() <= 1 {
            seq![Family::KnittedStraight]
        } else {
            Seq::empty()
        })
    } else {
        Seq::empty()
    }) + seq![
        Family::SevenPairs,
        Family::SevenShiftedPairs,
        Family::ThirteenOrphans,
        Family::HonorsAndKnitted,
        Family::SevenStars,
    ]
}

/// What a pattern asks of the searches.
pub enum Search {
    /// Four sets and a pair under a filter: runs allowed, five kinds asked.
    Standard(Filter, bool, bool),
    /// Four sets and a pair of any tiles, some sets (and maybe the pair) fixed.
    Forced(Seq<Seq<usize>>, Option<usize>),
    /// Nine gates of a suit with an extra rank.
    Nine(int, int),
    /// The knitted straight for a column choice.
    Knitted(int),
    SevenPairs,
    ShiftedPairs,
    Orphans,
    /// Honors and knitted tiles; seven stars when set.
    Knit14(bool),
}

/// One pattern: its name, value, search and remark.
pub struct Entry {
    pub name: Seq<char>,
    pub value: u32,
    pub search: Search,
    pub tag: Seq<char>,
}

/// The run of suit `s` from rank `n`.
pub open spec fn run_of(s: int, n: int) -> Seq<usize> {
    seq![(s * 9 + n - 1) as usize, (s * 9 + n) as usize, (s * 9 + n + 1) as usize]
}

/// The triplet of suit `s`, rank `n`.
pub open spec fn trip_of(s: int, n: int) -> Seq<usize> {
    seq![(s * 9 + n - 1) as usize, (s * 9 + n - 1) as usize, (s * 9 + n - 1) as usize]
}

/// Step and starting rank of the `r`-th shifted pattern of three sets: step
/// one from ranks 1 to 5, then step two from ranks 1 to 3.
pub open spec fn step3(r: int) -> (int, int) {
    if r < 5 {
        (1, r + 1)
    } else {
        (2, r - 4)
    }
}

/// Step and starting rank of the `r`-th shifted pattern of four sets: step
/// one from ranks 1 to 4, then step two from rank 1.
pub open spec fn step4(r: int) -> (int, int) {
    if r < 4 {
        (1, r + 1)
    } else {
        (2, 1)
    }
}

/// A name with a suit in it.
pub open spec fn suited(pre: Seq<char>, s: int, post: Seq<char>) -> Seq<char> {
    pre + suit_name(s) + post
}

#[verifier::opaque]
pub open spec fn entry(f: Family, j: int) -> Entry {
    match f {
        Family::Flush => {
            let s = j / 2;
            if j % 2 == 0 {
                Entry {
                    name: suited("清一色("@, s, "门)"@),
                    value: 24,
                    search: Search::Standard(Filter::Suit(s as usize), true, false),
                    tag: ""@,
                }
            } else {
                Entry {
                    name: suited("混一色("@, s, "门)"@),
                    value: 6,
                    search: Search::Standard(Filter::Mixed(s as usize), true, false),
                    tag: ""@,
                }
            }
        },
        Family::Restricted => restricted(j),
        Family::PureStraight => Entry {
            name: suited("清龙("@, j, "门)"@),
            value: 16,
            search: Search::Forced(seq![run_of(j, 1), run_of(j, 4), run_of(j, 7)], None),
            tag: ""@,
        },
        Family::MixedStraight => {
            let p = spec_perm(j);
            Entry {
                name: "花龙"@,
                value: 8,
                search: Search::Forced(seq![run_of(p[0], 1), run_of(p[1], 4), run_of(p[2], 7)], None),
                tag: ""@,
            }
        },
        Family::PureShiftedChows => {
            let s = j / 8;
            let (d, n) = step3(j % 8);
            Entry {
                name: suited("一色三步高("@, s, "门)"@),
                value: 16,
                search: Search::Forced(seq![run_of(s, n), run_of(s, n + d), run_of(s, n + 2 * d)], None),
                tag: ""@,
            }
        },
        Family::MixedShiftedChows => {
            let p = spec_perm(j / 8);
            let (d, n) = step3(j % 8);
            Entry {
                name: "三色三步高"@,
                value: 6,
                search: Search::Forced(
                    seq![run_of(p[0], n), run_of(p[1], n + d), run_of(p[2], n + 2 * d)],
                    None,
                ),
                tag: ""@,
            }
        },
        Family::PureTripleChow => {
            let s = j / 7;
            let n = j % 7 + 1;
            Entry {
                name: suited("一色三同顺("@, s, "门)"@),
                value: 24,
                search: Search::Forced(seq![run_of(s, n), run_of(s, n), run_of(s, n)], None),
                tag: ""@,
            }
        },
        Family::MixedTripleChow => {
            let n = j + 1;
            Entry {
                name: "三色三同顺"@,
                value: 8,
                search: Search::Forced(seq![run_of(0, n), run_of(1, n), run_of(2, n)], None),
                tag: ""@,
            }
        },
        Family::PureShiftedPungs => {
            let s = j / 7;
            let n = j % 7 + 1;
            Entry {
                name: suited("一色三节高("@, s, "门)"@),
                value: 24,
                search: Search::Forced(seq![trip_of(s, n), trip_of(s, n + 1), trip_of(s, n + 2)], None),
                tag: ""@,
            }
        },
        Family::MixedShiftedPungs => {
            let p = spec_perm(j / 7);
            let n = j % 7 + 1;
            Entry {
                name: "三色三节高"@,
                value: 8,
                search: Search::Forced(
                    seq![trip_of(p[0], n), trip_of(p[1], n + 1), trip_of(p[2], n + 2)],
                    None,
                ),
                tag: ""@,
            }
        },
        Family::QuadrupleChow => {
            let s = j / 7;
            let n = j % 7 + 1;
            Entry {
                name: suited("一色四同顺("@, s, "门)"@),
                value: 48,
                search: Search::Forced(
                    seq![run_of(s, n), run_of(s, n), run_of(s, n), run_of(s, n)],
                    None,
                ),
                tag: ""@,
            }
        },
        Family::FourPureShiftedPungs => {
            let s = j / 6;
            let n = j % 6 + 1;
            Entry {
                name: suited("一色四节高("@, s, "门)"@),
                value: 48,
                search: Search::Forced(
                    seq![trip_of(s, n), trip_of(s, n + 1), trip_of(s, n + 2), trip_of(s, n + 3)],
                    None,
                ),
                tag: ""@,
            }
        },
        Family::FourPureShiftedChows => {
            let s = j / 5;
            let (d, n) = step4(j % 5);
            Entry {
                name: suited("一色四步高("@, s, "门)"@),
                value: 32,
                search: Search::Forced(
                    seq![run_of(s, n), run_of(s, n + d), run_of(s, n + 2 * d), run_of(s, n + 3 * d)],
                    None,
                ),
                tag: ""@,
            }
        },
        Family::PureTerminalChows => Entry {
            name: suited("一色双龙会("@, j, "门)"@),
            value: 64,
            search: Search::Forced(
                seq![run_of(j, 1), run_of(j, 1), run_of(j, 7), run_of(j, 7)],
                Some((j * 9 + 4) as usize),
            ),
            tag: ""@,
        },
        Family::ThreeSuitedTerminalChows => {
            let a = (j + 1) % 3;
            let b = (j + 2) % 3;
            Entry {
                name: suited("三色双龙会("@, j, "门将)"@),
                value: 16,
                search: Search::Forced(
                    seq![run_of(a, 1), run_of(a, 7), run_of(b, 1), run_of(b, 7)],
                    Some((j * 9 + 4) as usize),
                ),
                tag: ""@,
            }
        },
        Family::NineGates => Entry {
            name: suited("九莲宝灯("@, j / 9, "门)"@),
            value: 88,
            search: Search::Nine(j / 9, j % 9 + 1),
            tag: "门清"@,
        },
        Family::KnittedStraight => Entry {
            name: "组合龙"@,
            value: 12,
            search: Search::Knitted(j),
            tag: ""@,
        },
        Family::SevenPairs => Entry { name: "七对"@, value: 24, search: Search::SevenPairs, tag: "门清"@ },
        Family::SevenShiftedPairs => Entry {
            name: "连七对"@,
            value: 88,
            search: Search::ShiftedPairs,
            tag: "门清"@,
        },
        Family::ThirteenOrphans => Entry {
            name: "十三幺"@,
            value: 88,
            search: Search::Orphans,
            tag: "门清"@,
        },
        Family::HonorsAndKnitted => Entry {
            name: "全不靠"@,
            value: 12,
            search: Search::Knit14(false),
            tag: "门清"@,
        },
        Family::SevenStars => Entry {
            name: "七星不靠"@,
            value: 24,
            search: Search::Knit14(true),
            tag: "门清"@,
        },
    }
}

/// The patterns that restrict the tiles of four sets and a pair.
pub open spec fn restricted(j: int) -> Entry {
    let (name, value, f, runs, five, tag) = if j == 0 {
        ("字一色"@, 64u32, Filter::Honors, false, false, ""@)
    } else if j == 1 {
        ("清幺九"@, 64u32, Filter::TermNum, true, false, ""@)
    } else if j == 2 {
        ("混幺九"@, 32u32, Filter::TermHonor, true, false, ""@)
    } else if j == 3 {
        ("全大"@, 24u32, Filter::Big, true, false, ""@)
    } else if j == 4 {
        ("全中"@, 24u32, Filter::Mid, true, false, ""@)
    } else if j == 5 {
        ("全小"@, 24u32, Filter::Small, true, false, ""@)
    } else if j == 6 {
        ("全双刻"@, 24u32, Filter::Even, false, false, "对子须为双数"@)
    } else if j == 7 {
        ("大于五"@, 12u32, Filter::Above5, true, false, ""@)
    } else if j == 8 {
        ("小于五"@, 12u32, Filter::Below5, true, false, ""@)
    } else if j == 9 {
        ("绿一色"@, 88u32, Filter::Green, true, false, ""@)
    } else if j == 10 {
        ("推不倒"@, 8u32, Filter::Tuibu, true, false, ""@)
    } else if j == 11 {
        ("碰碰和"@, 6u32, Filter::Any, false, false, ""@)
    } else {
        ("五门齐"@, 6u32, Filter::Any, true, true, "万条筒风箭俱全"@)
    };
    Entry { name, value, search: Search::Standard(f, runs, five), tag }
}

/// What the searches find for a pattern.
pub open spec fn search_result(h: Seq<u8>, ms: Seq<Meld>, s: Search) -> Option<(u32, Seq<u8>)> {
    match s {
        Search::Standard(f, runs, five) => spec_best_forced(h, ms, f, runs, five, Seq::empty(), None),
        Search::Forced(fs, p) => spec_best_forced(h, ms, Filter::Any, true, false, fs, p),
        Search::Nine(s, x) => {
            let t = nine_gates_target(s, x);
            Some((spec_cover(h, t) as u32, t))
        },
        Search::Knitted(i) => spec_knitted(h, i, ms.len() == 1),
        Search::SevenPairs => spec_seven_pairs(h, ms),
        Search::ShiftedPairs => spec_seven_pairs_straight(h, ms),
        Search::Orphans => spec_thirteen_orphans(h, ms),
        Search::Knit14(seven) => spec_bu_kao(h, ms, seven),
    }
}


fn suited_name(pre: &str, s: usize, post: &str) -> (r: String)
    requires
        s < 3,
    ensures
        r@ == suited(pre@, s as int, post@),
{
    let mut r = String::from_str(pre);
    r.append(suit_str(s));
    r.append(post);
    r
}

fn sets3(a: [usize; 3], b: [usize; 3], c: [usize; 3]) -> (v: Vec<[usize; 3]>)
    ensures
        sets_view(v@) == seq![a@, b@, c@],
{
    let mut v: Vec<[usize; 3]> = Vec::new();
    v.push(a);
    v.push(b);
    v.push(c);
    assert(sets_view(v@) =~= seq![a@, b@, c@]);
    v
}

fn sets4(a: [usize; 3], b: [usize; 3], c: [usize; 3], d: [usize; 3]) -> (v: Vec<[usize; 3]>)
    ensures
        sets_view(v@) == seq![a@, b@, c@, d@],
{
    let mut v: Vec<[usize; 3]> = Vec::new();
    v.push(a);
    v.push(b);
    v.push(c);
    v.push(d);
    assert(sets_view(v@) =~= seq![a@, b@, c@, d@]);
    v
}

fn restricted_entry(j: usize) -> (r: (&'static str, u32, Filter, bool, bool, &'static str))
    ensures
        r.0@ == restricted(j as int).name,
        r.1 == restricted(j as int).value,
        Search::Standard(r.2, r.3, r.4) == restricted(j as int).search,
        r.5@ == restricted(j as int).tag,
{
    if j == 0 {
        ("字一色", 64, Filter::Honors, false, false, "")
    } else if j == 1 {
        ("清幺九", 64, Filter::TermNum, true, false, "")
    } else if j == 2 {
        ("混幺九", 32, Filter::TermHonor, true, false, "")
    } else if j == 3 {
        ("全大", 24, Filter::Big, true, false, "")
    } else if j == 4 {
        ("全中", 24, Filter::Mid, true, false, "")
    } else if j == 5 {
        ("全小", 24, Filter::Small, true, false, "")
    } else if j == 6 {
        ("全双刻", 24, Filter::Even, false, false, "对子须为双数")
    } else if j == 7 {
        ("大于五", 12, Filter::Above5, true, false, "")
    } else if j == 8 {
        ("小于五", 12, Filter::Below5, true, false, "")
    } else if j == 9 {
        ("绿一色", 88, Filter::Green, true, false, "")
    } else if j == 10 {
        ("推不倒", 8, Filter::Tuibu, true, false, "")
    } else if j == 11 {
        ("碰碰和", 6, Filter::Any, false, false, "")
    } else {
        ("五门齐", 6, Filter::Any, true, true, "万条筒风箭俱全")
    }
}

/// Searches for fixed sets (and maybe a fixed pair) of any tiles.
fn forced(hand: &Counts, melds: &[Meld], sets: Vec<[usize; 3]>, pair: Option<usize>) -> (r: Option<(u32, Counts)>)
    requires
        crate::plan::search::plan_melds_ok(melds@),
        sets_ok(sets_view(sets@)),
        pair matches Some(p) ==> p < 34,
    ensures
        best_view(r) == spec_best_forced(hand@, melds@, Filter::Any, true, false, sets_view(sets@), pair),
{
    proof {
        assert forall|k: int, j: int| 0 <= k < sets@.len() && 0 <= j < 3 implies crate::plan::search::tile_or_refused(
            Filter::Any,
            #[trigger] sets@[k]@[j],
        ) by {
            assert(sets_view(sets@)[k] == sets@[k]@);
        }
    }
    best_forced(hand, melds, Filter::Any, true, false, sets.as_slice(), pair)
}

fn eval_flush(hand: &Counts, melds: &[Meld], j: usize) -> (r: (String, u32, Option<(u32, Counts)>, &'static str))
    requires
        j < fam_len(Family::Flush),
        crate::plan::search::plan_melds_ok(melds@),
    ensures
        r.0@ == entry(Family::Flush, j as int).name,
        r.1 == entry(Family::Flush, j as int).value,
        best_view(r.2) == search_result(hand@, melds@, entry(Family::Flush, j as int).search),
        r.3@ == entry(Family::Flush, j as int).tag,
{
    reveal(entry);
    let s = j / 2;
    if j % 2 == 0 {
        let res = best_standard(hand, melds, Filter::Suit(s), true, false);
        (suited_name("清一色(", s, "门)"), 24, res, "")
    } else {
        let res = best_standard(hand, melds, Filter::Mixed(s), true, false);
        (suited_name("混一色(", s, "门)"), 6, res, "")
    }
}

fn eval_restricted(hand: &Counts, melds: &[Meld], j: usize) -> (r: (String, u32, Option<(u32, Counts)>, &'static str))
    requires
        j < fam_len(Family::Restricted),
        crate::plan::search::plan_melds_ok(melds@),
    ensures
        r.0@ == entry(Family::Restricted, j as int).name,
        r.1 == entry(Family::Restricted, j as int).value,
        best_view(r.2) == search_result(hand@, melds@, entry(Family::Restricted, j as int).search),
        r.3@ == entry(Family::Restricted, j as int).tag,
{
    reveal(entry);
    let (name, value, flt, runs, five, tag) = restricted_entry(j);
    let res = best_standard(hand, melds, flt, runs, five);
    (String::from_str(name), value, res, tag)
}

fn eval_pure_straight(hand: &Counts, melds: &[Meld], j: usize) -> (r: (String, u32, Option<(u32, Counts)>, &'static str))
    requires
        j < fam_len(Family::PureStraight),
        crate::plan::search::plan_melds_ok(melds@),
    ensures
        r.0@ == entry(Family::PureStraight, j as int).name,
        r.1 == entry(Family::PureStraight, j as int).value,
        best_view(r.2) == search_result(hand@, melds@, entry(Family::PureStraight, j as int).search),
        r.3@ == entry(Family::PureStraight, j as int).tag,
{
    reveal(entry);
    let res = runs3(hand, melds, j, 1, j, 4, j, 7);
    (suited_name("清龙(", j, "门)"), 16, res, "")
}

fn eval_mixed_straight(hand: &Counts, melds: &[Meld], j: usize) -> (r: (String, u32, Option<(u32, Counts)>, &'static str))
    requires
        j < fam_len(Family::MixedStraight),
        crate::plan::search::plan_melds_ok(melds@),
    ensures
        r.0@ == entry(Family::MixedStraight, j as int).name,
        r.1 == entry(Family::MixedStraight, j as int).value,
        best_view(r.2) == search_result(hand@, melds@, entry(Family::MixedStraight, j as int).search),
        r.3@ == entry(Family::MixedStraight, j as int).tag,
{
    reveal(entry);
    let p = perm(j);
    let ghost sp = spec_perm(j as int);
    assert(p@[0] as int == sp[0] && p@[1] as int == sp[1] && p@[2] as int == sp[2]);
    let res = runs3(hand, melds, p[0], 1, p[1], 4, p[2], 7);
    (String::from_str("花龙"), 8, res, "")
}

fn eval_pure_shifted_chows(hand: &Counts, melds: &[Meld], j: usize) -> (r: (String, u32, Option<(u32, Counts)>, &'static str))
    requires
        j < fam_len(Family::PureShiftedChows),
        crate::plan::search::plan_melds_ok(melds@),
    ensures
        r.0@ == entry(Family::PureShiftedChows, j as int).name,
        r.1 == entry(Family::PureShiftedChows, j as int).value,
        best_view(r.2) == search_result(hand@, melds@, entry(Family::PureShiftedChows, j as int).search),
        r.3@ == entry(Family::PureShiftedChows, j as int).tag,
{
    reveal(entry);
    let s = j / 8;
    let r = j % 8;
    let (d, n): (usize, usize) = if r < 5 {
        (1, r + 1)
    } else {
        (2, r - 4)
    };
    assert(step3(r as int) == (d as int, n as int));
    let res = runs3(hand, melds, s, n, s, n + d, s, n + 2 * d);
    (suited_name("一色三步高(", s, "门)"), 16, res, "")
}

#[verifier::rlimit(50)]
fn eval_mixed_shifted_chows(hand: &Counts, melds: &[Meld], j: usize) -> (r: (String, u32, Option<(u32, Counts)>, &'static str))
    requires
        j < fam_len(Family::MixedShiftedChows),
        crate::plan::search::plan_melds_ok(melds@),
    ensures
        r.0@ == entry(Family::MixedShiftedChows, j as int).name,
        r.1 == entry(Family::MixedShiftedChows, j as int).value,
        best_view(r.2) == search_result(hand@, melds@, entry(Family::MixedShiftedChows, j as int).search),
        r.3@ == entry(Family::MixedShiftedChows, j as int).tag,
{
    reveal(entry);
    let p = perm(j / 8);
    let ghost sp = spec_perm((j / 8) as int);
    assert(p@[0] as int == sp[0] && p@[1] as int == sp[1] && p@[2] as int == sp[2]);
    let r = j % 8;
    let (d, n): (usize, usize) = if r < 5 {
        (1, r + 1)
    } else {
        (2, r - 4)
    };
    assert(step3(r as int) == (d as int, n as int));
    assert(j as int / 8 == (j / 8) as int);
    assert(entry(Family::MixedShiftedChows, j as int).search == Search::Forced(
        seq![run_of(sp[0], n as int), run_of(sp[1], n + d), run_of(sp[2], n + 2 * d)],
        None,
    ));
    assert(n + 2 * d <= 7);
    let res = runs3(hand, melds, p[0], n, p[1], n + d, p[2], n + 2 * d);
    (String::from_str("三色三步高"), 6, res, "")
}

fn eval_pure_triple_chow(hand: &Counts, melds: &[Meld], j: usize) -> (r: (String, u32, Option<(u32, Counts)>, &'static str))
    requires
        j < fam_len(Family::PureTripleChow),
        crate::plan::search::plan_melds_ok(melds@),
    ensures
        r.0@ == entry(Family::PureTripleChow, j as int).name,
        r.1 == entry(Family::PureTripleChow, j as int).value,
        best_view(r.2) == search_result(hand@, melds@, entry(Family::PureTripleChow, j as int).search),
        r.3@ == entry(Family::PureTripleChow, j as int).tag,
{
    reveal(entry);
    let s = j / 7;
    let n = j % 7 + 1;
    let res = runs3(hand, melds, s, n, s, n, s, n);
    (suited_name("一色三同顺(", s, "门)"), 24, res, "")
}

fn eval_mixed_triple_chow(hand: &Counts, melds: &[Meld], j: usize) -> (r: (String, u32, Option<(u32, Counts)>, &'static str))
    requires
        j < fam_len(Family::MixedTripleChow),
        crate::plan::search::plan_melds_ok(melds@),
    ensures
        r.0@ == entry(Family::MixedTripleChow, j as int).name,
        r.1 == entry(Family::MixedTripleChow, j as int).value,
        best_view(r.2) == search_result(hand@, melds@, entry(Family::MixedTripleChow, j as int).search),
        r.3@ == entry(Family::MixedTripleChow, j as int).tag,
{
    reveal(entry);
    let n = j + 1;
    let res = runs3(hand, melds, 0, n, 1, n, 2, n);
    (String::from_str("三色三同顺"), 8, res, "")
}

fn eval_pure_shifted_pungs(hand: &Counts, melds: &[Meld], j: usize) -> (r: (String, u32, Option<(u32, Counts)>, &'static str))
    requires
        j < fam_len(Family::PureShiftedPungs),
        crate::plan::search::plan_melds_ok(melds@),
    ensures
        r.0@ == entry(Family::PureShiftedPungs, j as int).name,
        r.1 == entry(Family::PureShiftedPungs, j as int).value,
        best_view(r.2) == search_result(hand@, melds@, entry(Family::PureShiftedPungs, j as int).search),
        r.3@ == entry(Family::PureShiftedPungs, j as int).tag,
{
    reveal(entry);
    let s = j / 7;
    let n = j % 7 + 1;
    let res = trips3(hand, melds, s, n, s, n + 1, s, n + 2);
    (suited_name("一色三节高(", s, "门)"), 24, res, "")
}

#[verifier::rlimit(50)]
fn eval_mixed_shifted_pungs(hand: &Counts, melds: &[Meld], j: usize) -> (r: (String, u32, Option<(u32, Counts)>, &'static str))
    requires
        j < fam_len(Family::MixedShiftedPungs),
        crate::plan::search::plan_melds_ok(melds@),
    ensures
        r.0@ == entry(Family::MixedShiftedPungs, j as int).name,
        r.1 == entry(Family::MixedShiftedPungs, j as int).value,
        best_view(r.2) == search_result(hand@, melds@, entry(Family::MixedShiftedPungs, j as int).search),
        r.3@ == entry(Family::MixedShiftedPungs, j as int).tag,
{
    reveal(entry);
    let p = perm(j / 7);
    let ghost sp = spec_perm((j / 7) as int);
    assert(p@[0] as int == sp[0] && p@[1] as int == sp[1] && p@[2] as int == sp[2]);
    let n = j % 7 + 1;
    let res = trips3(hand, melds, p[0], n, p[1], n + 1, p[2], n + 2);
    (String::from_str("三色三节高"), 8, res, "")
}

fn eval_quadruple_chow(hand: &Counts, melds: &[Meld], j: usize) -> (r: (String, u32, Option<(u32, Counts)>, &'static str))
    requires
        j < fam_len(Family::QuadrupleChow),
        crate::plan::search::plan_melds_ok(melds@),
    ensures
        r.0@ == entry(Family::QuadrupleChow, j as int).name,
        r.1 == entry(Family::QuadrupleChow, j as int).value,
        best_view(r.2) == search_result(hand@, melds@, entry(Family::QuadrupleChow, j as int).search),
        r.3@ == entry(Family::QuadrupleChow, j as int).tag,
{
    reveal(entry);
    let s = j / 7;
    let n = j % 7 + 1;
    let res = runs4(hand, melds, [s, s, s, s], [n, n, n, n], None);
    (suited_name("一色四同顺(", s, "门)"), 48, res, "")
}

fn eval_four_pure_shifted_pungs(hand: &Counts, melds: &[Meld], j: usize) -> (r: (String, u32, Option<(u32, Counts)>, &'static str))
    requires
        j < fam_len(Family::FourPureShiftedPungs),
        crate::plan::search::plan_melds_ok(melds@),
    ensures
        r.0@ == entry(Family::FourPureShiftedPungs, j as int).name,
        r.1 == entry(Family::FourPureShiftedPungs, j as int).value,
        best_view(r.2) == search_result(hand@, melds@, entry(Family::FourPureShiftedPungs, j as int).search),
        r.3@ == entry(Family::FourPureShiftedPungs, j as int).tag,
{
    reveal(entry);
    let s = j / 6;
    let n = j % 6 + 1;
    let res = trips4(hand, melds, s, n);
    (suited_name("一色四节高(", s, "门)"), 48, res, "")
}

#[verifier::rlimit(50)]
fn eval_four_pure_shifted_chows(hand: &Counts, melds: &[Meld], j: usize) -> (r: (String, u32, Option<(u32, Counts)>, &'static str))
    requires
        j < fam_len(Family::FourPureShiftedChows),
        crate::plan::search::plan_melds_ok(melds@),
    ensures
        r.0@ == entry(Family::FourPureShiftedChows, j as int).name,
        r.1 == entry(Family::FourPureShiftedChows, j as int).value,
        best_view(r.2) == search_result(hand@, melds@, entry(Family::FourPureShiftedChows, j as int).search),
        r.3@ == entry(Family::FourPureShiftedChows, j as int).tag,
{
    reveal(entry);
    let s = j / 5;
    let r = j % 5;
    let (d, n): (usize, usize) = if r < 4 {
        (1, r + 1)
    } else {
        (2, 1)
    };
    assert(step4(r as int) == (d as int, n as int));
    let res = runs4(hand, melds, [s, s, s, s], [n, n + d, n + 2 * d, n + 3 * d], None);
    (suited_name("一色四步高(", s, "门)"), 32, res, "")
}

fn eval_pure_terminal_chows(hand: &Counts, melds: &[Meld], j: usize) -> (r: (String, u32, Option<(u32, Counts)>, &'static str))
    requires
        j < fam_len(Family::PureTerminalChows),
        crate::plan::search::plan_melds_ok(melds@),
    ensures
        r.0@ == entry(Family::PureTerminalChows, j as int).name,
        r.1 == entry(Family::PureTerminalChows, j as int).value,
        best_view(r.2) == search_result(hand@, melds@, entry(Family::PureTerminalChows, j as int).search),
        r.3@ == entry(Family::PureTerminalChows, j as int).tag,
{
    reveal(entry);
    let res = runs4(hand, melds, [j, j, j, j], [1, 1, 7, 7], Some(j * 9 + 4));
    (suited_name("一色双龙会(", j, "门)"), 64, res, "")
}

fn eval_three_suited_terminal_chows(hand: &Counts, melds: &[Meld], j: usize) -> (r: (String, u32, Option<(u32, Counts)>, &'static str))
    requires
        j < fam_len(Family::ThreeSuitedTerminalChows),
        crate::plan::search::plan_melds_ok(melds@),
    ensures
        r.0@ == entry(Family::ThreeSuitedTerminalChows, j as int).name,
        r.1 == entry(Family::ThreeSuitedTerminalChows, j as int).value,
        best_view(r.2) == search_result(hand@, melds@, entry(Family::ThreeSuitedTerminalChows, j as int).search),
        r.3@ == entry(Family::ThreeSuitedTerminalChows, j as int).tag,
{
    reveal(entry);
    let a = (j + 1) % 3;
    let b = (j + 2) % 3;
    let res = runs4(hand, melds, [a, a, b, b], [1, 7, 1, 7], Some(j * 9 + 4));
    (suited_name("三色双龙会(", j, "门将)"), 16, res, "")
}

fn eval_nine_gates(hand: &Counts, melds: &[Meld], j: usize) -> (r: (String, u32, Option<(u32, Counts)>, &'static str))
    requires
        j < fam_len(Family::NineGates),
        crate::plan::search::plan_melds_ok(melds@),
    ensures
        r.0@ == entry(Family::NineGates, j as int).name,
        r.1 == entry(Family::NineGates, j as int).value,
        best_view(r.2) == search_result(hand@, melds@, entry(Family::NineGates, j as int).search),
        r.3@ == entry(Family::NineGates, j as int).tag,
{
    reveal(entry);
    let (c, t) = nine_gates(hand, j / 9, j % 9 + 1);
    (suited_name("九莲宝灯(", j / 9, "门)"), 88, Some((c, t)), "门清")
}

fn eval_knitted_straight(hand: &Counts, melds: &[Meld], j: usize) -> (r: (String, u32, Option<(u32, Counts)>, &'static str))
    requires
        j < fam_len(Family::KnittedStraight),
        crate::plan::search::plan_melds_ok(melds@),
    ensures
        r.0@ == entry(Family::KnittedStraight, j as int).name,
        r.1 == entry(Family::KnittedStraight, j as int).value,
        best_view(r.2) == search_result(hand@, melds@, entry(Family::KnittedStraight, j as int).search),
        r.3@ == entry(Family::KnittedStraight, j as int).tag,
{
    reveal(entry);
    (String::from_str("组合龙"), 12, knitted(hand, j, melds.len() == 1), "")
}

fn eval_seven_pairs(hand: &Counts, melds: &[Meld], j: usize) -> (r: (String, u32, Option<(u32, Counts)>, &'static str))
    requires
        j < fam_len(Family::SevenPairs),
        crate::plan::search::plan_melds_ok(melds@),
    ensures
        r.0@ == entry(Family::SevenPairs, j as int).name,
        r.1 == entry(Family::SevenPairs, j as int).value,
        best_view(r.2) == search_result(hand@, melds@, entry(Family::SevenPairs, j as int).search),
        r.3@ == entry(Family::SevenPairs, j as int).tag,
{
    reveal(entry);
    (String::from_str("七对"), 24, seven_pairs(hand, melds), "门清")
}

fn eval_seven_shifted_pairs(hand: &Counts, melds: &[Meld], j: usize) -> (r: (String, u32, Option<(u32, Counts)>, &'static str))
    requires
        j < fam_len(Family::SevenShiftedPairs),
        crate::plan::search::plan_melds_ok(melds@),
    ensures
        r.0@ == entry(Family::SevenShiftedPairs, j as int).name,
        r.1 == entry(Family::SevenShiftedPairs, j as int).value,
        best_view(r.2) == search_result(hand@, melds@, entry(Family::SevenShiftedPairs, j as int).search),
        r.3@ == entry(Family::SevenShiftedPairs, j as int).tag,
{
    reveal(entry);
    (String::from_str("连七对"), 88, seven_pairs_straight(hand, melds), "门清")
}

fn eval_thirteen_orphans(hand: &Counts, melds: &[Meld], j: usize) -> (r: (String, u32, Option<(u32, Counts)>, &'static str))
    requires
        j < fam_len(Family::ThirteenOrphans),
        crate::plan::search::plan_melds_ok(melds@),
    ensures
        r.0@ == entry(Family::ThirteenOrphans, j as int).name,
        r.1 == entry(Family::ThirteenOrphans, j as int).value,
        best_view(r.2) == search_result(hand@, melds@, entry(Family::ThirteenOrphans, j as int).search),
        r.3@ == entry(Family::ThirteenOrphans, j as int).tag,
{
    reveal(entry);
    (String::from_str("十三幺"), 88, thirteen_orphans(hand, melds), "门清")
}

fn eval_honors_and_knitted(hand: &Counts, melds: &[Meld], j: usize) -> (r: (String, u32, Option<(u32, Counts)>, &'static str))
    requires
        j < fam_len(Family::HonorsAndKnitted),
        crate::plan::search::plan_melds_ok(melds@),
    ensures
        r.0@ == entry(Family::HonorsAndKnitted, j as int).name,
        r.1 == entry(Family::HonorsAndKnitted, j as int).value,
        best_view(r.2) == search_result(hand@, melds@, entry(Family::HonorsAndKnitted, j as int).search),
        r.3@ == entry(Family::HonorsAndKnitted, j as int).tag,
{
    reveal(entry);
    (String::from_str("全不靠"), 12, bu_kao(hand, melds, false), "门清")
}

fn eval_seven_stars(hand: &Counts, melds: &[Meld], j: usize) -> (r: (String, u32, Option<(u32, Counts)>, &'static str))
    requires
        j < fam_len(Family::SevenStars),
        crate::plan::search::plan_melds_ok(melds@),
    ensures
        r.0@ == entry(Family::SevenStars, j as int).name,
        r.1 == entry(Family::SevenStars, j as int).value,
        best_view(r.2) == search_result(hand@, melds@, entry(Family::SevenStars, j as int).search),
        r.3@ == entry(Family::SevenStars, j as int).tag,
{
    reveal(entry);
    (String::from_str("七星不靠"), 24, bu_kao(hand, melds, true), "门清")
}


/// Searches with three fixed runs.
fn runs3(hand: &Counts, melds: &[Meld], s0: usize, n0: usize, s1: usize, n1: usize, s2: usize, n2: usize) -> (r: Option<(u32, Counts)>)
    requires
        crate::plan::search::plan_melds_ok(melds@),
        s0 < 3 && s1 < 3 && s2 < 3,
        1 <= n0 <= 7 && 1 <= n1 <= 7 && 1 <= n2 <= 7,
    ensures
        best_view(r) == spec_best_forced(
            hand@,
            melds@,
            Filter::Any,
            true,
            false,
            seq![run_of(s0 as int, n0 as int), run_of(s1 as int, n1 as int), run_of(s2 as int, n2 as int)],
            None,
        ),
{
    let v = sets3(run(s0, n0), run(s1, n1), run(s2, n2));
    forced(hand, melds, v, None)
}

/// Searches with three fixed triplets.
fn trips3(hand: &Counts, melds: &[Meld], s0: usize, n0: usize, s1: usize, n1: usize, s2: usize, n2: usize) -> (r: Option<(u32, Counts)>)
    requires
        crate::plan::search::plan_melds_ok(melds@),
        s0 < 3 && s1 < 3 && s2 < 3,
        1 <= n0 <= 9 && 1 <= n1 <= 9 && 1 <= n2 <= 9,
    ensures
        best_view(r) == spec_best_forced(
            hand@,
            melds@,
            Filter::Any,
            true,
            false,
            seq![trip_of(s0 as int, n0 as int), trip_of(s1 as int, n1 as int), trip_of(s2 as int, n2 as int)],
            None,
        ),
{
    let v = sets3(trip(s0, n0), trip(s1, n1), trip(s2, n2));
    forced(hand, melds, v, None)
}

/// Searches with four fixed runs and maybe a fixed pair.
fn runs4(
    hand: &Counts,
    melds: &[Meld],
    s: [usize; 4],
    n: [usize; 4],
    pair: Option<usize>,
) -> (r: Option<(u32, Counts)>)
    requires
        crate::plan::search::plan_melds_ok(melds@),
        forall|k: int| 0 <= k < 4 ==> #[trigger] s@[k] < 3 && 1 <= n@[k] <= 7,
        pair matches Some(p) ==> p < 34,
    ensures
        best_view(r) == spec_best_forced(
            hand@,
            melds@,
            Filter::Any,
            true,
            false,
            seq![
                run_of(s@[0] as int, n@[0] as int),
                run_of(s@[1] as int, n@[1] as int),
                run_of(s@[2] as int, n@[2] as int),
                run_of(s@[3] as int, n@[3] as int),
            ],
            pair,
        ),
{
    assert(s@[0] < 3 && 1 <= n@[0] <= 7);
    assert(s@[1] < 3 && 1 <= n@[1] <= 7);
    assert(s@[2] < 3 && 1 <= n@[2] <= 7);
    assert(s@[3] < 3 && 1 <= n@[3] <= 7);
    let v = sets4(run(s[0], n[0]), run(s[1], n[1]), run(s[2], n[2]), run(s[3], n[3]));
    forced(hand, melds, v, pair)
}

/// Searches with four fixed triplets.
fn trips4(hand: &Counts, melds: &[Meld], s: usize, n: usize) -> (r: Option<(u32, Counts)>)
    requires
        crate::plan::search::plan_melds_ok(melds@),
        s < 3,
        1 <= n <= 6,
    ensures
        best_view(r) == spec_best_forced(
            hand@,
            melds@,
            Filter::Any,
            true,
            false,
            seq![
                trip_of(s as int, n as int),
                trip_of(s as int, n + 1),
                trip_of(s as int, n + 2),
                trip_of(s as int, n + 3),
            ],
            None,
        ),
{
    let v = sets4(trip(s, n), trip(s, n + 1), trip(s, n + 2), trip(s, n + 3));
    forced(hand, melds, v, None)
}

/// The name, value, search result and remark of pattern `j` of family `f`.
pub(crate) fn evaluate(hand: &Counts, melds: &[Meld], f: Family, j: usize) -> (r: (String, u32, Option<(u32, Counts)>, &'static str))
    requires
        j < fam_len(f),
        crate::plan::search::plan_melds_ok(melds@),
    ensures
        r.0@ == entry(f, j as int).name,
        r.1 == entry(f, j as int).value,
        best_view(r.2) == search_result(hand@, melds@, entry(f, j as int).search),
        r.3@ == entry(f, j as int).tag,
{
    match f {
        Family::Flush => eval_flush(hand, melds, j),
        Family::Restricted => eval_restricted(hand, melds, j),
        Family::PureStraight => eval_pure_straight(hand, melds, j),
        Family::MixedStraight => eval_mixed_straight(hand, melds, j),
        Family::PureShiftedChows => eval_pure_shifted_chows(hand, melds, j),
        Family::MixedShiftedChows => eval_mixed_shifted_chows(hand, melds, j),
        Family::PureTripleChow => eval_pure_triple_chow(hand, melds, j),
        Family::MixedTripleChow => eval_mixed_triple_chow(hand, melds, j),
        Family::PureShiftedPungs => eval_pure_shifted_pungs(hand, melds, j),
        Family::MixedShiftedPungs => eval_mixed_shifted_pungs(hand, melds, j),
        Family::QuadrupleChow => eval_quadruple_chow(hand, melds, j),
        Family::FourPureShiftedPungs => eval_four_pure_shifted_pungs(hand, melds, j),
        Family::FourPureShiftedChows => eval_four_pure_shifted_chows(hand, melds, j),
        Family::PureTerminalChows => eval_pure_terminal_chows(hand, melds, j),
        Family::ThreeSuitedTerminalChows => eval_three_suited_terminal_chows(hand, melds, j),
        Family::NineGates => eval_nine_gates(hand, melds, j),
        Family::KnittedStraight => eval_knitted_straight(hand, melds, j),
        Family::SevenPairs => eval_seven_pairs(hand, melds, j),
        Family::SevenShiftedPairs => eval_seven_shifted_pairs(hand, melds, j),
        Family::ThirteenOrphans => eval_thirteen_orphans(hand, melds, j),
        Family::HonorsAndKnitted => eval_honors_and_knitted(hand, melds, j),
        Family::SevenStars => eval_seven_stars(hand, melds, j),
    }
}

} // verus!
