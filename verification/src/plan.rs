//! Planner for hands that are not yet waiting: no draw-and-discard search,
//! only how many tiles a hand lacks for each pattern.
//!
//! Distance: the fewest tiles to replace to turn the hand into a winning
//! shape of the pattern,
//!     distance = tiles in hand - how many of them the target shape covers,
//! where covering is the sum over kinds of min(hand[t], target[t]). The
//! tiles to draw are those the target has more of, the tiles to discard those
//! the hand has more of; for a hand one tile short of a win (thirteen tiles
//! less three per meld), the tiles to draw are one more than those to
//! discard (the last one is the winning tile), whatever the pattern.
use vstd::prelude::*;
use crate::model::{Meld, MeldKind};
use crate::plan::scan::{entry, fam_len, families, pungs, search_result, Family};
use crate::plan::search::best_view;
use crate::plan::target::{need_and_drop, spec_drop, spec_need};
use crate::tiles::{
    is_suited, is_terminal, is_terminal_or_honor, num, seq_sum, spec_tile_name, suit, tile_name,
    total, Counts,
};
use vstd::string::StringExecFns;

pub use crate::plan::search::{best_forced, best_standard, run, trip};
pub use crate::plan::shapes::{bu_kao, seven_pairs, seven_pairs_straight, thirteen_orphans};

pub mod scan;
pub mod complete;
pub mod knits;
pub mod search;
pub mod shapes;
pub mod sevens;
pub mod sums;
pub mod target;

verus! {

/// A restriction on the tiles a pattern may use.
#[derive(Clone, Copy, Debug, PartialEq, Eq, Structural)]
pub enum Filter {
    Any,
    /// One suit (full flush).
    Suit(usize),
    /// One suit plus honors (half flush).
    Mixed(usize),
    Honors,
    /// Terminals and honors.
    TermHonor,
    /// Suited terminals only.
    TermNum,
    Big,
    Mid,
    Small,
    Above5,
    Below5,
    /// Reversible tiles: dots 1234589, bamboo 245689, white dragon.
    Tuibu,
    /// Even suited ranks 2468.
    Even,
    /// All green: bamboo 23468, green dragon.
    Green,
}

/// Whether tile `t` passes filter `f`.
pub open spec fn filter_ok(f: Filter, t: usize) -> bool {
    match f {
        Filter::Any => true,
        Filter::Suit(s) => suit(t) == s,
        Filter::Mixed(s) => suit(t) == s || suit(t) == 3,
        Filter::Honors => suit(t) == 3,
        Filter::TermHonor => is_terminal_or_honor(t),
        Filter::TermNum => is_terminal(t),
        Filter::Big => is_suited(t) && num(t) >= 7,
        Filter::Mid => is_suited(t) && 4 <= num(t) <= 6,
        Filter::Small => is_suited(t) && num(t) <= 3,
        Filter::Above5 => is_suited(t) && num(t) >= 6,
        Filter::Below5 => is_suited(t) && num(t) <= 4,
        Filter::Even => is_suited(t) && num(t) % 2 == 0,
        Filter::Tuibu => if suit(t) == 2 {
            num(t) == 1 || num(t) == 2 || num(t) == 3 || num(t) == 4 || num(t) == 5 || num(t) == 8
                || num(t) == 9
        } else if suit(t) == 1 {
            num(t) == 2 || num(t) == 4 || num(t) == 5 || num(t) == 6 || num(t) == 8 || num(t) == 9
        } else {
            t == 33
        },
        Filter::Green => if suit(t) == 1 {
            num(t) == 2 || num(t) == 3 || num(t) == 4 || num(t) == 6 || num(t) == 8
        } else {
            t == 32
        },
    }
}

impl Filter {
    pub fn ok(self, t: usize) -> (r: bool)
        ensures
            r == filter_ok(self, t),
    {
        match self {
            Filter::Any => true,
            Filter::Suit(s) => suit(t) == s,
            Filter::Mixed(s) => suit(t) == s || suit(t) == 3,
            Filter::Honors => suit(t) == 3,
            Filter::TermHonor => is_terminal_or_honor(t),
            Filter::TermNum => is_terminal(t),
            Filter::Big => is_suited(t) && num(t) >= 7,
            Filter::Mid => is_suited(t) && 4 <= num(t) && num(t) <= 6,
            Filter::Small => is_suited(t) && num(t) <= 3,
            Filter::Above5 => is_suited(t) && num(t) >= 6,
            Filter::Below5 => is_suited(t) && num(t) <= 4,
            Filter::Even => is_suited(t) && num(t) % 2 == 0,
            Filter::Tuibu => {
                let n = num(t);
                if suit(t) == 2 {
                    n == 1 || n == 2 || n == 3 || n == 4 || n == 5 || n == 8 || n == 9
                } else if suit(t) == 1 {
                    n == 2 || n == 4 || n == 5 || n == 6 || n == 8 || n == 9
                } else {
                    t == 33
                }
            },
            Filter::Green => {
                let n = num(t);
                if suit(t) == 1 {
                    n == 2 || n == 3 || n == 4 || n == 6 || n == 8
                } else {
                    t == 32
                }
            },
        }
    }
}


/// A pattern the hand could aim for, and how far it is.
#[derive(Clone, Debug)]
pub struct Direction {
    pub name: String,
    /// Points the pattern is worth.
    pub value: u32,
    /// Tiles to replace to reach a winning shape of the pattern.
    pub distance: u32,
    /// Tiles to draw.
    pub need: Vec<usize>,
    /// Tiles to discard.
    pub drop: Vec<usize>,
    /// A remark, such as that the pattern needs a concealed hand.
    pub tag: &'static str,
}

/// The values of a `Direction`.
pub struct DirectionModel {
    pub name: Seq<char>,
    pub value: u32,
    pub distance: u32,
    pub need: Seq<usize>,
    pub drop: Seq<usize>,
    pub tag: Seq<char>,
}

impl View for Direction {
    type V = DirectionModel;

    open spec fn view(&self) -> DirectionModel {
        DirectionModel {
            name: self.name@,
            value: self.value,
            distance: self.distance,
            need: self.need@,
            drop: self.drop@,
            tag: self.tag@,
        }
    }
}

/// Tile names separated by spaces.
pub open spec fn joined_names(v: Seq<usize>) -> Seq<char>
    decreases v.len(),
{
    if v.len() == 0 {
        Seq::empty()
    } else if v.len() == 1 {
        spec_tile_name(v[0] as int)
    } else {
        joined_names(v.drop_last()) + " "@ + spec_tile_name(v.last() as int)
    }
}

/// Tile names separated by spaces, or a dash for none.
pub open spec fn spec_tile_list(v: Seq<usize>) -> Seq<char> {
    if v.len() == 0 {
        "—"@
    } else {
        joined_names(v)
    }
}

fn tile_list(v: &Vec<usize>) -> (r: String)
    requires
        forall|i: int| 0 <= i < v@.len() ==> #[trigger] v@[i] < 34,
    ensures
        r@ == spec_tile_list(v@),
{
    if v.len() == 0 {
        return String::from_str("—");
    }
    let mut r = tile_name(v[0]);
    assert(v@.subrange(0, 1).drop_last() =~= Seq::<usize>::empty());
    assert(r@ == joined_names(v@.subrange(0, 1)));
    let mut i: usize = 1;
    while i < v.len()
        invariant
            1 <= i <= v@.len(),
            forall|k: int| 0 <= k < v@.len() ==> #[trigger] v@[k] < 34,
            r@ == joined_names(v@.subrange(0, i as int)),
        decreases v@.len() - i,
    {
        r.append(" ");
        let name = tile_name(v[i]);
        r.append(name.as_str());
        assert(v@.subrange(0, i + 1).drop_last() =~= v@.subrange(0, i as int));
        i = i + 1;
    }
    assert(v@.subrange(0, v@.len() as int) =~= v@);
    r
}

/// Every tile of a list is a tile index.
pub open spec fn tiles_ok(v: Seq<usize>) -> bool {
    forall|i: int| 0 <= i < v.len() ==> #[trigger] v[i] < 34
}

impl Direction {
    /// The tiles to draw, by name.
    pub fn need_str(&self) -> (r: String)
        requires
            tiles_ok(self.need@),
        ensures
            r@ == spec_tile_list(self.need@),
    {
        tile_list(&self.need)
    }

    /// The tiles to discard, by name.
    pub fn drop_str(&self) -> (r: String)
        requires
            tiles_ok(self.drop@),
        ensures
            r@ == spec_tile_list(self.drop@),
    {
        tile_list(&self.drop)
    }
}


/// The views of some directions.
pub open spec fn dirs_view(v: Seq<Direction>) -> Seq<DirectionModel> {
    v.map_values(|d: Direction| d@)
}

/// The direction for a search result: none when nothing was found or the
/// distance (tiles held minus tiles covered) passes `max_dist`.
pub open spec fn spec_dir(
    h: Seq<u8>,
    name: Seq<char>,
    value: u32,
    res: Option<(u32, Seq<u8>)>,
    tag: Seq<char>,
    max_dist: u32,
) -> Seq<DirectionModel> {
    match res {
        None => Seq::empty(),
        Some(r) => {
            let dist = if seq_sum(h) >= r.0 {
                seq_sum(h) - r.0
            } else {
                0
            };
            if dist > max_dist {
                Seq::empty()
            } else {
                seq![
                    DirectionModel {
                        name,
                        value,
                        distance: dist as u32,
                        need: spec_need(h, r.1),
                        drop: spec_drop(h, r.1),
                        tag,
                    },
                ]
            }
        },
    }
}

fn push_dir(
    out: &mut Vec<Direction>,
    hand: &Counts,
    name: String,
    value: u32,
    res: Option<(u32, Counts)>,
    tag: &'static str,
    max_dist: u32,
)
    ensures
        dirs_view(final(out)@) == dirs_view(old(out)@) + spec_dir(
            hand@,
            name@,
            value,
            best_view(res),
            tag@,
            max_dist,
        ),
{
    match res {
        None => {
            assert(dirs_view(out@) =~= dirs_view(old(out)@) + Seq::<DirectionModel>::empty());
        },
        Some((cov, target)) => {
            let dist = total(hand).saturating_sub(cov);
            if dist > max_dist {
                assert(dirs_view(out@) =~= dirs_view(old(out)@) + Seq::<DirectionModel>::empty());
                return;
            }
            let (need, drop) = need_and_drop(hand, &target);
            let d = Direction { name, value, distance: dist, need, drop, tag };
            out.push(d);
            assert(dirs_view(out@) =~= dirs_view(old(out)@) + seq![d@]);
        },
    }
}

/// The direction of pattern `j` of family `f`.
pub open spec fn entry_dirs(h: Seq<u8>, ms: Seq<Meld>, f: Family, j: int, max_dist: u32) -> Seq<
    DirectionModel,
> {
    let e = entry(f, j);
    spec_dir(h, e.name, e.value, search_result(h, ms, e.search), e.tag, max_dist)
}

/// The directions of the first `n` patterns of family `f`.
pub open spec fn family_dirs(h: Seq<u8>, ms: Seq<Meld>, f: Family, max_dist: u32, n: int) -> Seq<
    DirectionModel,
>
    decreases n,
{
    if n <= 0 {
        Seq::empty()
    } else {
        family_dirs(h, ms, f, max_dist, n - 1) + entry_dirs(h, ms, f, n - 1, max_dist)
    }
}

/// The directions of the first `k` families of `fs`.
pub open spec fn all_dirs(h: Seq<u8>, ms: Seq<Meld>, fs: Seq<Family>, max_dist: u32, k: int) -> Seq<
    DirectionModel,
>
    decreases k,
{
    if k <= 0 {
        Seq::empty()
    } else {
        all_dirs(h, ms, fs, max_dist, k - 1) + family_dirs(
            h,
            ms,
            fs[k - 1],
            max_dist,
            fam_len(fs[k - 1]),
        )
    }
}

/// Every direction found, in the order the patterns are tried.
pub open spec fn spec_raw(h: Seq<u8>, ms: Seq<Meld>, max_dist: u32) -> Seq<DirectionModel> {
    all_dirs(h, ms, families(ms), max_dist, families(ms).len() as int)
}

fn push_family(out: &mut Vec<Direction>, hand: &Counts, melds: &[Meld], f: Family, max_dist: u32)
    requires
        crate::plan::search::plan_melds_ok(melds@),
    ensures
        dirs_view(final(out)@) == dirs_view(old(out)@) + family_dirs(
            hand@,
            melds@,
            f,
            max_dist,
            fam_len(f),
        ),
{
    let n: usize = match f {
        Family::Flush => 6,
        Family::Restricted => 13,
        Family::PureStraight => 3,
        Family::MixedStraight => 6,
        Family::PureShiftedChows => 24,
        Family::MixedShiftedChows => 48,
        Family::PureTripleChow => 21,
        Family::MixedTripleChow => 7,
        Family::PureShiftedPungs => 21,
        Family::MixedShiftedPungs => 42,
        Family::QuadrupleChow => 21,
        Family::FourPureShiftedPungs => 18,
        Family::FourPureShiftedChows => 15,
        Family::PureTerminalChows => 3,
        Family::ThreeSuitedTerminalChows => 3,
        Family::NineGates => 27,
        Family::KnittedStraight => 6,
        _ => 1,
    };
    let mut j: usize = 0;
    while j < n
        invariant
            j <= n,
            n == fam_len(f),
            crate::plan::search::plan_melds_ok(melds@),
            dirs_view(out@) == dirs_view(old(out)@) + family_dirs(hand@, melds@, f, max_dist, j as int),
        decreases n - j,
    {
        let (name, value, res, tag) = scan::evaluate(hand, melds, f, j);
        push_dir(out, hand, name, value, res, tag, max_dist);
        j = j + 1;
    }
}

fn count_pungs(melds: &[Meld]) -> (r: usize)
    ensures
        r == pungs(melds@),
{
    let mut r: usize = 0;
    let mut i: usize = 0;
    while i < melds.len()
        invariant
            i <= melds@.len(),
            r == pungs(melds@.subrange(0, i as int)),
            r <= i,
        decreases melds@.len() - i,
    {
        assert(melds@.subrange(0, i + 1).drop_last() =~= melds@.subrange(0, i as int));
        if melds[i].kind != MeldKind::Chi {
            r = r + 1;
        }
        i = i + 1;
    }
    assert(melds@.subrange(0, melds@.len() as int) =~= melds@);
    r
}

fn family_list(melds: &[Meld]) -> (v: Vec<Family>)
    ensures
        v@ == families(melds@),
{
    let mut v: Vec<Family> = Vec::new();
    v.push(Family::Flush);
    v.push(Family::Restricted);
    if count_pungs(melds) < 2 {
        v.push(Family::PureStraight);
        v.push(Family::MixedStraight);
        v.push(Family::PureShiftedChows);
        v.push(Family::MixedShiftedChows);
        v.push(Family::PureTripleChow);
        v.push(Family::MixedTripleChow);
        v.push(Family::PureShiftedPungs);
        v.push(Family::MixedShiftedPungs);
        v.push(Family::QuadrupleChow);
        v.push(Family::FourPureShiftedPungs);
        v.push(Family::FourPureShiftedChows);
        v.push(Family::PureTerminalChows);
        v.push(Family::ThreeSuitedTerminalChows);
        if melds.len() == 0 {
            v.push(Family::NineGates);
        }
        if melds.len() <= 1 {
            v.push(Family::KnittedStraight);
        }
    }
    v.push(Family::SevenPairs);
    v.push(Family::SevenShiftedPairs);
    v.push(Family::ThirteenOrphans);
    v.push(Family::HonorsAndKnitted);
    v.push(Family::SevenStars);
    assert(v@ =~= families(melds@));
    v
}

/// Whether `a` is listed before `b`: nearer first, then worth more.
pub open spec fn goes_before(a: DirectionModel, b: DirectionModel) -> bool {
    a.distance < b.distance || (a.distance == b.distance && a.value > b.value)
}

/// Where `d` goes among the first `k` of the sorted `s`: after every one it
/// does not go before.
pub open spec fn insert_pos(s: Seq<DirectionModel>, d: DirectionModel, k: int) -> int
    decreases k,
{
    if k <= 0 {
        0
    } else if goes_before(d, s[k - 1]) {
        insert_pos(s, d, k - 1)
    } else {
        k
    }
}

/// The directions sorted by distance, then by value from high to low, ties
/// kept in their order (a stable sort).
pub open spec fn sort_dirs(s: Seq<DirectionModel>) -> Seq<DirectionModel>
    decreases s.len(),
{
    if s.len() == 0 {
        Seq::empty()
    } else {
        let t = sort_dirs(s.drop_last());
        t.insert(insert_pos(t, s.last(), t.len() as int), s.last())
    }
}

/// Whether some direction of `s` has name `n`.
pub open spec fn name_seen(s: Seq<DirectionModel>, n: Seq<char>) -> bool {
    exists|i: int| 0 <= i < s.len() && (#[trigger] s[i]).name == n
}

/// The first direction of each name.
pub open spec fn dedup_dirs(s: Seq<DirectionModel>) -> Seq<DirectionModel>
    decreases s.len(),
{
    if s.len() == 0 {
        Seq::empty()
    } else {
        let k = dedup_dirs(s.drop_last());
        if name_seen(k, s.last().name) {
            k
        } else {
            k.push(s.last())
        }
    }
}

/// What `plan` returns: every direction found, sorted, the first of each
/// name.
pub open spec fn spec_plan(h: Seq<u8>, ms: Seq<Meld>, max_dist: u32) -> Seq<DirectionModel> {
    dedup_dirs(sort_dirs(spec_raw(h, ms, max_dist)))
}

fn before(a: &Direction, b: &Direction) -> (r: bool)
    ensures
        r == goes_before(a@, b@),
{
    a.distance < b.distance || (a.distance == b.distance && a.value > b.value)
}

fn sort_directions(v: Vec<Direction>) -> (r: Vec<Direction>)
    ensures
        dirs_view(r@) == sort_dirs(dirs_view(v@)),
{
    let ghost ov = v@;
    let ghost all = dirs_view(v@);
    let mut rest = v;
    let mut out: Vec<Direction> = Vec::new();
    let ghost mut i: int = 0;
    while rest.len() > 0
        invariant
            0 <= i <= all.len(),
            all == dirs_view(ov),
            rest@ == ov.subrange(i, ov.len() as int),
            dirs_view(out@) == sort_dirs(all.subrange(0, i)),
        decreases rest@.len(),
    {
        let d = rest.remove(0);
        assert(rest@ =~= ov.subrange(i + 1, ov.len() as int));
        assert(d@ == all[i]);
        let ghost s = dirs_view(out@);
        let mut k = out.len();
        while k > 0 && before(&d, &out[k - 1])
            invariant
                k <= out@.len(),
                s == dirs_view(out@),
                insert_pos(s, d@, s.len() as int) == insert_pos(s, d@, k as int),
            decreases k,
        {
            k = k - 1;
        }
        let ghost dv = d@;
        out.insert(k, d);
        assert(dirs_view(out@) =~= s.insert(k as int, dv));
        proof {
            assert(all.subrange(0, i + 1).drop_last() =~= all.subrange(0, i));
            i = i + 1;
        }
    }
    assert(all.subrange(0, all.len() as int) =~= all);
    out
}

fn has_name(kept: &Vec<Direction>, name: &String) -> (r: bool)
    ensures
        r == name_seen(dirs_view(kept@), name@),
{
    let mut i: usize = 0;
    while i < kept.len()
        invariant
            i <= kept@.len(),
            forall|k: int| 0 <= k < i ==> (#[trigger] dirs_view(kept@)[k]).name != name@,
        decreases kept@.len() - i,
    {
        if kept[i].name == *name {
            assert(dirs_view(kept@)[i as int].name == name@);
            return true;
        }
        i = i + 1;
    }
    false
}

fn dedup_directions(v: Vec<Direction>) -> (r: Vec<Direction>)
    ensures
        dirs_view(r@) == dedup_dirs(dirs_view(v@)),
{
    let ghost ov = v@;
    let ghost all = dirs_view(v@);
    let mut rest = v;
    let mut out: Vec<Direction> = Vec::new();
    let ghost mut i: int = 0;
    while rest.len() > 0
        invariant
            0 <= i <= all.len(),
            all == dirs_view(ov),
            rest@ == ov.subrange(i, ov.len() as int),
            dirs_view(out@) == dedup_dirs(all.subrange(0, i)),
        decreases rest@.len(),
    {
        let d = rest.remove(0);
        assert(rest@ =~= ov.subrange(i + 1, ov.len() as int));
        assert(d@ == all[i]);
        let ghost s = dirs_view(out@);
        if !has_name(&out, &d.name) {
            let ghost dv = d@;
            out.push(d);
            assert(dirs_view(out@) =~= s.push(dv));
        }
        proof {
            assert(all.subrange(0, i + 1).drop_last() =~= all.subrange(0, i));
            i = i + 1;
        }
    }
    assert(all.subrange(0, all.len() as int) =~= all);
    out
}

/// How far the hand is from each pattern: the directions within `max_dist`
/// tiles, nearest first, then worth most, one per name.
pub fn plan(hand: &Counts, melds: &[Meld], max_dist: u32) -> (r: Vec<Direction>)
    requires
        crate::plan::search::plan_melds_ok(melds@),
    ensures
        dirs_view(r@) == spec_plan(hand@, melds@, max_dist),
        sorted_dirs(dirs_view(r@)),
        forall|i: int| 0 <= i < r@.len() ==> dir_ok(#[trigger] dirs_view(r@)[i], max_dist),
        full_hand(hand@, melds@) ==> forall|i: int|
            0 <= i < r@.len() ==> one_more(#[trigger] dirs_view(r@)[i]),
{
    proof {
        lemma_plan_laws(hand@, melds@, max_dist);
        if full_hand(hand@, melds@) {
            lemma_plan_one_more(hand@, melds@, max_dist);
        }
    }
    let fams = family_list(melds);
    let ghost fs = families(melds@);
    let mut out: Vec<Direction> = Vec::new();
    let mut k: usize = 0;
    while k < fams.len()
        invariant
            k <= fams@.len(),
            fams@ == fs,
            fs == families(melds@),
            crate::plan::search::plan_melds_ok(melds@),
            dirs_view(out@) == all_dirs(hand@, melds@, fs, max_dist, k as int),
        decreases fams@.len() - k,
    {
        push_family(&mut out, hand, melds, fams[k], max_dist);
        k = k + 1;
    }
    let sorted = sort_directions(out);
    dedup_directions(sorted)
}


// ---------------------------------------------------------------------------
// What holds of every plan
// ---------------------------------------------------------------------------

/// Directions listed in order: none goes before an earlier one.
pub open spec fn sorted_dirs(s: Seq<DirectionModel>) -> bool {
    forall|i: int, j: int| 0 <= i < j < s.len() ==> !goes_before(#[trigger] s[j], #[trigger] s[i])
}

/// A search result whose count is the cover of its target.
pub open spec fn honest(h: Seq<u8>, r: Option<(u32, Seq<u8>)>) -> bool {
    r matches Some(b) ==> b.0 == crate::plan::target::spec_cover(h, b.1)
}

/// A direction within the limit, with as many tiles to discard as its
/// distance.
pub open spec fn dir_ok(d: DirectionModel, max_dist: u32) -> bool {
    d.distance <= max_dist && d.drop.len() == d.distance
}

proof fn lemma_search_honest(h: Seq<u8>, ms: Seq<Meld>, x: scan::Search)
    ensures
        honest(h, search_result(h, ms, x)),
{
    match x {
        scan::Search::Standard(f, runs, five) => {
            search::lemma_best_forced_optimal(h, ms, f, runs, five, Seq::empty(), None);
        },
        scan::Search::Forced(fs, p) => {
            search::lemma_best_forced_optimal(h, ms, Filter::Any, true, false, fs, p);
        },
        scan::Search::Nine(a, b) => {
            target::lemma_cover_bounds(h, shapes::nine_gates_target(a, b), 34);
        },
        scan::Search::Knitted(i) => {
            search::lemma_pick_best(h, shapes::zl_targets(i, ms.len() == 1));
        },
        scan::Search::SevenPairs => {
            target::lemma_cover_bounds(h, shapes::seven_pairs_target(h), 34);
        },
        scan::Search::ShiftedPairs => {
            search::lemma_pick_best(h, shapes::straight_targets());
        },
        scan::Search::Orphans => {
            shapes::lemma_orphans_is_cover(h, ms);
        },
        scan::Search::Knit14(seven) => {
            search::lemma_pick_best(h, shapes::bu_kao_targets(h, seven));
        },
    }
}

proof fn lemma_dir_ok(
    h: Seq<u8>,
    name: Seq<char>,
    value: u32,
    r: Option<(u32, Seq<u8>)>,
    tag: Seq<char>,
    max_dist: u32,
)
    requires
        h.len() == 34,
        honest(h, r),
    ensures
        forall|i: int|
            0 <= i < spec_dir(h, name, value, r, tag, max_dist).len() ==> dir_ok(
                #[trigger] spec_dir(h, name, value, r, tag, max_dist)[i],
                max_dist,
            ),
{
    if r is Some {
        let b = r->0;
        target::lemma_excess_len(h, b.1, 34);
        target::lemma_cover_bounds(h, b.1, 34);
        target::lemma_total(h);
    }
}

proof fn lemma_family_ok(h: Seq<u8>, ms: Seq<Meld>, f: Family, max_dist: u32, n: int)
    requires
        h.len() == 34,
    ensures
        forall|i: int|
            0 <= i < family_dirs(h, ms, f, max_dist, n).len() ==> dir_ok(
                #[trigger] family_dirs(h, ms, f, max_dist, n)[i],
                max_dist,
            ),
    decreases n,
{
    if n > 0 {
        lemma_family_ok(h, ms, f, max_dist, n - 1);
        let e = entry(f, n - 1);
        lemma_search_honest(h, ms, e.search);
        lemma_dir_ok(h, e.name, e.value, search_result(h, ms, e.search), e.tag, max_dist);
        let a = family_dirs(h, ms, f, max_dist, n - 1);
        let b = entry_dirs(h, ms, f, n - 1, max_dist);
        assert forall|i: int| 0 <= i < (a + b).len() implies dir_ok(#[trigger] (a + b)[i], max_dist) by {
            if i < a.len() {
                assert((a + b)[i] == a[i]);
            } else {
                assert((a + b)[i] == b[i - a.len()]);
            }
        }
    }
}

proof fn lemma_all_ok(h: Seq<u8>, ms: Seq<Meld>, fs: Seq<Family>, max_dist: u32, k: int)
    requires
        h.len() == 34,
        k <= fs.len(),
    ensures
        forall|i: int|
            0 <= i < all_dirs(h, ms, fs, max_dist, k).len() ==> dir_ok(
                #[trigger] all_dirs(h, ms, fs, max_dist, k)[i],
                max_dist,
            ),
    decreases k,
{
    if k > 0 {
        lemma_all_ok(h, ms, fs, max_dist, k - 1);
        lemma_family_ok(h, ms, fs[k - 1], max_dist, fam_len(fs[k - 1]));
        let a = all_dirs(h, ms, fs, max_dist, k - 1);
        let b = family_dirs(h, ms, fs[k - 1], max_dist, fam_len(fs[k - 1]));
        assert forall|i: int| 0 <= i < (a + b).len() implies dir_ok(#[trigger] (a + b)[i], max_dist) by {
            if i < a.len() {
                assert((a + b)[i] == a[i]);
            } else {
                assert((a + b)[i] == b[i - a.len()]);
            }
        }
    }
}

proof fn lemma_insert_pos(s: Seq<DirectionModel>, d: DirectionModel, k: int)
    requires
        0 <= k <= s.len(),
    ensures
        0 <= insert_pos(s, d, k) <= k,
        insert_pos(s, d, k) > 0 ==> !goes_before(d, s[insert_pos(s, d, k) - 1]),
        forall|i: int| insert_pos(s, d, k) <= i < k ==> goes_before(d, #[trigger] s[i]),
    decreases k,
{
    if k > 0 {
        lemma_insert_pos(s, d, k - 1);
    }
}

/// Whether `x` is one of `s`.
pub open spec fn listed(s: Seq<DirectionModel>, x: DirectionModel) -> bool {
    exists|j: int| 0 <= j < s.len() && s[j] == x
}

/// Whether `s` lists a direction named as `x`, at least as near as it (and,
/// as near, worth at least as much).
pub open spec fn covered(s: Seq<DirectionModel>, x: DirectionModel) -> bool {
    exists|i: int| 0 <= i < s.len() && (#[trigger] s[i]).name == x.name && !goes_before(x, s[i])
}

proof fn lemma_sort_sorted(s: Seq<DirectionModel>)
    ensures
        sorted_dirs(sort_dirs(s)),
    decreases s.len(),
{
    if s.len() > 0 {
        let w = s.drop_last();
        let d = s.last();
        lemma_sort_sorted(w);
        let t = sort_dirs(w);
        let k = insert_pos(t, d, t.len() as int);
        lemma_insert_pos(t, d, t.len() as int);
        let r = t.insert(k, d);
        assert(sort_dirs(s) == r);
        assert forall|i: int, j: int| 0 <= i < j < r.len() implies !goes_before(#[trigger] r[j], #[trigger] r[i]) by {
            if j < k {
                assert(r[i] == t[i] && r[j] == t[j]);
            } else if j == k {
                assert(r[i] == t[i]);
                if i < k - 1 {
                    assert(!goes_before(t[k - 1], t[i]));
                }
            } else if i == k {
                assert(r[j] == t[j - 1]);
                assert(goes_before(d, t[j - 1]));
            } else if i < k {
                assert(r[i] == t[i] && r[j] == t[j - 1]);
            } else {
                assert(r[i] == t[i - 1] && r[j] == t[j - 1]);
            }
        }
    }
}

proof fn lemma_sort_members(s: Seq<DirectionModel>)
    ensures
        forall|i: int| 0 <= i < sort_dirs(s).len() ==> listed(s, #[trigger] sort_dirs(s)[i]),
        forall|j: int| 0 <= j < s.len() ==> listed(sort_dirs(s), #[trigger] s[j]),
    decreases s.len(),
{
    if s.len() > 0 {
        let w = s.drop_last();
        let d = s.last();
        lemma_sort_members(w);
        let t = sort_dirs(w);
        let k = insert_pos(t, d, t.len() as int);
        lemma_insert_pos(t, d, t.len() as int);
        let r = t.insert(k, d);
        assert(sort_dirs(s) == r);
        assert forall|i: int| 0 <= i < r.len() implies listed(s, #[trigger] r[i]) by {
            if i == k {
                assert(s[s.len() - 1] == r[i]);
            } else {
                let ti = if i < k {
                    i
                } else {
                    i - 1
                };
                assert(r[i] == t[ti]);
                assert(listed(w, t[ti]));
                let j = choose|j: int| 0 <= j < w.len() && w[j] == t[ti];
                assert(s[j] == w[j]);
            }
        }
        assert forall|j: int| 0 <= j < s.len() implies listed(r, #[trigger] s[j]) by {
            if j == s.len() - 1 {
                assert(r[k] == s[j]);
            } else {
                assert(s[j] == w[j]);
                assert(listed(t, w[j]));
                let i = choose|i: int| 0 <= i < t.len() && t[i] == w[j];
                if i < k {
                    assert(r[i] == t[i]);
                } else {
                    assert(r[i + 1] == t[i]);
                }
            }
        }
    }
}

proof fn lemma_sorted_prefix(s: Seq<DirectionModel>)
    requires
        sorted_dirs(s),
        s.len() > 0,
    ensures
        sorted_dirs(s.drop_last()),
{
    let w = s.drop_last();
    assert forall|i: int, j: int| 0 <= i < j < w.len() implies !goes_before(#[trigger] w[j], #[trigger] w[i]) by {
        assert(w[i] == s[i] && w[j] == s[j]);
    }
}

proof fn lemma_dedup_members(s: Seq<DirectionModel>)
    ensures
        forall|i: int| 0 <= i < dedup_dirs(s).len() ==> listed(s, #[trigger] dedup_dirs(s)[i]),
    decreases s.len(),
{
    if s.len() > 0 {
        let w = s.drop_last();
        let x = s.last();
        lemma_dedup_members(w);
        let k = dedup_dirs(w);
        let r = dedup_dirs(s);
        assert forall|i: int| 0 <= i < r.len() implies listed(s, #[trigger] r[i]) by {
            if i < k.len() {
                assert(r[i] == k[i]);
                assert(listed(w, k[i]));
                let j = choose|j: int| 0 <= j < w.len() && w[j] == k[i];
                assert(s[j] == w[j]);
            } else {
                assert(s[s.len() - 1] == r[i]);
            }
        }
    }
}

proof fn lemma_dedup_sorted(s: Seq<DirectionModel>)
    requires
        sorted_dirs(s),
    ensures
        sorted_dirs(dedup_dirs(s)),
    decreases s.len(),
{
    if s.len() > 0 {
        let w = s.drop_last();
        let x = s.last();
        lemma_sorted_prefix(s);
        lemma_dedup_sorted(w);
        lemma_dedup_members(w);
        let k = dedup_dirs(w);
        if !name_seen(k, x.name) {
            let r = k.push(x);
            assert forall|i: int, j: int| 0 <= i < j < r.len() implies !goes_before(#[trigger] r[j], #[trigger] r[i]) by {
                if j == k.len() {
                    assert(r[i] == k[i]);
                    assert(listed(w, k[i]));
                    let jj = choose|jj: int| 0 <= jj < w.len() && w[jj] == k[i];
                    assert(s[jj] == w[jj]);
                    assert(!goes_before(s[s.len() - 1], s[jj]));
                } else {
                    assert(r[i] == k[i] && r[j] == k[j]);
                }
            }
        }
    }
}

proof fn lemma_dedup_unique(s: Seq<DirectionModel>)
    ensures
        forall|i: int, j: int|
            0 <= i < j < dedup_dirs(s).len() ==> (#[trigger] dedup_dirs(s)[i]).name != (#[trigger] dedup_dirs(s)[j]).name,
    decreases s.len(),
{
    if s.len() > 0 {
        let w = s.drop_last();
        let x = s.last();
        lemma_dedup_unique(w);
        let k = dedup_dirs(w);
        if !name_seen(k, x.name) {
            let r = k.push(x);
            assert forall|i: int, j: int| 0 <= i < j < r.len() implies (#[trigger] r[i]).name != (#[trigger] r[j]).name by {
                if j == k.len() {
                    assert(r[i] == k[i]);
                    if k[i].name == x.name {
                        assert(name_seen(k, x.name));
                    }
                } else {
                    assert(r[i] == k[i] && r[j] == k[j]);
                }
            }
        }
    }
}

proof fn lemma_covered_push(k: Seq<DirectionModel>, z: DirectionModel, y: DirectionModel)
    requires
        covered(k, y),
    ensures
        covered(k.push(z), y),
{
    let i = choose|i: int| 0 <= i < k.len() && (#[trigger] k[i]).name == y.name && !goes_before(y, k[i]);
    assert(k.push(z)[i] == k[i]);
}

proof fn lemma_dedup_covers_last(s: Seq<DirectionModel>)
    requires
        sorted_dirs(s),
        s.len() > 0,
    ensures
        covered(dedup_dirs(s), s.last()),
{
    let w = s.drop_last();
    let x = s.last();
    lemma_dedup_members(w);
    let k = dedup_dirs(w);
    if name_seen(k, x.name) {
        let i0 = choose|i: int| 0 <= i < k.len() && (#[trigger] k[i]).name == x.name;
        assert(listed(w, k[i0]));
        let jj = choose|jj: int| 0 <= jj < w.len() && w[jj] == k[i0];
        assert(s[jj] == w[jj]);
        assert(!goes_before(s[s.len() - 1], s[jj]));
        assert(dedup_dirs(s) == k);
    } else {
        assert(dedup_dirs(s) == k.push(x));
        assert(k.push(x)[k.len() as int] == x);
    }
}

proof fn lemma_dedup_covers(s: Seq<DirectionModel>)
    requires
        sorted_dirs(s),
    ensures
        forall|j: int| 0 <= j < s.len() ==> covered(dedup_dirs(s), #[trigger] s[j]),
    decreases s.len(),
{
    if s.len() > 0 {
        let w = s.drop_last();
        let x = s.last();
        lemma_sorted_prefix(s);
        lemma_dedup_covers(w);
        lemma_dedup_covers_last(s);
        let k = dedup_dirs(w);
        let r = dedup_dirs(s);
        assert(r == k || r == k.push(x));
        assert forall|j: int| 0 <= j < s.len() implies covered(r, #[trigger] s[j]) by {
            if j < s.len() - 1 {
                assert(s[j] == w[j]);
                assert(covered(k, w[j]));
                if r != k {
                    lemma_covered_push(k, x, w[j]);
                }
            }
        }
    }
}

/// What every plan satisfies: the directions are listed nearest first, then
/// by value; no name is listed twice, and for every direction found one of
/// its name at least as near (and, as near, worth at least as much) is
/// listed; each listed direction is one found, within `max_dist`, with as
/// many tiles to discard as its distance.
pub proof fn lemma_plan_laws(h: Seq<u8>, ms: Seq<Meld>, max_dist: u32)
    requires
        h.len() == 34,
    ensures
        sorted_dirs(spec_plan(h, ms, max_dist)),
        forall|i: int, j: int|
            0 <= i < j < spec_plan(h, ms, max_dist).len() ==> (#[trigger] spec_plan(h, ms, max_dist)[i]).name
                != (#[trigger] spec_plan(h, ms, max_dist)[j]).name,
        forall|i: int|
            0 <= i < spec_plan(h, ms, max_dist).len() ==> dir_ok(#[trigger] spec_plan(h, ms, max_dist)[i], max_dist),
        forall|i: int|
            0 <= i < spec_plan(h, ms, max_dist).len() ==> listed(spec_raw(h, ms, max_dist), #[trigger] spec_plan(h, ms, max_dist)[i]),
        forall|j: int|
            0 <= j < spec_raw(h, ms, max_dist).len() ==> covered(spec_plan(h, ms, max_dist), #[trigger] spec_raw(h, ms, max_dist)[j]),
{
    let raw = spec_raw(h, ms, max_dist);
    let sorted = sort_dirs(raw);
    let r = spec_plan(h, ms, max_dist);
    lemma_all_ok(h, ms, families(ms), max_dist, families(ms).len() as int);
    lemma_sort_sorted(raw);
    lemma_sort_members(raw);
    lemma_dedup_sorted(sorted);
    lemma_dedup_unique(sorted);
    lemma_dedup_members(sorted);
    lemma_dedup_covers(sorted);
    assert forall|i: int| 0 <= i < r.len() implies listed(raw, #[trigger] r[i]) && dir_ok(r[i], max_dist) by {
        assert(listed(sorted, r[i]));
        let a = choose|a: int| 0 <= a < sorted.len() && sorted[a] == r[i];
        assert(listed(raw, sorted[a]));
        let b = choose|b: int| 0 <= b < raw.len() && raw[b] == sorted[a];
        assert(dir_ok(raw[b], max_dist));
    }
    assert forall|j: int| 0 <= j < raw.len() implies covered(r, #[trigger] raw[j]) by {
        assert(listed(sorted, raw[j]));
        let a = choose|a: int| 0 <= a < sorted.len() && sorted[a] == raw[j];
        assert(covered(r, sorted[a]));
    }
}

// ---------------------------------------------------------------------------
// One tile more to draw than to discard
// ---------------------------------------------------------------------------

/// Tiles listed in tile order.
pub open spec fn ascending(v: Seq<usize>) -> bool {
    forall|i: int, j: int| 0 <= i < j < v.len() ==> #[trigger] v[i] <= #[trigger] v[j]
}

/// A direction that draws one tile more than it discards (the winning
/// tile), lists both in tile order, and never draws a kind it discards.
pub open spec fn one_more(d: DirectionModel) -> bool {
    &&& d.need.len() == d.distance + 1
    &&& ascending(d.need)
    &&& ascending(d.drop)
    &&& forall|i: int, j: int|
        0 <= i < d.need.len() && 0 <= j < d.drop.len() ==> #[trigger] d.need[i] != #[trigger] d.drop[j]
}

/// A hand of as many tiles as it should hold beside its melds: at most four
/// melds and thirteen tiles less three per meld.
pub open spec fn full_hand(h: Seq<u8>, ms: Seq<Meld>) -> bool {
    ms.len() <= 4 && seq_sum(h) == 13 - 3 * ms.len()
}

proof fn lemma_dir_one_more(
    h: Seq<u8>,
    ms: Seq<Meld>,
    name: Seq<char>,
    value: u32,
    r: Option<(u32, Seq<u8>)>,
    tag: Seq<char>,
    max_dist: u32,
)
    requires
        h.len() == 34,
        full_hand(h, ms),
        honest(h, r),
        sums::sized(ms, r),
    ensures
        forall|i: int|
            0 <= i < spec_dir(h, name, value, r, tag, max_dist).len() ==> one_more(
                #[trigger] spec_dir(h, name, value, r, tag, max_dist)[i],
            ),
{
    if r is Some {
        let b = r->0;
        target::lemma_excess_len(h, b.1, 34);
        target::lemma_excess_len(b.1, h, 34);
        target::lemma_cover_bounds(h, b.1, 34);
        target::lemma_total(h);
        target::lemma_excess_order(h, b.1, 34);
        target::lemma_excess_order(b.1, h, 34);
        let need = spec_need(h, b.1);
        let drop = spec_drop(h, b.1);
        assert forall|i: int, j: int| 0 <= i < need.len() && 0 <= j < drop.len() implies #[trigger] need[i]
            != #[trigger] drop[j] by {
            assert(b.1[need[i] as int] > h[need[i] as int]);
            assert(h[drop[j] as int] > b.1[drop[j] as int]);
        }
    }
}

proof fn lemma_family_one_more(h: Seq<u8>, ms: Seq<Meld>, f: Family, max_dist: u32, n: int)
    requires
        h.len() == 34,
        full_hand(h, ms),
        sums::fam_allowed(f, ms),
        n <= fam_len(f),
    ensures
        forall|i: int|
            0 <= i < family_dirs(h, ms, f, max_dist, n).len() ==> one_more(
                #[trigger] family_dirs(h, ms, f, max_dist, n)[i],
            ),
    decreases n,
{
    if n > 0 {
        lemma_family_one_more(h, ms, f, max_dist, n - 1);
        let e = entry(f, n - 1);
        lemma_search_honest(h, ms, e.search);
        sums::lemma_search_sized(h, ms, f, n - 1);
        lemma_dir_one_more(h, ms, e.name, e.value, search_result(h, ms, e.search), e.tag, max_dist);
        let a = family_dirs(h, ms, f, max_dist, n - 1);
        let b = entry_dirs(h, ms, f, n - 1, max_dist);
        assert forall|i: int| 0 <= i < (a + b).len() implies one_more(#[trigger] (a + b)[i]) by {
            if i < a.len() {
                assert((a + b)[i] == a[i]);
            } else {
                assert((a + b)[i] == b[i - a.len()]);
            }
        }
    }
}

proof fn lemma_all_one_more(h: Seq<u8>, ms: Seq<Meld>, max_dist: u32, k: int)
    requires
        h.len() == 34,
        full_hand(h, ms),
        k <= families(ms).len(),
    ensures
        forall|i: int|
            0 <= i < all_dirs(h, ms, families(ms), max_dist, k).len() ==> one_more(
                #[trigger] all_dirs(h, ms, families(ms), max_dist, k)[i],
            ),
    decreases k,
{
    if k > 0 {
        let fs = families(ms);
        lemma_all_one_more(h, ms, max_dist, k - 1);
        sums::lemma_families_allowed(ms);
        assert(sums::fam_allowed(fs[k - 1], ms));
        lemma_family_one_more(h, ms, fs[k - 1], max_dist, fam_len(fs[k - 1]));
        let a = all_dirs(h, ms, fs, max_dist, k - 1);
        let b = family_dirs(h, ms, fs[k - 1], max_dist, fam_len(fs[k - 1]));
        assert forall|i: int| 0 <= i < (a + b).len() implies one_more(#[trigger] (a + b)[i]) by {
            if i < a.len() {
                assert((a + b)[i] == a[i]);
            } else {
                assert((a + b)[i] == b[i - a.len()]);
            }
        }
    }
}

/// For a hand of thirteen tiles less three per meld (at most four melds),
/// every direction draws one tile more than it discards: its target is a
/// winning shape of fourteen tiles less three per meld, and the extra tile
/// is the winning one. Both lists are in tile order and share no tile.
pub proof fn lemma_plan_one_more(h: Seq<u8>, ms: Seq<Meld>, max_dist: u32)
    requires
        h.len() == 34,
        full_hand(h, ms),
    ensures
        forall|i: int|
            0 <= i < spec_plan(h, ms, max_dist).len() ==> one_more(#[trigger] spec_plan(h, ms, max_dist)[i]),
{
    let raw = spec_raw(h, ms, max_dist);
    let r = spec_plan(h, ms, max_dist);
    lemma_all_one_more(h, ms, max_dist, families(ms).len() as int);
    lemma_plan_laws(h, ms, max_dist);
    assert forall|i: int| 0 <= i < r.len() implies one_more(#[trigger] r[i]) by {
        assert(listed(raw, r[i]));
        let b = choose|b: int| 0 <= b < raw.len() && raw[b] == r[i];
        assert(one_more(raw[b]));
    }
}

} // verus!
