//! Scoring a waiting hand.
//!
//! The input is a waiting hand: 13 - 3 x melds concealed tiles (a kan's
//! fourth tile is not counted). Each of the 34 tiles is tried as the winning
//! tile: first the set of tiles that complete a winning shape (to tell a
//! single wait), then the points of each completing tile for the four ways
//! of winning.
use vstd::prelude::*;
use crate::decompose::{
    ci, decompose_standard, decomps_view, hand_set, lemma_decompose_standard_sound, set_count, sets_count, splits, valid_counts, SetKind, is_bu_kao, is_seven_pairs, is_seven_pairs_straight,
    is_seven_stars, is_thirteen_orphans, perm, spec_decompose_standard, spec_is_bu_kao,
    spec_is_seven_pairs, spec_is_seven_pairs_straight, spec_is_seven_stars,
    spec_is_thirteen_orphans, spec_perm, spec_run, spec_triplet, Decomp, DecompModel, Group, Special,
};
use crate::fans::{score, spec_score, ctx_ok, Fan, WinCtx, WinMode, WinModel};
use crate::model::{breaks_menqing, meld_is_open, spec_meld_set, spec_meld_tiles, Meld, MeldKind};
use crate::tiles::{seq_sum, total, Counts, NUM_TILES};

verus! {

// ---------------------------------------------------------------------------
// Knitted straight
// ---------------------------------------------------------------------------

/// Tile `t` belongs to the knitted straight of ordering `i`.
pub open spec fn is_knit(i: int, t: int) -> bool {
    t < 27 && (t % 9) % 3 == spec_perm(i)[t / 9]
}

/// The hand holds every tile of the knitted straight of ordering `i`.
pub open spec fn knit_ok(c: Seq<int>, i: int) -> bool {
    forall|t: int| 0 <= t < 34 && is_knit(i, t) ==> #[trigger] c[t] >= 1
}

pub open spec fn minus_knit(c: Seq<int>, i: int) -> Seq<int> {
    Seq::new(34, |t: int| if is_knit(i, t) { c[t] - 1 } else { c[t] })
}

pub open spec fn zl_decomp(p: int, sets: Seq<Group>) -> DecompModel {
    DecompModel { pair: Some(p as usize), sets, special: Some(Special::Zuhelong) }
}

/// Knitted-straight interpretations with the pair `p` and a run starting
/// below `t` as the fourth set.
pub open spec fn zl_runs(c2: Seq<int>, p: int, t: int) -> Seq<DecompModel>
    decreases t,
{
    if t <= 0 {
        Seq::empty()
    } else {
        zl_runs(c2, p, t - 1) + if (t - 1) % 9 <= 6 && c2[t - 1] > 0 && c2[t] > 0 && c2[t + 1] > 0 {
            seq![zl_decomp(p, seq![spec_run(t - 1)])]
        } else {
            Seq::empty()
        }
    }
}

/// ... and a triplet below `t` as the fourth set.
pub open spec fn zl_trips(c2: Seq<int>, p: int, t: int) -> Seq<DecompModel>
    decreases t,
{
    if t <= 0 {
        Seq::empty()
    } else {
        zl_trips(c2, p, t - 1) + if c2[t - 1] >= 3 {
            seq![zl_decomp(p, seq![spec_triplet(t - 1)])]
        } else {
            Seq::empty()
        }
    }
}

/// With 14 tiles the fourth set is concealed; with 11 it is a meld.
pub open spec fn zl_pair(cc: Seq<int>, p: int, n: int) -> Seq<DecompModel> {
    if cc[p] >= 2 {
        let c2 = cc.update(p, cc[p] - 2);
        if n == 14 {
            zl_runs(c2, p, 27) + zl_trips(c2, p, 34)
        } else {
            seq![zl_decomp(p, Seq::empty())]
        }
    } else {
        Seq::empty()
    }
}

pub open spec fn zl_pairs(cc: Seq<int>, n: int, p: int) -> Seq<DecompModel>
    decreases p,
{
    if p <= 0 {
        Seq::empty()
    } else {
        zl_pairs(cc, n, p - 1) + zl_pair(cc, p - 1, n)
    }
}

pub open spec fn zl_upto(c: Seq<int>, n: int, i: int) -> Seq<DecompModel>
    decreases i,
{
    if i <= 0 {
        Seq::empty()
    } else {
        zl_upto(c, n, i - 1) + if knit_ok(c, i - 1) {
            zl_pairs(minus_knit(c, i - 1), n, 34)
        } else {
            Seq::empty()
        }
    }
}

/// Knitted-straight interpretations: for each ordering of the columns whose
/// nine tiles the hand holds, each pair, then (with 14 tiles) each run and
/// each triplet left; with 11 tiles the pair completes the hand.
pub open spec fn spec_detect_zuhelong(c: Counts) -> Seq<DecompModel> {
    let n = seq_sum(c@);
    if n == 14 || n == 11 {
        zl_upto(ci(c), n, 6)
    } else {
        Seq::empty()
    }
}

fn knit_check(c: &Counts, p: &[usize; 3], i: usize) -> (r: bool)
    requires
        i < 6,
        forall|s: int| 0 <= s < 3 ==> #[trigger] p@[s] as int == spec_perm(i as int)[s],
    ensures
        r == knit_ok(ci(*c), i as int),
{
    let mut t: usize = 0;
    while t < 27
        invariant
            t <= 27,
            i < 6,
            forall|s: int| 0 <= s < 3 ==> #[trigger] p@[s] as int == spec_perm(i as int)[s],
            forall|u: int| 0 <= u < t && is_knit(i as int, u) ==> #[trigger] ci(*c)[u] >= 1,
        decreases 27 - t,
    {
        assert(p@[(t / 9) as int] as int == spec_perm(i as int)[(t / 9) as int]);
        if (t % 9) % 3 == p[t / 9] && c[t] == 0 {
            assert(is_knit(i as int, t as int));
            assert(ci(*c)[t as int] < 1);
            return false;
        }
        t = t + 1;
    }
    true
}

/// Knitted-straight interpretations of a hand of 14 tiles (or of 11 tiles
/// beside one meld).
pub fn detect_zuhelong(c: &Counts) -> (out: Vec<Decomp>)
    ensures
        decomps_view(out@) == spec_detect_zuhelong(*c),
{
    let mut out: Vec<Decomp> = Vec::new();
    let n = total(c);
    if n != 14 && n != 11 {
        assert(decomps_view(out@) =~= spec_detect_zuhelong(*c));
        return out;
    }
    let ghost c0 = ci(*c);
    let mut i: usize = 0;
    while i < 6
        invariant
            i <= 6,
            n == seq_sum(c@),
            n == 14 || n == 11,
            c0 == ci(*c),
            decomps_view(out@) == zl_upto(c0, n as int, i as int),
        decreases 6 - i,
    {
        let p = perm(i);
        if knit_check(c, &p, i) {
            let mut cc: Counts = *c;
            let mut t: usize = 0;
            while t < 27
                invariant
                    t <= 27,
                    i < 6,
                    forall|s: int| 0 <= s < 3 ==> #[trigger] p@[s] as int == spec_perm(i as int)[s],
                    forall|u: int| 0 <= u < t ==> #[trigger] cc@[u] as int == minus_knit(c0, i as int)[u],
                    forall|u: int| t <= u < 34 ==> #[trigger] cc@[u] as int == c0[u],
                    knit_ok(c0, i as int),
                    c0 == ci(*c),
                decreases 27 - t,
            {
                assert(p@[(t / 9) as int] as int == spec_perm(i as int)[(t / 9) as int]);
                assert(cc@[t as int] as int == c0[t as int]);
                let ghost before = cc;
                if (t % 9) % 3 == p[t / 9] {
                    assert(is_knit(i as int, t as int));
                    assert(c0[t as int] >= 1);
                    cc[t] = cc[t] - 1;
                } else {
                    assert(!is_knit(i as int, t as int));
                }
                assert(forall|u: int| 0 <= u < 34 && u != t ==> cc@[u] == before@[u]);
                t = t + 1;
            }
            let ghost mk = minus_knit(c0, i as int);
            assert(ci(cc) =~= mk);
            let ghost base = decomps_view(out@);
            let mut q: usize = 0;
            while q < NUM_TILES
                invariant
                    q <= 34,
                    n == 14 || n == 11,
                    ci(cc) == mk,
                    decomps_view(out@) == base + zl_pairs(mk, n as int, q as int),
                decreases 34 - q,
            {
                let ghost before = decomps_view(out@);
                if cc[q] >= 2 {
                    let mut c2: Counts = cc;
                    c2[q] = c2[q] - 2;
                    let ghost m2 = mk.update(q as int, mk[q as int] - 2);
                    assert(ci(c2) =~= m2);
                    if n == 14 {
                        let mut t2: usize = 0;
                        while t2 < 27
                            invariant
                                t2 <= 27,
                                q < 34,
                                ci(c2) == m2,
                                decomps_view(out@) == before + zl_runs(m2, q as int, t2 as int),
                            decreases 27 - t2,
                        {
                            if t2 % 9 <= 6 && c2[t2] > 0 && c2[t2 + 1] > 0 && c2[t2 + 2] > 0 {
                                let ghost o = decomps_view(out@);
                                let d = Decomp {
                                    pair: Some(q),
                                    sets: vec![Group::run(t2)],
                                    special: Some(Special::Zuhelong),
                                };
                                out.push(d);
                                assert(decomps_view(out@) =~= o.push(d@));
                                assert(d@.sets =~= seq![spec_run(t2 as int)]);
                            }
                            t2 = t2 + 1;
                            assert(decomps_view(out@) =~= before + zl_runs(m2, q as int, t2 as int));
                        }
                        let ghost mid = decomps_view(out@);
                        let mut t3: usize = 0;
                        while t3 < NUM_TILES
                            invariant
                                t3 <= 34,
                                q < 34,
                                ci(c2) == m2,
                                decomps_view(out@) == mid + zl_trips(m2, q as int, t3 as int),
                            decreases 34 - t3,
                        {
                            if c2[t3] >= 3 {
                                let ghost o = decomps_view(out@);
                                let d = Decomp {
                                    pair: Some(q),
                                    sets: vec![Group::triplet(t3)],
                                    special: Some(Special::Zuhelong),
                                };
                                out.push(d);
                                assert(decomps_view(out@) =~= o.push(d@));
                                assert(d@.sets =~= seq![spec_triplet(t3 as int)]);
                            }
                            t3 = t3 + 1;
                            assert(decomps_view(out@) =~= mid + zl_trips(m2, q as int, t3 as int));
                        }
                        assert(decomps_view(out@) =~= before + zl_pair(mk, q as int, n as int));
                    } else {
                        let d = Decomp { pair: Some(q), sets: Vec::new(), special: Some(Special::Zuhelong) };
                        out.push(d);
                        assert(d@.sets =~= Seq::<Group>::empty());
                        assert(decomps_view(out@) =~= before + zl_pair(mk, q as int, n as int));
                    }
                } else {
                    assert(decomps_view(out@) =~= before + zl_pair(mk, q as int, n as int));
                }
                q = q + 1;
                assert(decomps_view(out@) =~= base + zl_pairs(mk, n as int, q as int));
            }
            assert(decomps_view(out@) =~= zl_upto(c0, n as int, i + 1));
        } else {
            assert(decomps_view(out@) =~= zl_upto(c0, n as int, i + 1));
        }
        i = i + 1;
    }
    out
}


// ---------------------------------------------------------------------------
// Melds and winning interpretations
// ---------------------------------------------------------------------------

/// How many copies of `t` a sequence of tiles holds.
pub open spec fn tile_count(s: Seq<usize>, t: int) -> int
    decreases s.len(),
{
    if s.len() == 0 {
        0
    } else {
        tile_count(s.drop_last(), t) + if s.last() == t {
            1int
        } else {
            0int
        }
    }
}

/// How many copies of `t` the melds occupy.
pub open spec fn melds_count(ms: Seq<Meld>, t: int) -> int
    decreases ms.len(),
{
    if ms.len() == 0 {
        0
    } else {
        melds_count(ms.drop_last(), t) + tile_count(spec_meld_tiles(ms.last()), t)
    }
}

/// Every tile of every meld is a tile index.
pub open spec fn melds_in_range(ms: Seq<Meld>) -> bool {
    forall|i: int|
        0 <= i < ms.len() ==> (match (#[trigger] ms[i]).kind {
            MeldKind::Chi => ms[i].tile + 2 < 34,
            _ => ms[i].tile < 34,
        })
}

/// The concealed tiles plus the melds' tiles fit in the counts.
pub open spec fn fits_with_melds(c: Counts, ms: Seq<Meld>) -> bool {
    &&& melds_in_range(ms)
    &&& forall|t: int| 0 <= t < 34 ==> #[trigger] c@[t] + melds_count(ms, t) <= 255
}

/// All tiles of the hand: concealed plus melded.
pub open spec fn spec_all_tiles(c: Counts, ms: Seq<Meld>) -> Seq<u8> {
    Seq::new(34, |t: int| (c@[t] + melds_count(ms, t)) as u8)
}

pub proof fn lemma_tile_count_nonneg(s: Seq<usize>, t: int)
    ensures
        tile_count(s, t) >= 0,
    decreases s.len(),
{
    if s.len() > 0 {
        lemma_tile_count_nonneg(s.drop_last(), t);
    }
}

pub proof fn lemma_melds_count_prefix(ms: Seq<Meld>, k: int, t: int)
    requires
        0 <= k <= ms.len(),
    ensures
        0 <= melds_count(ms.subrange(0, k), t) <= melds_count(ms, t),
    decreases ms.len(),
{
    if k == ms.len() {
        assert(ms.subrange(0, k) =~= ms);
        lemma_melds_count_nonneg(ms, t);
    } else {
        lemma_melds_count_prefix(ms.drop_last(), k, t);
        assert(ms.drop_last().subrange(0, k) =~= ms.subrange(0, k));
        lemma_tile_count_nonneg(spec_meld_tiles(ms.last()), t);
    }
}

pub proof fn lemma_melds_count_nonneg(ms: Seq<Meld>, t: int)
    ensures
        melds_count(ms, t) >= 0,
    decreases ms.len(),
{
    if ms.len() > 0 {
        lemma_melds_count_nonneg(ms.drop_last(), t);
        lemma_tile_count_nonneg(spec_meld_tiles(ms.last()), t);
    }
}

proof fn lemma_tile_count_prefix(s: Seq<usize>, k: int, t: int)
    requires
        0 <= k <= s.len(),
    ensures
        tile_count(s.subrange(0, k), t) <= tile_count(s, t),
    decreases s.len(),
{
    if k == s.len() {
        assert(s.subrange(0, k) =~= s);
    } else {
        lemma_tile_count_prefix(s.drop_last(), k, t);
        assert(s.drop_last().subrange(0, k) =~= s.subrange(0, k));
    }
}

/// Concealed tiles plus the melds' tiles.
pub fn build_all(c: &Counts, melds: &[Meld]) -> (a: Counts)
    requires
        fits_with_melds(*c, melds@),
    ensures
        a@ == spec_all_tiles(*c, melds@),
{
    let mut a: Counts = *c;
    let mut i: usize = 0;
    while i < melds.len()
        invariant
            i <= melds@.len(),
            fits_with_melds(*c, melds@),
            forall|t: int| 0 <= t < 34 ==> #[trigger] a@[t] as int == c@[t] + melds_count(melds@.subrange(0, i as int), t),
        decreases melds@.len() - i,
    {
        let m = melds[i];
        assert(melds@.subrange(0, i + 1).drop_last() =~= melds@.subrange(0, i as int));
        let ts = m.tiles();
        let ghost a0 = a@;
        let mut j: usize = 0;
        while j < ts.len()
            invariant
                j <= ts@.len(),
                i < melds@.len(),
                m == melds@[i as int],
                ts@ == spec_meld_tiles(m),
                fits_with_melds(*c, melds@),
                forall|t: int| 0 <= t < 34 ==> #[trigger] a0[t] as int == c@[t] + melds_count(melds@.subrange(0, i as int), t),
                forall|t: int| 0 <= t < 34 ==> #[trigger] a@[t] as int == a0[t] + tile_count(ts@.subrange(0, j as int), t),
            decreases ts@.len() - j,
        {
            assert(ts@.subrange(0, j + 1).drop_last() =~= ts@.subrange(0, j as int));
            let t = ts[j];
            assert(t < 34);
            proof {
                lemma_tile_count_prefix(ts@, j + 1, t as int);
                lemma_melds_count_prefix(melds@, i + 1, t as int);
                assert(c@[t as int] + melds_count(melds@, t as int) <= 255);
                assert(tile_count(ts@.subrange(0, j + 1), t as int) == tile_count(ts@.subrange(0, j as int), t as int) + 1);
                assert(melds@.subrange(0, i + 1).last() == m);
                assert(melds@.subrange(0, i + 1).drop_last() =~= melds@.subrange(0, i as int));
                assert(melds_count(melds@.subrange(0, i + 1), t as int) == melds_count(melds@.subrange(0, i as int), t as int) + tile_count(ts@, t as int));
                assert(a@[t as int] as int == a0[t as int] + tile_count(ts@.subrange(0, j as int), t as int));
                assert(a0[t as int] as int == c@[t as int] + melds_count(melds@.subrange(0, i as int), t as int));
            }
            a[t] = a[t] + 1;
            j = j + 1;
        }
        assert(ts@.subrange(0, ts@.len() as int) =~= ts@);
        i = i + 1;
    }
    assert(melds@.subrange(0, melds@.len() as int) =~= melds@);
    assert(a@ =~= spec_all_tiles(*c, melds@));
    a
}

/// The sets of the melds.
pub open spec fn meld_sets(ms: Seq<Meld>) -> Seq<Group> {
    ms.map_values(|m: Meld| spec_meld_set(m))
}

/// Interpretations with the melds' sets put first.
pub open spec fn with_melds(ms: Seq<Meld>, ds: Seq<DecompModel>) -> Seq<DecompModel> {
    ds.map_values(
        |d: DecompModel| DecompModel { pair: d.pair, sets: meld_sets(ms) + d.sets, special: d.special },
    )
}

pub open spec fn special_models(c: Counts) -> Seq<DecompModel> {
    (if spec_is_seven_pairs_straight(c) {
        seq![crate::decompose::special_model(Special::SevenPairsStraight)]
    } else if spec_is_seven_pairs(c) {
        seq![crate::decompose::special_model(Special::SevenPairs)]
    } else {
        Seq::empty()
    }) + (if spec_is_thirteen_orphans(c) {
        seq![crate::decompose::special_model(Special::ThirteenOrphans)]
    } else {
        Seq::empty()
    }) + (if spec_is_seven_stars(c) {
        seq![crate::decompose::special_model(Special::SevenStars)]
    } else if spec_is_bu_kao(c) {
        seq![crate::decompose::special_model(Special::BuKao)]
    } else {
        Seq::empty()
    })
}

/// Sets still to find beside `m` melds.
pub open spec fn sets_needed(m: int) -> int {
    if m < 4 {
        4 - m
    } else {
        0
    }
}

/// Every interpretation of concealed tiles `c` (the winning tile included)
/// beside the melds as a winning hand: standard ones (when the count of
/// concealed tiles fits), then, without melds, seven pairs, thirteen orphans
/// and honors-and-knitted, then knitted straights (without melds or beside a
/// single meld).
pub open spec fn spec_winning(c: Counts, ms: Seq<Meld>) -> Seq<DecompModel> {
    let m = ms.len() as int;
    let need = sets_needed(m);
    let n = seq_sum(c@);
    (if n == need * 3 + 2 {
        with_melds(ms, spec_decompose_standard(ci(c), need as nat))
    } else {
        Seq::empty()
    }) + (if m == 0 {
        special_models(c)
    } else {
        Seq::empty()
    }) + (if (m == 0 && n == 14) || (m == 1 && n == 11) {
        with_melds(ms, spec_detect_zuhelong(c))
    } else {
        Seq::empty()
    })
}

fn meld_groups(melds: &[Meld]) -> (v: Vec<Group>)
    ensures
        v@ == meld_sets(melds@),
{
    let mut v: Vec<Group> = Vec::new();
    let mut i: usize = 0;
    while i < melds.len()
        invariant
            i <= melds@.len(),
            v@ == meld_sets(melds@).subrange(0, i as int),
        decreases melds@.len() - i,
    {
        v.push(melds[i].to_set());
        i = i + 1;
        assert(v@ =~= meld_sets(melds@).subrange(0, i as int));
    }
    assert(meld_sets(melds@).subrange(0, melds@.len() as int) =~= meld_sets(melds@));
    v
}

fn attach_melds(out: &mut Vec<Decomp>, ms: &Vec<Group>, ds: &Vec<Decomp>, Ghost(melds): Ghost<Seq<Meld>>)
    requires
        ms@ == meld_sets(melds),
    ensures
        decomps_view(final(out)@) == decomps_view(old(out)@) + with_melds(melds, decomps_view(ds@)),
{
    let ghost o0 = decomps_view(out@);
    let mut j: usize = 0;
    while j < ds.len()
        invariant
            j <= ds@.len(),
            ms@ == meld_sets(melds),
            decomps_view(out@) == o0 + with_melds(melds, decomps_view(ds@)).subrange(0, j as int),
        decreases ds@.len() - j,
    {
        let mut sets = crate::decompose::copy_groups(ms);
        let mut rest = crate::decompose::copy_groups(&ds[j].sets);
        sets.append(&mut rest);
        let d = Decomp { pair: ds[j].pair, sets, special: ds[j].special };
        let ghost before = decomps_view(out@);
        out.push(d);
        assert(decomps_view(out@) =~= before.push(d@));
        j = j + 1;
        assert(decomps_view(out@) =~= o0 + with_melds(melds, decomps_view(ds@)).subrange(0, j as int));
    }
    assert(with_melds(melds, decomps_view(ds@)).subrange(0, ds@.len() as int) =~= with_melds(melds, decomps_view(ds@)));
}

/// All interpretations of the concealed tiles `c` (winning tile included)
/// beside `melds` as a winning hand.
pub fn winning_decomps(c: &Counts, melds: &[Meld]) -> (out: Vec<Decomp>)
    ensures
        decomps_view(out@) == spec_winning(*c, melds@),
        melds@.len() <= 4 ==> forall|j: int|
            0 <= j < out@.len() ==> winning_ok(*c, melds@, #[trigger] decomps_view(out@)[j]),
{
    proof {
        if melds@.len() <= 4 {
            lemma_winning_sound(*c, melds@);
        }
    }
    let m = melds.len();
    let need: usize = if m < 4 { 4 - m } else { 0 };
    let n = total(c);
    let ms = meld_groups(melds);
    let mut out: Vec<Decomp> = Vec::new();
    if n as usize == need * 3 + 2 {
        let ds = decompose_standard(c, need);
        attach_melds(&mut out, &ms, &ds, Ghost(melds@));
    }
    assert(decomps_view(out@) =~= (if seq_sum(c@) == need * 3 + 2 {
        with_melds(melds@, spec_decompose_standard(ci(*c), need as nat))
    } else {
        Seq::empty()
    }));
    let ghost p1 = decomps_view(out@);
    if m == 0 {
        if is_seven_pairs_straight(c) {
            out.push(Decomp::special(Special::SevenPairsStraight));
        } else if is_seven_pairs(c) {
            out.push(Decomp::special(Special::SevenPairs));
        }
        if is_thirteen_orphans(c) {
            out.push(Decomp::special(Special::ThirteenOrphans));
        }
        if is_seven_stars(c) {
            out.push(Decomp::special(Special::SevenStars));
        } else if is_bu_kao(c) {
            out.push(Decomp::special(Special::BuKao));
        }
        assert(decomps_view(out@) =~= p1 + special_models(*c));
    } else {
        assert(decomps_view(out@) =~= p1);
    }
    let ghost p2 = decomps_view(out@);
    if (m == 0 && n == 14) || (m == 1 && n == 11) {
        let zs = detect_zuhelong(c);
        attach_melds(&mut out, &ms, &zs, Ghost(melds@));
    } else {
        assert(decomps_view(out@) =~= p2 + Seq::<DecompModel>::empty());
    }
    assert(decomps_view(out@) =~= spec_winning(*c, melds@));
    out
}

proof fn lemma_in_left(s: Seq<DecompModel>, t: Seq<DecompModel>, d: DecompModel)
    requires
        s.contains(d),
    ensures
        (s + t).contains(d),
{
    let j = choose|j: int| 0 <= j < s.len() && s[j] == d;
    assert((s + t)[j] == d);
}

proof fn lemma_in_right(s: Seq<DecompModel>, t: Seq<DecompModel>, d: DecompModel)
    requires
        t.contains(d),
    ensures
        (s + t).contains(d),
{
    let j = choose|j: int| 0 <= j < t.len() && t[j] == d;
    assert((s + t)[s.len() + j] == d);
}

proof fn lemma_zl_trips_has(c2: Seq<int>, p: int, t: int, m: int)
    requires
        0 <= t < m,
        c2[t] >= 3,
    ensures
        zl_trips(c2, p, m).contains(zl_decomp(p, seq![spec_triplet(t)])),
    decreases m,
{
    let d = zl_decomp(p, seq![spec_triplet(t)]);
    let b = if c2[m - 1] >= 3 {
        seq![zl_decomp(p, seq![spec_triplet(m - 1)])]
    } else {
        Seq::empty()
    };
    if t == m - 1 {
        assert(b[0] == d);
        lemma_in_right(zl_trips(c2, p, m - 1), b, d);
    } else {
        lemma_zl_trips_has(c2, p, t, m - 1);
        lemma_in_left(zl_trips(c2, p, m - 1), b, d);
    }
}

proof fn lemma_zl_runs_has(c2: Seq<int>, p: int, t: int, m: int)
    requires
        0 <= t < m,
        t % 9 <= 6,
        c2[t] > 0 && c2[t + 1] > 0 && c2[t + 2] > 0,
    ensures
        zl_runs(c2, p, m).contains(zl_decomp(p, seq![spec_run(t)])),
    decreases m,
{
    let d = zl_decomp(p, seq![spec_run(t)]);
    let b = if (m - 1) % 9 <= 6 && c2[m - 1] > 0 && c2[m] > 0 && c2[m + 1] > 0 {
        seq![zl_decomp(p, seq![spec_run(m - 1)])]
    } else {
        Seq::empty()
    };
    if t == m - 1 {
        assert(b[0] == d);
        lemma_in_right(zl_runs(c2, p, m - 1), b, d);
    } else {
        lemma_zl_runs_has(c2, p, t, m - 1);
        lemma_in_left(zl_runs(c2, p, m - 1), b, d);
    }
}

proof fn lemma_zl_pairs_has(cc: Seq<int>, n: int, p: int, m: int, d: DecompModel)
    requires
        0 <= p < m,
        zl_pair(cc, p, n).contains(d),
    ensures
        zl_pairs(cc, n, m).contains(d),
    decreases m,
{
    if p == m - 1 {
        lemma_in_right(zl_pairs(cc, n, m - 1), zl_pair(cc, p, n), d);
    } else {
        lemma_zl_pairs_has(cc, n, p, m - 1, d);
        lemma_in_left(zl_pairs(cc, n, m - 1), zl_pair(cc, m - 1, n), d);
    }
}

proof fn lemma_zl_upto_has(c: Seq<int>, n: int, i: int, m: int, d: DecompModel)
    requires
        0 <= i < m,
        knit_ok(c, i),
        zl_pairs(minus_knit(c, i), n, 34).contains(d),
    ensures
        zl_upto(c, n, m).contains(d),
    decreases m,
{
    let b = if knit_ok(c, m - 1) {
        zl_pairs(minus_knit(c, m - 1), n, 34)
    } else {
        Seq::empty()
    };
    if i == m - 1 {
        lemma_in_right(zl_upto(c, n, m - 1), b, d);
    } else {
        lemma_zl_upto_has(c, n, i, m - 1, d);
        lemma_in_left(zl_upto(c, n, m - 1), b, d);
    }
}

/// Every knitted-straight reading of fourteen tiles is found: when the hand
/// holds the nine tiles of the knitted straight of column choice `i` and
/// the five left split into the pair `p` and one concealed set `g` (a run,
/// or a triplet of any tile, honors included), that reading is listed.
pub proof fn lemma_zuhelong_complete(c: Counts, i: int, p: int, g: Group)
    requires
        seq_sum(c@) == 14,
        0 <= i < 6,
        knit_ok(ci(c), i),
        0 <= p < 34,
        minus_knit(ci(c), i)[p] >= 2,
        splits(minus_knit(ci(c), i).update(p, minus_knit(ci(c), i)[p] - 2), seq![g]),
    ensures
        spec_detect_zuhelong(c).contains(
            DecompModel { pair: Some(p as usize), sets: seq![g], special: Some(Special::Zuhelong) },
        ),
{
    let cc = minus_knit(ci(c), i);
    let c2 = cc.update(p, cc[p] - 2);
    let d = DecompModel { pair: Some(p as usize), sets: seq![g], special: Some(Special::Zuhelong) };
    assert(hand_set(seq![g][0]));
    let t = g.tile as int;
    assert forall|x: int| 0 <= x < 34 implies set_count(g, x) == c2[x] by {
        assert(seq![g].drop_last() =~= Seq::<Group>::empty());
        assert(sets_count(seq![g].drop_last(), x) == 0);
        assert(sets_count(seq![g], x) == c2[x]);
    }
    match g.kind {
        SetKind::Triplet => {
            assert(c2[t] == 3);
            assert(g == spec_triplet(t));
            lemma_zl_trips_has(c2, p, t, 34);
            lemma_in_right(zl_runs(c2, p, 27), zl_trips(c2, p, 34), d);
        },
        SetKind::Run => {
            assert(c2[t] == 1 && c2[t + 1] == 1 && c2[t + 2] == 1);
            assert(g == spec_run(t));
            lemma_zl_runs_has(c2, p, t, 27);
            lemma_in_left(zl_runs(c2, p, 27), zl_trips(c2, p, 34), d);
        },
    }
    assert(zl_pair(cc, p, 14) == zl_runs(c2, p, 27) + zl_trips(c2, p, 34));
    lemma_zl_pairs_has(cc, 14, p, 34, d);
    lemma_zl_upto_has(ci(c), 14, i, 6, d);
}

/// Beside a meld, every knitted-straight reading of eleven tiles is found:
/// when the hand holds the nine tiles of the knitted straight of column
/// choice `i` and a pair `p` of the two left, that reading is listed.
pub proof fn lemma_zuhelong_complete_melded(c: Counts, i: int, p: int)
    requires
        seq_sum(c@) == 11,
        0 <= i < 6,
        knit_ok(ci(c), i),
        0 <= p < 34,
        minus_knit(ci(c), i)[p] >= 2,
    ensures
        spec_detect_zuhelong(c).contains(
            DecompModel { pair: Some(p as usize), sets: Seq::empty(), special: Some(Special::Zuhelong) },
        ),
{
    let cc = minus_knit(ci(c), i);
    let d = DecompModel { pair: Some(p as usize), sets: Seq::empty(), special: Some(Special::Zuhelong) };
    assert(zl_pair(cc, p, 11) == seq![d]);
    assert(seq![d][0] == d);
    lemma_zl_pairs_has(cc, 11, p, 34, d);
    lemma_zl_upto_has(ci(c), 11, i, 6, d);
}

/// What an interpretation of concealed tiles `c` beside melds `ms` claims:
/// a standard one is a pair held twice and four sets, the melds' sets first
/// and the others splitting the rest of the hand; a seven-pairs, orphans or
/// honors-and-knitted one needs a concealed hand of that shape (the plain
/// form only when the higher one fails); a knitted straight has a pair, the
/// melds' sets first, and fourteen concealed tiles (eleven beside a meld).
pub open spec fn winning_ok(c: Counts, ms: Seq<Meld>, d: DecompModel) -> bool {
    let m = ms.len() as int;
    match d.special {
        None => match d.pair {
            Some(p) => {
                &&& p < 34
                &&& ci(c)[p as int] >= 2
                &&& d.sets.len() == 4
                &&& d.sets.subrange(0, m) == meld_sets(ms)
                &&& splits(ci(c).update(p as int, ci(c)[p as int] - 2), d.sets.subrange(m, 4))
            },
            None => false,
        },
        Some(Special::SevenPairs) => m == 0 && spec_is_seven_pairs(c) && !spec_is_seven_pairs_straight(c),
        Some(Special::SevenPairsStraight) => m == 0 && spec_is_seven_pairs_straight(c),
        Some(Special::ThirteenOrphans) => m == 0 && spec_is_thirteen_orphans(c),
        Some(Special::SevenStars) => m == 0 && spec_is_seven_stars(c),
        Some(Special::BuKao) => m == 0 && spec_is_bu_kao(c) && !spec_is_seven_stars(c),
        Some(Special::Zuhelong) => {
            &&& d.pair is Some
            &&& d.sets.len() >= m
            &&& d.sets.subrange(0, m) == meld_sets(ms)
            &&& (m == 0 && seq_sum(c@) == 14) || (m == 1 && seq_sum(c@) == 11)
        },
    }
}

/// Every knitted-straight interpretation has a pair.
pub open spec fn all_zl(s: Seq<DecompModel>) -> bool {
    forall|i: int| 0 <= i < s.len() ==> (#[trigger] s[i]).special == Some(Special::Zuhelong) && s[i].pair is Some
}

proof fn lemma_all_zl_concat(a: Seq<DecompModel>, b: Seq<DecompModel>)
    requires
        all_zl(a),
        all_zl(b),
    ensures
        all_zl(a + b),
{
    assert forall|i: int| 0 <= i < (a + b).len() implies (#[trigger] (a + b)[i]).special == Some(
        Special::Zuhelong,
    ) && (a + b)[i].pair is Some by {
        if i < a.len() {
            assert((a + b)[i] == a[i]);
        } else {
            assert((a + b)[i] == b[i - a.len()]);
        }
    }
}

proof fn lemma_zl_runs(c2: Seq<int>, p: int, t: int)
    ensures
        all_zl(zl_runs(c2, p, t)),
    decreases t,
{
    if t > 0 {
        lemma_zl_runs(c2, p, t - 1);
        let b = if (t - 1) % 9 <= 6 && c2[t - 1] > 0 && c2[t] > 0 && c2[t + 1] > 0 {
            seq![zl_decomp(p, seq![spec_run(t - 1)])]
        } else {
            Seq::empty()
        };
        lemma_all_zl_concat(zl_runs(c2, p, t - 1), b);
    }
}

proof fn lemma_zl_trips(c2: Seq<int>, p: int, t: int)
    ensures
        all_zl(zl_trips(c2, p, t)),
    decreases t,
{
    if t > 0 {
        lemma_zl_trips(c2, p, t - 1);
        let b = if c2[t - 1] >= 3 {
            seq![zl_decomp(p, seq![spec_triplet(t - 1)])]
        } else {
            Seq::empty()
        };
        lemma_all_zl_concat(zl_trips(c2, p, t - 1), b);
    }
}

proof fn lemma_zl_pairs(cc: Seq<int>, n: int, p: int)
    ensures
        all_zl(zl_pairs(cc, n, p)),
    decreases p,
{
    if p > 0 {
        lemma_zl_pairs(cc, n, p - 1);
        let q = p - 1;
        if cc[q] >= 2 {
            let c2 = cc.update(q, cc[q] - 2);
            if n == 14 {
                lemma_zl_runs(c2, q, 27);
                lemma_zl_trips(c2, q, 34);
                lemma_all_zl_concat(zl_runs(c2, q, 27), zl_trips(c2, q, 34));
            }
        }
        lemma_all_zl_concat(zl_pairs(cc, n, p - 1), zl_pair(cc, q, n));
    }
}

proof fn lemma_zl_upto(c: Seq<int>, n: int, i: int)
    ensures
        all_zl(zl_upto(c, n, i)),
    decreases i,
{
    if i > 0 {
        lemma_zl_upto(c, n, i - 1);
        lemma_zl_pairs(minus_knit(c, i - 1), n, 34);
        let b = if knit_ok(c, i - 1) {
            zl_pairs(minus_knit(c, i - 1), n, 34)
        } else {
            Seq::empty()
        };
        lemma_all_zl_concat(zl_upto(c, n, i - 1), b);
    }
}

/// Each interpretation found is what it claims: a standard one is the pair
/// and four sets with the melds' sets first and the rest splitting the
/// hand; each special one has its shape and is found only without melds
/// (beside at most one meld for the knitted straight).
pub proof fn lemma_winning_sound(c: Counts, ms: Seq<Meld>)
    requires
        ms.len() <= 4,
    ensures
        forall|j: int|
            0 <= j < spec_winning(c, ms).len() ==> winning_ok(c, ms, #[trigger] spec_winning(c, ms)[j]),
{
    let m = ms.len() as int;
    let need = sets_needed(m);
    let n = seq_sum(c@);
    let cc = ci(c);
    assert(valid_counts(cc));
    let std = spec_decompose_standard(cc, need as nat);
    lemma_decompose_standard_sound(cc, need as nat);
    let a = if n == need * 3 + 2 {
        with_melds(ms, std)
    } else {
        Seq::empty()
    };
    let b = if m == 0 {
        special_models(c)
    } else {
        Seq::empty()
    };
    let zs = spec_detect_zuhelong(c);
    if n == 14 || n == 11 {
        lemma_zl_upto(cc, n, 6);
    }
    let z = if (m == 0 && n == 14) || (m == 1 && n == 11) {
        with_melds(ms, zs)
    } else {
        Seq::empty()
    };
    assert(spec_winning(c, ms) =~= a + b + z);
    let ml = meld_sets(ms);
    assert forall|j: int| 0 <= j < a.len() implies winning_ok(c, ms, #[trigger] a[j]) by {
        let e = std[j];
        let d = a[j];
        assert(d.sets == ml + e.sets);
        assert(d.sets.subrange(0, m) =~= ml);
        assert(d.sets.subrange(m, 4) =~= e.sets);
    }
    assert forall|j: int| 0 <= j < b.len() implies winning_ok(c, ms, #[trigger] b[j]) by {}
    assert forall|j: int| 0 <= j < z.len() implies winning_ok(c, ms, #[trigger] z[j]) by {
        let e = zs[j];
        let d = z[j];
        assert(d.sets == ml + e.sets);
        assert(d.sets.subrange(0, m) =~= ml);
    }
    assert forall|j: int| 0 <= j < (a + b + z).len() implies winning_ok(c, ms, #[trigger] (a + b + z)[j]) by {
        if j < a.len() {
            assert((a + b + z)[j] == a[j]);
        } else if j < a.len() + b.len() {
            assert((a + b + z)[j] == b[j - a.len()]);
        } else {
            assert((a + b + z)[j] == z[j - a.len() - b.len()]);
        }
    }
}


// ---------------------------------------------------------------------------
// Analysis of a waiting hand
// ---------------------------------------------------------------------------

/// The result for one winning tile.
#[derive(Clone, Debug)]
pub struct WaitResult {
    pub tile: usize,
    /// Best total on a discard.
    pub normal: u32,
    /// Best total self-drawn.
    pub tsumo: u32,
    /// Best total on a discard of the last copy.
    pub last: u32,
    /// Best total self-drawn, last copy.
    pub tsumo_last: u32,
    /// Fans of the interpretation scoring best on a discard (ways of winning
    /// included).
    pub fans: Vec<Fan>,
    /// Fans of the interpretation scoring best self-drawn.
    pub fans_tsumo: Vec<Fan>,
    /// Whether the interpretation scoring best on a discard is a special shape.
    pub special: bool,
}

/// The values of a `WaitResult`.
pub struct WaitModel {
    pub tile: usize,
    pub normal: u32,
    pub tsumo: u32,
    pub last: u32,
    pub tsumo_last: u32,
    pub fans: Seq<Fan>,
    pub fans_tsumo: Seq<Fan>,
    pub special: bool,
}

impl View for WaitResult {
    type V = WaitModel;

    open spec fn view(&self) -> WaitModel {
        WaitModel {
            tile: self.tile,
            normal: self.normal,
            tsumo: self.tsumo,
            last: self.last,
            tsumo_last: self.tsumo_last,
            fans: self.fans@,
            fans_tsumo: self.fans_tsumo@,
            special: self.special,
        }
    }
}

impl WaitResult {
    /// Whether some way of winning reaches 8 points.
    pub fn can_win(&self) -> (r: bool)
        ensures
            r == (self.normal >= 8 || self.tsumo >= 8 || self.last >= 8 || self.tsumo_last >= 8),
    {
        self.normal >= 8 || self.tsumo >= 8 || self.last >= 8 || self.tsumo_last >= 8
    }

    /// Whether only a self-draw reaches 8 (a discard does not).
    pub fn only_tsumo(&self) -> (r: bool)
        ensures
            r == (self.normal < 8 && self.tsumo >= 8),
    {
        self.normal < 8 && self.tsumo >= 8
    }

    /// Whether only the last copy reaches 8 (neither a plain discard nor a
    /// plain self-draw does).
    pub fn only_last(&self) -> (r: bool)
        ensures
            r == (self.normal < 8 && self.tsumo < 8 && (self.last >= 8 || self.tsumo_last >= 8)),
    {
        self.normal < 8 && self.tsumo < 8 && (self.last >= 8 || self.tsumo_last >= 8)
    }
}

/// The analysis of a waiting hand.
#[derive(Clone, Debug)]
pub struct Analysis {
    pub menqing: bool,
    pub meld_count: usize,
    /// Tiles that complete a winning shape, whatever its points.
    pub structural_waits: Vec<usize>,
    pub waits: Vec<WaitResult>,
}

/// The counts a sequence of 34 counts stands for.
pub open spec fn hand_of(s: Seq<u8>) -> Counts {
    choose|a: Counts| #[trigger] a@ == s
}

pub proof fn lemma_hand_of(a: Counts)
    ensures
        hand_of(a@) == a,
{
    assert(exists|x: Counts| #[trigger] x@ == a@) by {
        assert(a@ == a@);
    }
    let b = hand_of(a@);
    assert(b@ == a@);
    assert(b =~= a);
}

/// The concealed tiles with one more `t`.
pub open spec fn plus_tile(c: Counts, t: int) -> Counts {
    hand_of(c@.update(t, (c@[t] + 1) as u8))
}

/// What the points of a winning tile depend on beside the interpretation.
pub struct WaitInputs {
    pub all: Counts,
    pub melds: Seq<Meld>,
    pub round_wind: usize,
    pub seat_wind: usize,
    pub win_tile: usize,
    pub menqing: bool,
    pub single_wait: bool,
}

pub open spec fn model_of(q: WaitInputs, d: DecompModel) -> WinModel {
    WinModel {
        all: q.all,
        melds: q.melds,
        decomp: d,
        round_wind: q.round_wind,
        seat_wind: q.seat_wind,
        win_tile: q.win_tile,
        menqing: q.menqing,
        single_wait: q.single_wait,
        tsumo: false,
    }
}

pub open spec fn points(q: WaitInputs, d: DecompModel, mode: WinMode) -> int {
    spec_score(model_of(q, d), mode).0 as int
}

/// The best points among the first `k` interpretations (0 if none).
pub open spec fn best_points(q: WaitInputs, ds: Seq<DecompModel>, mode: WinMode, k: int) -> int
    decreases k,
{
    if k <= 0 {
        0
    } else {
        let b = best_points(q, ds, mode, k - 1);
        let p = points(q, ds[k - 1], mode);
        if p > b {
            p
        } else {
            b
        }
    }
}

/// The first of the first `k` interpretations to reach the best points.
pub open spec fn first_best(q: WaitInputs, ds: Seq<DecompModel>, mode: WinMode, k: int) -> int
    decreases k,
{
    if k <= 1 {
        0
    } else if points(q, ds[k - 1], mode) > best_points(q, ds, mode, k - 1) {
        k - 1
    } else {
        first_best(q, ds, mode, k - 1)
    }
}

pub open spec fn wait_inputs(
    concealed: Counts,
    ms: Seq<Meld>,
    round_wind: usize,
    seat_wind: usize,
    menqing: bool,
    single: bool,
    t: usize,
) -> WaitInputs {
    WaitInputs {
        all: hand_of(spec_all_tiles(plus_tile(concealed, t as int), ms)),
        melds: ms,
        round_wind,
        seat_wind,
        win_tile: t,
        menqing,
        single_wait: single,
    }
}

/// The result for winning tile `t`: for each way of winning the best total
/// over all interpretations; the fan lists of the first interpretations
/// scoring best on a discard and self-drawn.
pub open spec fn spec_wait(
    concealed: Counts,
    ms: Seq<Meld>,
    round_wind: usize,
    seat_wind: usize,
    menqing: bool,
    single: bool,
    t: usize,
) -> WaitModel {
    let q = wait_inputs(concealed, ms, round_wind, seat_wind, menqing, single, t);
    let ds = spec_winning(plus_tile(concealed, t as int), ms);
    let n = ds.len() as int;
    let bn = first_best(q, ds, WinMode::Normal, n);
    let bt = first_best(q, ds, WinMode::Tsumo, n);
    WaitModel {
        tile: t,
        normal: best_points(q, ds, WinMode::Normal, n) as u32,
        tsumo: best_points(q, ds, WinMode::Tsumo, n) as u32,
        last: best_points(q, ds, WinMode::LastTile, n) as u32,
        tsumo_last: best_points(q, ds, WinMode::TsumoLast, n) as u32,
        fans: if n > 0 {
            spec_score(model_of(q, ds[bn]), WinMode::Normal).1
        } else {
            Seq::empty()
        },
        fans_tsumo: if n > 0 {
            spec_score(model_of(q, ds[bt]), WinMode::Tsumo).1
        } else {
            Seq::empty()
        },
        special: n > 0 && ds[bn].special is Some,
    }
}

/// Tiles below `k` that complete a winning shape (a fifth copy is never tried).
pub open spec fn structural_upto(concealed: Counts, ms: Seq<Meld>, k: int) -> Seq<usize>
    decreases k,
{
    if k <= 0 {
        Seq::empty()
    } else {
        structural_upto(concealed, ms, k - 1) + if concealed@[k - 1] < 4 && spec_winning(
            plus_tile(concealed, k - 1),
            ms,
        ).len() > 0 {
            seq![(k - 1) as usize]
        } else {
            Seq::empty()
        }
    }
}

/// The tiles that complete a winning shape, in tile order.
pub open spec fn spec_structural(concealed: Counts, ms: Seq<Meld>) -> Seq<usize> {
    structural_upto(concealed, ms, 34)
}

/// The hand can take the tiles tried: the melds' tiles are tile indices and
/// no count passes 255 with the tile added. A waiting hand has at most four
/// melds; the bound of 496 melds is far above that and only keeps every
/// point total (a `u32`) and every list length within range, so that the
/// sums can be proved free of overflow.
pub open spec fn analyzable(concealed: Counts, ms: Seq<Meld>) -> bool {
    &&& melds_in_range(ms)
    &&& ms.len() <= 496
    &&& forall|t: int|
        0 <= t < 34 ==> #[trigger] concealed@[t] + melds_count(ms, t) + (if concealed@[t] < 4 {
            1int
        } else {
            0int
        }) <= 255
}

proof fn lemma_zl_shape(c: Seq<int>, n: int)
    ensures
        forall|j: int|
            0 <= j < zl_upto(c, n, 6).len() ==> (#[trigger] zl_upto(c, n, 6)[j]).special is Some
                && zl_upto(c, n, 6)[j].sets.len() <= 1,
{
    assert forall|i: int| 0 <= i <= 6 implies forall|j: int|
        0 <= j < (#[trigger] zl_upto(c, n, i)).len() ==> zl_upto(c, n, i)[j].special is Some
            && zl_upto(c, n, i)[j].sets.len() <= 1 by {
        lemma_zl_upto_shape(c, n, i);
    }
}

proof fn lemma_zl_upto_shape(c: Seq<int>, n: int, i: int)
    requires
        0 <= i,
    ensures
        forall|j: int|
            0 <= j < zl_upto(c, n, i).len() ==> (#[trigger] zl_upto(c, n, i)[j]).special is Some
                && zl_upto(c, n, i)[j].sets.len() <= 1,
    decreases i,
{
    if i > 0 {
        lemma_zl_upto_shape(c, n, i - 1);
        if knit_ok(c, i - 1) {
            lemma_zl_pairs_shape(minus_knit(c, i - 1), n, 34);
        }
    }
}

proof fn lemma_zl_pairs_shape(cc: Seq<int>, n: int, p: int)
    requires
        0 <= p,
    ensures
        forall|j: int|
            0 <= j < zl_pairs(cc, n, p).len() ==> (#[trigger] zl_pairs(cc, n, p)[j]).special is Some
                && zl_pairs(cc, n, p)[j].sets.len() <= 1,
    decreases p,
{
    if p > 0 {
        lemma_zl_pairs_shape(cc, n, p - 1);
        let q = p - 1;
        if cc[q] >= 2 {
            let c2 = cc.update(q, cc[q] - 2);
            lemma_zl_runs_shape(c2, q, 27);
            lemma_zl_trips_shape(c2, q, 34);
        }
    }
}

proof fn lemma_zl_runs_shape(c2: Seq<int>, p: int, t: int)
    ensures
        forall|j: int|
            0 <= j < zl_runs(c2, p, t).len() ==> (#[trigger] zl_runs(c2, p, t)[j]).special is Some
                && zl_runs(c2, p, t)[j].sets.len() <= 1,
    decreases t,
{
    if t > 0 {
        lemma_zl_runs_shape(c2, p, t - 1);
    }
}

proof fn lemma_zl_trips_shape(c2: Seq<int>, p: int, t: int)
    ensures
        forall|j: int|
            0 <= j < zl_trips(c2, p, t).len() ==> (#[trigger] zl_trips(c2, p, t)[j]).special is Some
                && zl_trips(c2, p, t)[j].sets.len() <= 1,
    decreases t,
{
    if t > 0 {
        lemma_zl_trips_shape(c2, p, t - 1);
    }
}

/// Every winning interpretation can be scored: a standard one has a pair,
/// and no interpretation has more than four sets beside the melds.
pub proof fn lemma_winning_scorable(c: Counts, ms: Seq<Meld>)
    ensures
        forall|j: int|
            0 <= j < spec_winning(c, ms).len() ==> {
                let d = #[trigger] spec_winning(c, ms)[j];
                &&& d.special is None ==> d.pair is Some
                &&& d.sets.len() <= ms.len() + 4
            },
{
    let m = ms.len() as int;
    let need = sets_needed(m);
    let n = seq_sum(c@);
    let cc = ci(c);
    assert(crate::decompose::valid_counts(cc));
    crate::decompose::lemma_decompose_standard_sound(cc, need as nat);
    let a = if n == need * 3 + 2 {
        with_melds(ms, spec_decompose_standard(cc, need as nat))
    } else {
        Seq::empty()
    };
    let b = if m == 0 {
        special_models(c)
    } else {
        Seq::empty()
    };
    lemma_zl_shape(cc, n);
    let z = if (m == 0 && n == 14) || (m == 1 && n == 11) {
        with_melds(ms, spec_detect_zuhelong(c))
    } else {
        Seq::empty()
    };
    assert(spec_winning(c, ms) == a + b + z);
    assert forall|j: int| 0 <= j < (a + b + z).len() implies {
        let d = #[trigger] (a + b + z)[j];
        &&& d.special is None ==> d.pair is Some
        &&& d.sets.len() <= ms.len() + 4
    } by {
        if j < a.len() {
            assert((a + b + z)[j] == a[j]);
        } else if j < a.len() + b.len() {
            assert((a + b + z)[j] == b[j - a.len()]);
        } else {
            assert((a + b + z)[j] == z[j - a.len() - b.len()]);
        }
    }
}


/// Scores winning tile `t`: every interpretation of the hand with `t` added,
/// in each of the four ways of winning.
#[verifier::rlimit(60)]
fn wait_for(
    concealed: &Counts,
    melds: &[Meld],
    round_wind: usize,
    seat_wind: usize,
    menqing: bool,
    single: bool,
    t: usize,
) -> (r: WaitResult)
    requires
        analyzable(*concealed, melds@),
        t < 34,
        concealed@[t as int] < 4,
    ensures
        r@ == spec_wait(*concealed, melds@, round_wind, seat_wind, menqing, single, t),
{
    let mut c: Counts = *concealed;
    c[t] = c[t] + 1;
    proof {
        assert(c@ =~= concealed@.update(t as int, (concealed@[t as int] + 1) as u8));
        lemma_hand_of(c);
        assert(plus_tile(*concealed, t as int) == c);
        assert forall|u: int| 0 <= u < 34 implies #[trigger] c@[u] + melds_count(melds@, u) <= 255 by {
            assert(concealed@[u] + melds_count(melds@, u) + (if concealed@[u] < 4 {
                1int
            } else {
                0int
            }) <= 255);
        }
        assert(fits_with_melds(c, melds@));
    }
    let all = build_all(&c, melds);
    proof {
        lemma_hand_of(all);
    }
    let decomps = winning_decomps(&c, melds);
    proof {
        lemma_winning_scorable(c, melds@);
    }
    let ghost q = wait_inputs(*concealed, melds@, round_wind, seat_wind, menqing, single, t);
    let ghost ds = decomps_view(decomps@);
    assert(q.all == all);
    assert(ds == spec_winning(plus_tile(*concealed, t as int), melds@));
    let mut best_n: u32 = 0;
    let mut best_t: u32 = 0;
    let mut best_l: u32 = 0;
    let mut best_tl: u32 = 0;
    let mut fans_n: Vec<Fan> = Vec::new();
    let mut fans_t: Vec<Fan> = Vec::new();
    let mut special = false;
    let mut i: usize = 0;
    while i < decomps.len()
        invariant
            i <= decomps@.len(),
            ds == decomps_view(decomps@),
            q.all == all,
            q.melds == melds@,
            q.round_wind == round_wind,
            q.seat_wind == seat_wind,
            q.win_tile == t,
            q.menqing == menqing,
            q.single_wait == single,
            melds@.len() <= 496,
            forall|j: int|
                0 <= j < ds.len() ==> {
                    let d = #[trigger] ds[j];
                    &&& d.special is None ==> d.pair is Some
                    &&& d.sets.len() <= melds@.len() + 4
                },
            best_n == best_points(q, ds, WinMode::Normal, i as int),
            best_t == best_points(q, ds, WinMode::Tsumo, i as int),
            best_l == best_points(q, ds, WinMode::LastTile, i as int),
            best_tl == best_points(q, ds, WinMode::TsumoLast, i as int),
            i > 0 ==> fans_n@ == spec_score(
                model_of(q, ds[first_best(q, ds, WinMode::Normal, i as int)]),
                WinMode::Normal,
            ).1,
            i > 0 ==> fans_t@ == spec_score(
                model_of(q, ds[first_best(q, ds, WinMode::Tsumo, i as int)]),
                WinMode::Tsumo,
            ).1,
            i > 0 ==> special == ds[first_best(q, ds, WinMode::Normal, i as int)].special is Some,
            i == 0 ==> fans_n@ == Seq::<Fan>::empty() && fans_t@ == Seq::<Fan>::empty() && !special,
        decreases decomps@.len() - i,
    {
        let ctx = WinCtx {
            all: &all,
            melds,
            decomp: &decomps[i],
            round_wind,
            seat_wind,
            win_tile: t,
            menqing,
            single_wait: single,
            tsumo: false,
        };
        assert(ds[i as int] == decomps@[i as int]@);
        assert(ctx@ == model_of(q, ds[i as int]));
        assert(ctx_ok(ctx@));
        let (n, fn_) = score(&ctx, WinMode::Normal);
        let (ts, ft) = score(&ctx, WinMode::Tsumo);
        let (lt, _) = score(&ctx, WinMode::LastTile);
        let (tl, _) = score(&ctx, WinMode::TsumoLast);
        if i == 0 || n > best_n {
            fans_n = fn_;
            special = decomps[i].special.is_some();
        }
        if i == 0 || ts > best_t {
            fans_t = ft;
        }
        if n > best_n {
            best_n = n;
        }
        if ts > best_t {
            best_t = ts;
        }
        if lt > best_l {
            best_l = lt;
        }
        if tl > best_tl {
            best_tl = tl;
        }
        i = i + 1;
    }
    WaitResult {
        tile: t,
        normal: best_n,
        tsumo: best_t,
        last: best_l,
        tsumo_last: best_tl,
        fans: fans_n,
        fans_tsumo: fans_t,
        special,
    }
}

/// What the analysis of a hand holds: whether it is concealed (no meld but
/// concealed kans), the number of melds, the structural waits, and for each
/// of them its result (single wait when it is the only one).
pub open spec fn analysis_of(
    an: Analysis,
    concealed: Counts,
    melds: Seq<Meld>,
    round_wind: usize,
    seat_wind: usize,
) -> bool {
    &&& an.menqing == !exists|i: int| 0 <= i < melds.len() && meld_is_open(#[trigger] melds[i])
    &&& an.meld_count == melds.len()
    &&& an.structural_waits@ == spec_structural(concealed, melds)
    &&& an.waits@.len() == an.structural_waits@.len()
    &&& forall|i: int|
        0 <= i < an.waits@.len() ==> (#[trigger] an.waits@[i])@ == spec_wait(
            concealed,
            melds,
            round_wind,
            seat_wind,
            an.menqing,
            an.structural_waits@.len() == 1,
            an.structural_waits@[i],
        )
}

/// Analyzes a waiting hand: the tiles that complete a winning shape, and for
/// each of them the best points in each way of winning.
pub fn analyze(concealed: &Counts, melds: &[Meld], round_wind: usize, seat_wind: usize) -> (an:
    Analysis)
    requires
        analyzable(*concealed, melds@),
    ensures
        analysis_of(an, *concealed, melds@, round_wind, seat_wind),
{
    let menqing = !breaks_menqing(melds);
    let mut structural: Vec<usize> = Vec::new();
    let mut t: usize = 0;
    while t < 34
        invariant
            t <= 34,
            structural@ == structural_upto(*concealed, melds@, t as int),
        decreases 34 - t,
    {
        if concealed[t] < 4 {
            let mut c: Counts = *concealed;
            c[t] = c[t] + 1;
            proof {
                assert(c@ =~= concealed@.update(t as int, (concealed@[t as int] + 1) as u8));
                lemma_hand_of(c);
            }
            let ds = winning_decomps(&c, melds);
            if ds.len() > 0 {
                structural.push(t);
            }
        }
        t = t + 1;
    }
    proof {
        lemma_structural_tiles(*concealed, melds@, 34);
    }
    let single = structural.len() == 1;
    let mut waits: Vec<WaitResult> = Vec::new();
    let mut k: usize = 0;
    while k < structural.len()
        invariant
            k <= structural@.len(),
            analyzable(*concealed, melds@),
            structural@ == spec_structural(*concealed, melds@),
            forall|j: int|
                0 <= j < structural@.len() ==> #[trigger] structural@[j] < 34
                    && concealed@[structural@[j] as int] < 4,
            single == (structural@.len() == 1),
            waits@.len() == k,
            forall|j: int|
                0 <= j < k ==> (#[trigger] waits@[j])@ == spec_wait(
                    *concealed,
                    melds@,
                    round_wind,
                    seat_wind,
                    menqing,
                    single,
                    structural@[j],
                ),
        decreases structural@.len() - k,
    {
        let tile = structural[k];
        let w = wait_for(concealed, melds, round_wind, seat_wind, menqing, single, tile);
        waits.push(w);
        k = k + 1;
    }
    Analysis { menqing, meld_count: melds.len(), structural_waits: structural, waits }
}

/// Every tile found by `structural_upto` is a tile index below `k` of which
/// fewer than four copies are held.
proof fn lemma_structural_tiles(concealed: Counts, ms: Seq<Meld>, k: int)
    requires
        0 <= k <= 34,
    ensures
        forall|j: int|
            0 <= j < structural_upto(concealed, ms, k).len() ==> #[trigger] structural_upto(
                concealed,
                ms,
                k,
            )[j] < k && concealed@[structural_upto(concealed, ms, k)[j] as int] < 4,
    decreases k,
{
    if k > 0 {
        lemma_structural_tiles(concealed, ms, k - 1);
        let prev = structural_upto(concealed, ms, k - 1);
        let cur = structural_upto(concealed, ms, k);
        assert forall|j: int| 0 <= j < cur.len() implies #[trigger] cur[j] < k && concealed@[cur[j] as int] < 4 by {
            if j < prev.len() {
                assert(cur[j] == prev[j]);
            }
        }
    }
}


/// The best points among interpretations are the highest any of them scores
/// (and zero when there is none), and the interpretation whose fans are
/// listed is the first to reach them.
#[verifier::rlimit(40)]
pub proof fn lemma_best_is_highest(q: WaitInputs, ds: Seq<DecompModel>, mode: WinMode, n: int)
    requires
        0 <= n <= ds.len(),
    ensures
        forall|j: int| 0 <= j < n ==> points(q, #[trigger] ds[j], mode) <= best_points(q, ds, mode, n),
        n == 0 ==> best_points(q, ds, mode, n) == 0,
        n > 0 ==> {
            let b = first_best(q, ds, mode, n);
            &&& 0 <= b < n
            &&& best_points(q, ds, mode, n) == points(q, ds[b], mode)
            &&& forall|j: int| 0 <= j < b ==> points(q, #[trigger] ds[j], mode) < best_points(q, ds, mode, n)
        },
    decreases n,
{
    if n > 0 {
        lemma_best_is_highest(q, ds, mode, n - 1);
        assert(points(q, ds[n - 1], mode) >= 0);
    }
}


proof fn lemma_tile_count_concat(a: Seq<usize>, b: Seq<usize>, t: int)
    ensures
        tile_count(a + b, t) == tile_count(a, t) + tile_count(b, t),
    decreases b.len(),
{
    if b.len() == 0 {
        assert(a + b =~= a);
    } else {
        assert((a + b).drop_last() =~= a + b.drop_last());
        lemma_tile_count_concat(a, b.drop_last(), t);
    }
}

proof fn lemma_tile_count_same(n: nat, x: usize, t: int)
    ensures
        tile_count(Seq::new(n, |j: int| x), t) == if x == t {
            n as int
        } else {
            0
        },
    decreases n,
{
    if n > 0 {
        assert(Seq::new(n, |j: int| x).drop_last() =~= Seq::new((n - 1) as nat, |j: int| x));
        lemma_tile_count_same((n - 1) as nat, x, t);
    }
}

/// Listing a hand's tiles keeps every count: the list holds each tile as
/// many times as the hand does.
pub proof fn lemma_to_tiles_counts(c: Seq<u8>, t: int)
    requires
        0 <= t < c.len(),
        c.len() <= 34,
    ensures
        tile_count(crate::tiles::spec_to_tiles(c), t) == c[t],
    decreases c.len(),
{
    let w = c.drop_last();
    let x = (c.len() - 1) as usize;
    let tail = Seq::new(c.last() as nat, |j: int| x);
    assert(crate::tiles::spec_to_tiles(c) == crate::tiles::spec_to_tiles(w) + tail);
    lemma_tile_count_concat(crate::tiles::spec_to_tiles(w), tail, t);
    lemma_tile_count_same(c.last() as nat, x, t);
    if t < c.len() - 1 {
        assert(c[t] == w[t]);
        lemma_to_tiles_counts(w, t);
    } else {
        lemma_to_tiles_absent(w, t);
    }
}

proof fn lemma_to_tiles_absent(c: Seq<u8>, t: int)
    requires
        t >= c.len(),
        c.len() <= 34,
    ensures
        tile_count(crate::tiles::spec_to_tiles(c), t) == 0,
    decreases c.len(),
{
    if c.len() > 0 {
        let w = c.drop_last();
        let x = (c.len() - 1) as usize;
        let tail = Seq::new(c.last() as nat, |j: int| x);
        assert(crate::tiles::spec_to_tiles(c) == crate::tiles::spec_to_tiles(w) + tail);
        lemma_tile_count_concat(crate::tiles::spec_to_tiles(w), tail, t);
        lemma_tile_count_same(c.last() as nat, x, t);
        lemma_to_tiles_absent(w, t);
    }
}

/// Whether `t` is among the tiles `s`.
pub open spec fn among(s: Seq<usize>, t: int) -> bool {
    exists|i: int| 0 <= i < s.len() && s[i] == t
}

/// A tile is a structural wait exactly when fewer than four are held and the
/// hand with it added has a winning interpretation; the waits are listed in
/// increasing order.
pub proof fn lemma_structural_iff(concealed: Counts, ms: Seq<Meld>, k: int)
    requires
        0 <= k <= 34,
    ensures
        forall|t: int|
            0 <= t < k ==> (#[trigger] among(structural_upto(concealed, ms, k), t) <==> (concealed@[t] < 4
                && spec_winning(plus_tile(concealed, t), ms).len() > 0)),
        forall|i: int, j: int|
            0 <= i < j < structural_upto(concealed, ms, k).len() ==> #[trigger] structural_upto(concealed, ms, k)[i] < #[trigger] structural_upto(concealed, ms, k)[j],
        forall|i: int|
            0 <= i < structural_upto(concealed, ms, k).len() ==> 0 <= #[trigger] structural_upto(concealed, ms, k)[i] < k,
    decreases k,
{
    if k > 0 {
        lemma_structural_iff(concealed, ms, k - 1);
        let a = structural_upto(concealed, ms, k - 1);
        let r = structural_upto(concealed, ms, k);
        let add = concealed@[k - 1] < 4 && spec_winning(plus_tile(concealed, k - 1), ms).len() > 0;
        if add {
            assert(r == a.push((k - 1) as usize));
        } else {
            assert(r == a);
        }
        assert forall|i: int| 0 <= i < r.len() implies 0 <= #[trigger] r[i] < k by {
            if i < a.len() {
                assert(r[i] == a[i]);
            }
        }
        assert forall|i: int, j: int| 0 <= i < j < r.len() implies #[trigger] r[i] < #[trigger] r[j] by {
            assert(r[i] == a[i]);
            if j < a.len() {
                assert(r[j] == a[j]);
            }
        }
        assert forall|t: int| 0 <= t < k implies (#[trigger] among(r, t) <==> (concealed@[t] < 4
            && spec_winning(plus_tile(concealed, t), ms).len() > 0)) by {
            if t < k - 1 {
                if among(r, t) {
                    let i = choose|i: int| 0 <= i < r.len() && r[i] == t;
                    if i < a.len() {
                        assert(a[i] == t);
                        assert(among(a, t));
                    }
                }
                if among(a, t) {
                    let i = choose|i: int| 0 <= i < a.len() && a[i] == t;
                    assert(r[i] == a[i]);
                }
                assert(among(r, t) == among(a, t));
            } else {
                if add {
                    assert(r[a.len() as int] == t);
                } else {
                    if among(r, t) {
                        let i = choose|i: int| 0 <= i < r.len() && r[i] == t;
                        assert(a[i] < k - 1);
                    }
                }
            }
        }
    }
}


fn melds_ok(melds: &[Meld]) -> (r: bool)
    ensures
        r == melds_in_range(melds@),
{
    let mut i: usize = 0;
    while i < melds.len()
        invariant
            i <= melds@.len(),
            forall|k: int|
                0 <= k < i ==> (match (#[trigger] melds@[k]).kind {
                    MeldKind::Chi => melds@[k].tile + 2 < 34,
                    _ => melds@[k].tile < 34,
                }),
        decreases melds@.len() - i,
    {
        let m = melds[i];
        let ok = match m.kind {
            MeldKind::Chi => m.tile < 32,
            _ => m.tile < 34,
        };
        if !ok {
            return false;
        }
        i = i + 1;
    }
    true
}

/// Whether `analyze` can take the hand: the melds' tiles are tile indices,
/// there are at most 496 melds, and no count passes 255 with a tried tile
/// added.
pub fn can_analyze(concealed: &Counts, melds: &[Meld]) -> (r: bool)
    ensures
        r == analyzable(*concealed, melds@),
{
    if melds.len() > 496 || !melds_ok(melds) {
        return false;
    }
    let mut a: [u32; 34] = [0; 34];
    let mut x: usize = 0;
    while x < NUM_TILES
        invariant
            x <= 34,
            forall|t: int| 0 <= t < x ==> #[trigger] a@[t] as int == concealed@[t],
        decreases 34 - x,
    {
        a[x] = concealed[x] as u32;
        x = x + 1;
    }
    let mut i: usize = 0;
    while i < melds.len()
        invariant
            i <= melds@.len(),
            melds@.len() <= 496,
            melds_in_range(melds@),
            forall|t: int| 0 <= t < 34 ==> #[trigger] a@[t] as int == concealed@[t] + melds_count(melds@.subrange(0, i as int), t),
            forall|t: int| 0 <= t < 34 ==> #[trigger] a@[t] <= 255 + 4 * i,
        decreases melds@.len() - i,
    {
        let m = melds[i];
        assert(melds@.subrange(0, i + 1).drop_last() =~= melds@.subrange(0, i as int));
        let ts = m.tiles();
        let ghost a0 = a@;
        let mut j: usize = 0;
        while j < ts.len()
            invariant
                j <= ts@.len(),
                ts@.len() <= 4,
                i < melds@.len(),
                melds@.len() <= 496,
                m == melds@[i as int],
                ts@ == spec_meld_tiles(m),
                melds_in_range(melds@),
                forall|t: int| 0 <= t < 34 ==> #[trigger] a0[t] as int == concealed@[t] + melds_count(melds@.subrange(0, i as int), t),
                forall|t: int| 0 <= t < 34 ==> #[trigger] a0[t] <= 255 + 4 * i,
                forall|t: int| 0 <= t < 34 ==> #[trigger] a@[t] as int == a0[t] + tile_count(ts@.subrange(0, j as int), t),
                forall|t: int| 0 <= t < 34 ==> #[trigger] a@[t] <= a0[t] + j,
            decreases ts@.len() - j,
        {
            assert(ts@.subrange(0, j + 1).drop_last() =~= ts@.subrange(0, j as int));
            let t = ts[j];
            assert(t < 34);
            a[t] = a[t] + 1;
            j = j + 1;
        }
        proof {
            assert(ts@.subrange(0, ts@.len() as int) =~= ts@);
            assert forall|t: int| 0 <= t < 34 implies #[trigger] a@[t] as int == concealed@[t] + melds_count(melds@.subrange(0, i + 1), t) by {
                assert(melds@.subrange(0, i + 1).last() == m);
            }
        }
        i = i + 1;
    }
    assert(melds@.subrange(0, melds@.len() as int) =~= melds@);
    let mut t: usize = 0;
    while t < NUM_TILES
        invariant
            t <= 34,
            melds@.len() <= 496,
            melds_in_range(melds@),
            forall|u: int| 0 <= u < 34 ==> #[trigger] a@[u] as int == concealed@[u] + melds_count(melds@, u),
            forall|u: int| 0 <= u < 34 ==> #[trigger] a@[u] <= 255 + 4 * 496,
            forall|u: int|
                0 <= u < t ==> #[trigger] concealed@[u] + melds_count(melds@, u) + (if concealed@[u] < 4 {
                    1int
                } else {
                    0int
                }) <= 255,
        decreases 34 - t,
    {
        let extra: u32 = if concealed[t] < 4 {
            1
        } else {
            0
        };
        if a[t] + extra > 255 {
            return false;
        }
        t = t + 1;
    }
    true
}

} // verus!
