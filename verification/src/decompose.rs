//! Hand decomposition: the standard shape (sets plus a pair) and the special
//! shapes (seven pairs, thirteen orphans, honors and knitted).
use vstd::prelude::*;
use crate::tiles::{is_suited, is_terminal_or_honor, seq_sum, total, Counts, NUM_TILES};

verus! {

broadcast use vstd::seq_lib::group_to_multiset_ensures;

#[derive(Clone, Copy, Debug, PartialEq, Eq, Structural)]
pub enum SetKind {
    Run,
    Triplet,
}

/// A set (meld) of a decomposition.
#[derive(Clone, Copy, Debug, PartialEq, Eq, Structural)]
pub struct Group {
    pub kind: SetKind,
    /// Run: its lowest tile; Triplet: the tile.
    pub tile: usize,
    pub is_kan: bool,
    /// Whether it comes from an exposed meld.
    pub open: bool,
}

impl Group {
    pub fn run(tile: usize) -> (s: Self)
        ensures
            s == (Group { kind: SetKind::Run, tile, is_kan: false, open: false }),
    {
        Group { kind: SetKind::Run, tile, is_kan: false, open: false }
    }

    pub fn triplet(tile: usize) -> (s: Self)
        ensures
            s == (Group { kind: SetKind::Triplet, tile, is_kan: false, open: false }),
    {
        Group { kind: SetKind::Triplet, tile, is_kan: false, open: false }
    }

    pub fn is_run(&self) -> (r: bool)
        ensures
            r == (self.kind == SetKind::Run),
    {
        self.kind == SetKind::Run
    }

    pub fn is_triplet(&self) -> (r: bool)
        ensures
            r == (self.kind == SetKind::Triplet),
    {
        self.kind == SetKind::Triplet
    }

    /// The three tiles of the set.
    pub fn tiles(&self) -> (v: Vec<usize>)
        requires
            self.kind == SetKind::Run ==> self.tile + 2 <= usize::MAX,
        ensures
            v@ == spec_set_tiles(*self),
    {
        match self.kind {
            SetKind::Run => vec![self.tile, self.tile + 1, self.tile + 2],
            SetKind::Triplet => vec![self.tile, self.tile, self.tile],
        }
    }
}

pub open spec fn spec_set_tiles(s: Group) -> Seq<usize> {
    match s.kind {
        SetKind::Run => seq![s.tile, (s.tile + 1) as usize, (s.tile + 2) as usize],
        SetKind::Triplet => seq![s.tile, s.tile, s.tile],
    }
}

#[derive(Clone, Copy, Debug, PartialEq, Eq, Structural)]
pub enum Special {
    SevenPairs,
    SevenPairsStraight,
    ThirteenOrphans,
    BuKao,
    SevenStars,
    /// Knitted straight (the nine tiles 147/258/369 in three suits) plus one
    /// set and a pair.
    Zuhelong,
}

/// One interpretation of a winning hand.
#[derive(Clone, Debug)]
pub struct Decomp {
    /// The pair (none for the special shapes without one).
    pub pair: Option<usize>,
    /// The sets, melds included.
    pub sets: Vec<Group>,
    pub special: Option<Special>,
}

/// The value of a decomposition: pair, sets, special shape.
pub struct DecompModel {
    pub pair: Option<usize>,
    pub sets: Seq<Group>,
    pub special: Option<Special>,
}

impl View for Decomp {
    type V = DecompModel;

    open spec fn view(&self) -> DecompModel {
        DecompModel { pair: self.pair, sets: self.sets@, special: self.special }
    }
}

pub open spec fn standard_model(p: usize, sets: Seq<Group>) -> DecompModel {
    DecompModel { pair: Some(p), sets, special: None }
}

pub open spec fn special_model(s: Special) -> DecompModel {
    DecompModel { pair: None, sets: Seq::empty(), special: Some(s) }
}

impl Decomp {
    pub fn standard(pair: usize, sets: Vec<Group>) -> (d: Self)
        ensures
            d@ == standard_model(pair, sets@),
    {
        Decomp { pair: Some(pair), sets, special: None }
    }

    pub fn special(s: Special) -> (d: Self)
        ensures
            d@ == special_model(s),
    {
        Decomp { pair: None, sets: Vec::new(), special: Some(s) }
    }
}

// ---------------------------------------------------------------------------
// Standard decomposition
// ---------------------------------------------------------------------------

/// How many copies of tile `t` a set holds.
pub open spec fn set_count(s: Group, t: int) -> int {
    match s.kind {
        SetKind::Run => if s.tile <= t <= s.tile + 2 { 1 } else { 0 },
        SetKind::Triplet => if t == s.tile { 3 } else { 0 },
    }
}

/// How many copies of tile `t` a list of sets holds.
pub open spec fn sets_count(ds: Seq<Group>, t: int) -> int
    decreases ds.len(),
{
    if ds.len() == 0 {
        0
    } else {
        sets_count(ds.drop_last(), t) + set_count(ds.last(), t)
    }
}

/// A concealed set that can stand in a hand: a run of one suit or a triplet
/// of a tile.
pub open spec fn hand_set(s: Group) -> bool {
    &&& !s.is_kan
    &&& !s.open
    &&& match s.kind {
        SetKind::Run => s.tile < 27 && s.tile % 9 <= 6,
        SetKind::Triplet => s.tile < 34,
    }
}

/// `ds` splits the counts `c` exactly into concealed sets.
pub open spec fn splits(c: Seq<int>, ds: Seq<Group>) -> bool {
    &&& forall|i: int| 0 <= i < ds.len() ==> hand_set(#[trigger] ds[i])
    &&& forall|t: int| 0 <= t < 34 ==> #[trigger] sets_count(ds, t) == c[t]
}

/// Counts as a sequence of 34 non-negative integers.
pub open spec fn valid_counts(c: Seq<int>) -> bool {
    c.len() == 34 && forall|t: int| 0 <= t < 34 ==> c[t] >= 0
}

/// First tile index from `i` on with a positive count (34 if none).
pub open spec fn first_pos(c: Seq<int>, i: int) -> int
    decreases 34 - i,
{
    if i >= 34 {
        34
    } else if c[i] > 0 {
        i
    } else {
        first_pos(c, i + 1)
    }
}

pub open spec fn all_zero(c: Seq<int>) -> bool {
    forall|t: int| 0 <= t < 34 ==> c[t] == 0
}

pub open spec fn spec_triplet(t: int) -> Group {
    Group { kind: SetKind::Triplet, tile: t as usize, is_kan: false, open: false }
}

pub open spec fn spec_run(t: int) -> Group {
    Group { kind: SetKind::Run, tile: t as usize, is_kan: false, open: false }
}

pub open spec fn minus_run(c: Seq<int>, f: int) -> Seq<int> {
    c.update(f, c[f] - 1).update(f + 1, c[f + 1] - 1).update(f + 2, c[f + 2] - 1)
}

pub open spec fn prepend_all(x: Group, os: Seq<Seq<Group>>) -> Seq<Seq<Group>> {
    os.map_values(|o: Seq<Group>| seq![x] + o)
}

/// All ways, in search order, of splitting `c` into `k` sets: the lowest
/// held tile either starts a triplet (tried first) or a run.
pub open spec fn spec_take_sets(c: Seq<int>, k: nat) -> Seq<Seq<Group>>
    decreases k,
{
    if k == 0 {
        if all_zero(c) {
            seq![Seq::empty()]
        } else {
            Seq::empty()
        }
    } else {
        let f = first_pos(c, 0);
        if f >= 34 {
            Seq::empty()
        } else {
            let a = if c[f] >= 3 {
                prepend_all(spec_triplet(f), spec_take_sets(c.update(f, c[f] - 3), (k - 1) as nat))
            } else {
                Seq::empty()
            };
            let b = if f < 27 && f % 9 <= 6 && c[f + 1] > 0 && c[f + 2] > 0 {
                prepend_all(spec_run(f), spec_take_sets(minus_run(c, f), (k - 1) as nat))
            } else {
                Seq::empty()
            };
            a + b
        }
    }
}

proof fn lemma_first_pos(c: Seq<int>, i: int)
    requires
        valid_counts(c),
        0 <= i <= 34,
    ensures
        i <= first_pos(c, i) <= 34,
        forall|j: int| i <= j < first_pos(c, i) ==> c[j] == 0,
        first_pos(c, i) < 34 ==> c[first_pos(c, i)] > 0,
    decreases 34 - i,
{
    if i < 34 && c[i] <= 0 {
        lemma_first_pos(c, i + 1);
    }
}

proof fn lemma_sets_count_nonneg(ds: Seq<Group>, t: int)
    ensures
        sets_count(ds, t) >= 0,
        forall|i: int| 0 <= i < ds.len() ==> sets_count(ds, t) >= set_count(#[trigger] ds[i], t),
    decreases ds.len(),
{
    if ds.len() > 0 {
        lemma_sets_count_nonneg(ds.drop_last(), t);
        assert forall|i: int| 0 <= i < ds.len() implies sets_count(ds, t) >= set_count(
            #[trigger] ds[i],
            t,
        ) by {
            if i < ds.len() - 1 {
                assert(ds.drop_last()[i] == ds[i]);
            }
        }
    }
}

/// Removing a set removes its tiles from the count.
proof fn lemma_sets_count_remove(ds: Seq<Group>, i: int, t: int)
    requires
        0 <= i < ds.len(),
    ensures
        sets_count(ds.remove(i), t) == sets_count(ds, t) - set_count(ds[i], t),
    decreases ds.len(),
{
    if i == ds.len() - 1 {
        assert(ds.remove(i) =~= ds.drop_last());
    } else {
        lemma_sets_count_remove(ds.drop_last(), i, t);
        assert(ds.remove(i).drop_last() =~= ds.drop_last().remove(i));
        assert(ds.remove(i).last() == ds.last());
    }
}

proof fn lemma_sets_count_prepend(x: Group, o: Seq<Group>, t: int)
    ensures
        sets_count(seq![x] + o, t) == set_count(x, t) + sets_count(o, t),
    decreases o.len(),
{
    if o.len() == 0 {
        assert((seq![x] + o).drop_last() =~= Seq::<Group>::empty());
        assert((seq![x] + o).last() == x);
        assert(sets_count(Seq::<Group>::empty(), t) == 0);
    } else {
        lemma_sets_count_prepend(x, o.drop_last(), t);
        assert((seq![x] + o).drop_last() =~= seq![x] + o.drop_last());
        assert((seq![x] + o).last() == o.last());
    }
}

/// A positive count is held by some set.
proof fn lemma_sets_count_pos(ds: Seq<Group>, t: int) -> (i: int)
    requires
        sets_count(ds, t) > 0,
    ensures
        0 <= i < ds.len(),
        set_count(ds[i], t) > 0,
    decreases ds.len(),
{
    if set_count(ds.last(), t) > 0 {
        ds.len() - 1
    } else {
        let j = lemma_sets_count_pos(ds.drop_last(), t);
        assert(ds.drop_last()[j] == ds[j]);
        j
    }
}

proof fn lemma_prepend_multiset(x: Group, o: Seq<Group>)
    ensures
        (seq![x] + o).to_multiset() =~= o.to_multiset().insert(x),
{
    let s = seq![x] + o;
    assert(s.remove(0) =~= o);
    assert(s[0] == x);
    assert(s.contains(x));
    assert(o.to_multiset() =~= s.to_multiset().remove(x));
    assert(s.to_multiset().count(x) > 0);
}

/// Every listed way of splitting `c` splits it exactly into `k` concealed sets.
pub proof fn lemma_take_sets_sound(c: Seq<int>, k: nat)
    requires
        valid_counts(c),
    ensures
        forall|j: int|
            0 <= j < spec_take_sets(c, k).len() ==> {
                let o = #[trigger] spec_take_sets(c, k)[j];
                o.len() == k && splits(c, o)
            },
    decreases k,
{
    if k > 0 {
        let f = first_pos(c, 0);
        lemma_first_pos(c, 0);
        if f < 34 {
            if c[f] >= 3 {
                let c2 = c.update(f, c[f] - 3);
                lemma_take_sets_sound(c2, (k - 1) as nat);
                let rest = spec_take_sets(c2, (k - 1) as nat);
                assert forall|j: int| 0 <= j < rest.len() implies {
                    let o = #[trigger] prepend_all(spec_triplet(f), rest)[j];
                    o.len() == k && splits(c, o)
                } by {
                    let o = prepend_all(spec_triplet(f), rest)[j];
                    assert(o == seq![spec_triplet(f)] + rest[j]);
                    assert forall|t: int| 0 <= t < 34 implies #[trigger] sets_count(o, t) == c[t] by {
                        lemma_sets_count_prepend(spec_triplet(f), rest[j], t);
                    }
                    assert forall|i: int| 0 <= i < o.len() implies hand_set(#[trigger] o[i]) by {
                        if i > 0 {
                            assert(o[i] == rest[j][i - 1]);
                        }
                    }
                }
            }
            if f < 27 && f % 9 <= 6 && c[f + 1] > 0 && c[f + 2] > 0 {
                let c2 = minus_run(c, f);
                lemma_take_sets_sound(c2, (k - 1) as nat);
                let rest = spec_take_sets(c2, (k - 1) as nat);
                assert forall|j: int| 0 <= j < rest.len() implies {
                    let o = #[trigger] prepend_all(spec_run(f), rest)[j];
                    o.len() == k && splits(c, o)
                } by {
                    let o = prepend_all(spec_run(f), rest)[j];
                    assert(o == seq![spec_run(f)] + rest[j]);
                    assert forall|t: int| 0 <= t < 34 implies #[trigger] sets_count(o, t) == c[t] by {
                        lemma_sets_count_prepend(spec_run(f), rest[j], t);
                    }
                    assert forall|i: int| 0 <= i < o.len() implies hand_set(#[trigger] o[i]) by {
                        if i > 0 {
                            assert(o[i] == rest[j][i - 1]);
                        }
                    }
                }
            }
        }
    } else {
        if all_zero(c) {
            assert forall|t: int| 0 <= t < 34 implies #[trigger] sets_count(
                Seq::<Group>::empty(),
                t,
            ) == c[t] by {}
        }
    }
}

/// Every way of splitting `c` into `k` concealed sets is listed, up to the
/// order of its sets.
pub proof fn lemma_take_sets_complete(c: Seq<int>, k: nat, ds: Seq<Group>)
    requires
        valid_counts(c),
        ds.len() == k,
        splits(c, ds),
    ensures
        exists|j: int|
            0 <= j < spec_take_sets(c, k).len() && (#[trigger] spec_take_sets(
                c,
                k,
            )[j]).to_multiset() =~= ds.to_multiset(),
    decreases k,
{
    if k == 0 {
        assert forall|t: int| 0 <= t < 34 implies c[t] == 0 by {
            assert(sets_count(ds, t) == c[t]);
        }
        assert(all_zero(c));
        assert(spec_take_sets(c, k)[0] =~= ds);
    } else {
        let x = ds[0];
        lemma_sets_count_nonneg(ds, x.tile as int);
        assert(x.tile < 34);
        assert(c[x.tile as int] > 0);
        lemma_first_pos(c, 0);
        let f = first_pos(c, 0);
        assert(f <= x.tile);
        let i = lemma_sets_count_pos(ds, f);
        let y = ds[i];
        let rest = ds.remove(i);
        lemma_sets_count_nonneg(ds, f);
        assert(ds.remove(i).insert(i, y) =~= ds);
        if y.kind == SetKind::Triplet {
            assert(y.tile == f);
            assert(y == spec_triplet(f));
            let c2 = c.update(f, c[f] - 3);
            assert forall|t: int| 0 <= t < 34 implies #[trigger] sets_count(rest, t) == c2[t] by {
                lemma_sets_count_remove(ds, i, t);
            }
            assert forall|m: int| 0 <= m < rest.len() implies hand_set(#[trigger] rest[m]) by {
                if m < i {
                    assert(rest[m] == ds[m]);
                } else {
                    assert(rest[m] == ds[m + 1]);
                }
            }
            lemma_take_sets_complete(c2, (k - 1) as nat, rest);
            let subs = spec_take_sets(c2, (k - 1) as nat);
            let jj = choose|j: int|
                0 <= j < subs.len() && (#[trigger] subs[j]).to_multiset() =~= rest.to_multiset();
            let o = subs[jj];
            let all = spec_take_sets(c, k);
            assert(all[jj] == seq![y] + o);
            lemma_prepend_multiset(y, o);
            assert(ds.to_multiset() =~= rest.to_multiset().insert(y));
        } else {
            let g = y.tile as int;
            assert(g <= f <= g + 2);
            lemma_sets_count_nonneg(ds, g);
            assert(set_count(y, g) == 1);
            assert(c[g] > 0);
            assert(g == f);
            assert(y == spec_run(f));
            lemma_sets_count_nonneg(ds, f + 1);
            lemma_sets_count_nonneg(ds, f + 2);
            assert(set_count(y, f + 1) == 1);
            assert(set_count(y, f + 2) == 1);
            let c2 = minus_run(c, f);
            assert forall|t: int| 0 <= t < 34 implies #[trigger] sets_count(rest, t) == c2[t] by {
                lemma_sets_count_remove(ds, i, t);
            }
            assert forall|m: int| 0 <= m < rest.len() implies hand_set(#[trigger] rest[m]) by {
                if m < i {
                    assert(rest[m] == ds[m]);
                } else {
                    assert(rest[m] == ds[m + 1]);
                }
            }
            lemma_take_sets_complete(c2, (k - 1) as nat, rest);
            let subs = spec_take_sets(c2, (k - 1) as nat);
            let jj = choose|j: int|
                0 <= j < subs.len() && (#[trigger] subs[j]).to_multiset() =~= rest.to_multiset();
            let o = subs[jj];
            let all = spec_take_sets(c, k);
            let a_len = if c[f] >= 3 {
                spec_take_sets(c.update(f, c[f] - 3), (k - 1) as nat).len()
            } else {
                0
            };
            assert(all[a_len + jj] == seq![y] + o);
            lemma_prepend_multiset(y, o);
            assert(ds.to_multiset() =~= rest.to_multiset().insert(y));
        }
    }
}


/// The counts of a hand as integers.
pub open spec fn ci(c: Counts) -> Seq<int> {
    Seq::new(34, |i: int| c@[i] as int)
}

pub open spec fn groups_views(s: Seq<Vec<Group>>) -> Seq<Seq<Group>> {
    s.map_values(|v: Vec<Group>| v@)
}

pub open spec fn decomps_view(s: Seq<Decomp>) -> Seq<DecompModel> {
    s.map_values(|d: Decomp| d@)
}

fn first_nonzero(c: &Counts) -> (r: usize)
    ensures
        r == first_pos(ci(*c), 0),
{
    let ghost cc = ci(*c);
    let mut i: usize = 0;
    while i < NUM_TILES
        invariant
            i <= 34,
            cc == ci(*c),
            first_pos(cc, 0) == first_pos(cc, i as int),
        decreases 34 - i,
    {
        if c[i] > 0 {
            return i;
        }
        i = i + 1;
    }
    i
}

fn is_all_zero(c: &Counts) -> (r: bool)
    ensures
        r == all_zero(ci(*c)),
{
    let mut i: usize = 0;
    while i < NUM_TILES
        invariant
            i <= 34,
            forall|j: int| 0 <= j < i ==> ci(*c)[j] == 0,
        decreases 34 - i,
    {
        if c[i] != 0 {
            assert(ci(*c)[i as int] != 0);
            return false;
        }
        i = i + 1;
    }
    true
}

pub fn copy_groups(v: &Vec<Group>) -> (r: Vec<Group>)
    ensures
        r@ == v@,
{
    let mut r: Vec<Group> = Vec::new();
    let mut i: usize = 0;
    while i < v.len()
        invariant
            i <= v@.len(),
            r@ == v@.subrange(0, i as int),
        decreases v@.len() - i,
    {
        r.push(v[i]);
        i = i + 1;
        assert(r@ =~= v@.subrange(0, i as int));
    }
    assert(v@.subrange(0, v@.len() as int) =~= v@);
    r
}

proof fn lemma_prepend_then_extend(x: Group, cur: Seq<Group>, sub: Seq<Seq<Group>>)
    ensures
        prepend_all(x, sub).map_values(|o: Seq<Group>| cur + o) =~= sub.map_values(
            |o: Seq<Group>| cur.push(x) + o,
        ),
{
    let lhs = prepend_all(x, sub).map_values(|o: Seq<Group>| cur + o);
    let rhs = sub.map_values(|o: Seq<Group>| cur.push(x) + o);
    assert forall|j: int| 0 <= j < sub.len() implies #[trigger] lhs[j] =~= rhs[j] by {
        assert(cur + (seq![x] + sub[j]) =~= cur.push(x) + sub[j]);
    }
}

/// Appends to `out`, after the prefix `cur`, every way of splitting `c` into
/// `k` concealed sets, in search order; `c` and `cur` are left as found.
fn take_sets(c: &mut Counts, k: usize, cur: &mut Vec<Group>, out: &mut Vec<Vec<Group>>)
    ensures
        *final(c) == *old(c),
        final(cur)@ == old(cur)@,
        groups_views(final(out)@) == groups_views(old(out)@) + spec_take_sets(
            ci(*old(c)),
            k as nat,
        ).map_values(|o: Seq<Group>| old(cur)@ + o),
    decreases k,
{
    let ghost c0 = ci(*c);
    let ghost cur0 = cur@;
    let ghost out0 = groups_views(out@);
    if k == 0 {
        if is_all_zero(c) {
            let cp = copy_groups(cur);
            out.push(cp);
            assert(groups_views(out@) =~= out0.push(cur0));
            assert(spec_take_sets(c0, 0).map_values(|o: Seq<Group>| cur0 + o) =~= seq![cur0]) by {
                assert(cur0 + Seq::<Group>::empty() =~= cur0);
            }
        } else {
            assert(spec_take_sets(c0, 0).map_values(|o: Seq<Group>| cur0 + o) =~= Seq::<
                Seq<Group>,
            >::empty());
            assert(groups_views(out@) =~= out0);
        }
        return ;
    }
    let f = first_nonzero(c);
    if f >= NUM_TILES {
        assert(spec_take_sets(c0, k as nat).map_values(|o: Seq<Group>| cur0 + o) =~= Seq::<
            Seq<Group>,
        >::empty());
        assert(groups_views(out@) =~= out0);
        return ;
    }
    proof {
        lemma_first_pos(c0, 0);
    }
    let ghost a: Seq<Seq<Group>> = Seq::empty();
    if c[f] >= 3 {
        let ghost c_before = *c;
        c[f] = c[f] - 3;
        assert(ci(*c) =~= c0.update(f as int, c0[f as int] - 3));
        cur.push(Group::triplet(f));
        take_sets(c, k - 1, cur, out);
        cur.pop();
        assert(cur@ =~= cur0);
        c[f] = c[f] + 3;
        assert(*c =~= c_before);
        proof {
            let sub = spec_take_sets(c0.update(f as int, c0[f as int] - 3), (k - 1) as nat);
            lemma_prepend_then_extend(spec_triplet(f as int), cur0, sub);
            a = prepend_all(spec_triplet(f as int), sub);
            assert(groups_views(out@) =~= out0 + a.map_values(|o: Seq<Group>| cur0 + o));
        }
    } else {
        assert(groups_views(out@) =~= out0 + a.map_values(|o: Seq<Group>| cur0 + o));
    }
    let ghost out1 = groups_views(out@);
    let ghost b: Seq<Seq<Group>> = Seq::empty();
    if is_suited(f) && f % 9 <= 6 && c[f + 1] > 0 && c[f + 2] > 0 {
        let ghost c_before = *c;
        c[f] = c[f] - 1;
        c[f + 1] = c[f + 1] - 1;
        c[f + 2] = c[f + 2] - 1;
        assert(ci(*c) =~= minus_run(c0, f as int));
        cur.push(Group::run(f));
        take_sets(c, k - 1, cur, out);
        cur.pop();
        assert(cur@ =~= cur0);
        c[f] = c[f] + 1;
        c[f + 1] = c[f + 1] + 1;
        c[f + 2] = c[f + 2] + 1;
        assert(*c =~= c_before);
        proof {
            let sub = spec_take_sets(minus_run(c0, f as int), (k - 1) as nat);
            lemma_prepend_then_extend(spec_run(f as int), cur0, sub);
            b = prepend_all(spec_run(f as int), sub);
            assert(groups_views(out@) =~= out1 + b.map_values(|o: Seq<Group>| cur0 + o));
        }
    } else {
        assert(groups_views(out@) =~= out1 + b.map_values(|o: Seq<Group>| cur0 + o));
    }
    proof {
        assert(spec_take_sets(c0, k as nat) == a + b);
        assert((a + b).map_values(|o: Seq<Group>| cur0 + o) =~= a.map_values(
            |o: Seq<Group>| cur0 + o,
        ) + b.map_values(|o: Seq<Group>| cur0 + o));
    }
}

/// Standard decompositions with the pair among the first `p` tile kinds.
pub open spec fn standard_upto(c: Seq<int>, k: nat, p: int) -> Seq<DecompModel>
    decreases p,
{
    if p <= 0 {
        Seq::empty()
    } else {
        standard_upto(c, k, p - 1) + if c[p - 1] >= 2 {
            spec_take_sets(c.update(p - 1, c[p - 1] - 2), k).map_values(
                |o: Seq<Group>| standard_model((p - 1) as usize, o),
            )
        } else {
            Seq::empty()
        }
    }
}

/// All (pair, `k` sets) decompositions of `c`, pair tile ascending, each
/// pair's splits in search order.
pub open spec fn spec_decompose_standard(c: Seq<int>, k: nat) -> Seq<DecompModel> {
    standard_upto(c, k, 34)
}

/// All decompositions of the hand into a pair and `k` sets.
pub fn decompose_standard(c: &Counts, k: usize) -> (res: Vec<Decomp>)
    ensures
        decomps_view(res@) == spec_decompose_standard(ci(*c), k as nat),
        decomps_view(res@).no_duplicates(),
{
    proof {
        lemma_decompose_standard_distinct(ci(*c), k as nat);
    }
    let ghost c0 = ci(*c);
    let mut res: Vec<Decomp> = Vec::new();
    let mut p: usize = 0;
    while p < NUM_TILES
        invariant
            p <= 34,
            c0 == ci(*c),
            decomps_view(res@) == standard_upto(c0, k as nat, p as int),
        decreases 34 - p,
    {
        let ghost before = decomps_view(res@);
        if c[p] >= 2 {
            let mut cc: Counts = *c;
            cc[p] = cc[p] - 2;
            assert(ci(cc) =~= c0.update(p as int, c0[p as int] - 2));
            let mut outs: Vec<Vec<Group>> = Vec::new();
            let mut cur: Vec<Group> = Vec::new();
            take_sets(&mut cc, k, &mut cur, &mut outs);
            let ghost subs = spec_take_sets(c0.update(p as int, c0[p as int] - 2), k as nat);
            assert(groups_views(outs@) =~= subs) by {
                assert(groups_views(Seq::<Vec<Group>>::empty()) =~= Seq::<Seq<Group>>::empty());
                let m = subs.map_values(|o: Seq<Group>| Seq::<Group>::empty() + o);
                assert forall|j: int| 0 <= j < subs.len() implies #[trigger] m[j] =~= subs[j] by {}
            }
            let mut j: usize = 0;
            while j < outs.len()
                invariant
                    j <= outs@.len(),
                    p < 34,
                    groups_views(outs@) == subs,
                    decomps_view(res@) == before + subs.subrange(0, j as int).map_values(
                        |o: Seq<Group>| standard_model(p, o),
                    ),
                decreases outs@.len() - j,
            {
                let sets = copy_groups(&outs[j]);
                assert(sets@ == subs[j as int]);
                let ghost old_res = decomps_view(res@);
                let d = Decomp::standard(p, sets);
                res.push(d);
                assert(decomps_view(res@) =~= old_res.push(d@));
                assert(subs.subrange(0, j + 1) =~= subs.subrange(0, j as int).push(subs[j as int]));
                j = j + 1;
                assert(decomps_view(res@) =~= before + subs.subrange(0, j as int).map_values(
                    |o: Seq<Group>| standard_model(p, o),
                ));
            }
            assert(subs.subrange(0, j as int) =~= subs);
        } else {
            assert(decomps_view(res@) =~= standard_upto(c0, k as nat, p + 1));
        }
        p = p + 1;
    }
    res
}


proof fn lemma_standard_upto_prefix(c: Seq<int>, k: nat, p: int, q: int)
    requires
        0 <= p <= q,
    ensures
        standard_upto(c, k, p).len() <= standard_upto(c, k, q).len(),
        forall|j: int|
            0 <= j < standard_upto(c, k, p).len() ==> #[trigger] standard_upto(c, k, q)[j]
                == standard_upto(c, k, p)[j],
    decreases q - p,
{
    if p < q {
        lemma_standard_upto_prefix(c, k, p, q - 1);
    }
}

/// Every standard decomposition listed takes a pair `p` of which the hand
/// holds two, and splits the rest exactly into `k` concealed sets.
pub proof fn lemma_decompose_standard_sound(c: Seq<int>, k: nat)
    requires
        valid_counts(c),
    ensures
        forall|j: int|
            0 <= j < spec_decompose_standard(c, k).len() ==> {
                let d = #[trigger] spec_decompose_standard(c, k)[j];
                &&& d.pair is Some
                &&& d.special is None
                &&& d.pair->0 < 34
                &&& c[d.pair->0 as int] >= 2
                &&& d.sets.len() == k
                &&& splits(c.update(d.pair->0 as int, c[d.pair->0 as int] - 2), d.sets)
            },
{
    lemma_standard_upto_sound(c, k, 34);
}

proof fn lemma_standard_upto_sound(c: Seq<int>, k: nat, p: int)
    requires
        valid_counts(c),
        p <= 34,
    ensures
        forall|j: int|
            0 <= j < standard_upto(c, k, p).len() ==> {
                let d = #[trigger] standard_upto(c, k, p)[j];
                &&& d.pair is Some
                &&& d.special is None
                &&& d.pair->0 < 34
                &&& c[d.pair->0 as int] >= 2
                &&& d.sets.len() == k
                &&& splits(c.update(d.pair->0 as int, c[d.pair->0 as int] - 2), d.sets)
            },
    decreases p,
{
    if p > 0 {
        lemma_standard_upto_sound(c, k, p - 1);
        if c[p - 1] >= 2 {
            let c2 = c.update(p - 1, c[p - 1] - 2);
            lemma_take_sets_sound(c2, k);
        }
    }
}

proof fn lemma_prepend_distinct(x: Group, os: Seq<Seq<Group>>)
    requires
        os.no_duplicates(),
    ensures
        prepend_all(x, os).no_duplicates(),
        forall|j: int|
            0 <= j < prepend_all(x, os).len() ==> (#[trigger] prepend_all(x, os)[j]).len() >= 1
                && prepend_all(x, os)[j][0] == x,
{
    let ps = prepend_all(x, os);
    assert forall|i: int, j: int| 0 <= i < ps.len() && 0 <= j < ps.len() && i != j implies ps[i]
        != ps[j] by {
        if ps[i] == ps[j] {
            assert(ps[i].subrange(1, ps[i].len() as int) =~= os[i]);
            assert(ps[j].subrange(1, ps[j].len() as int) =~= os[j]);
        }
    }
}

/// No way of splitting into sets is listed twice.
pub proof fn lemma_take_sets_distinct(c: Seq<int>, k: nat)
    ensures
        spec_take_sets(c, k).no_duplicates(),
    decreases k,
{
    if k > 0 {
        let f = first_pos(c, 0);
        if f < 34 {
            let ta = spec_take_sets(c.update(f, c[f] - 3), (k - 1) as nat);
            let tb = spec_take_sets(minus_run(c, f), (k - 1) as nat);
            lemma_take_sets_distinct(c.update(f, c[f] - 3), (k - 1) as nat);
            lemma_take_sets_distinct(minus_run(c, f), (k - 1) as nat);
            lemma_prepend_distinct(spec_triplet(f), ta);
            lemma_prepend_distinct(spec_run(f), tb);
            let a = if c[f] >= 3 {
                prepend_all(spec_triplet(f), ta)
            } else {
                Seq::empty()
            };
            let b = if f < 27 && f % 9 <= 6 && c[f + 1] > 0 && c[f + 2] > 0 {
                prepend_all(spec_run(f), tb)
            } else {
                Seq::empty()
            };
            let ab = a + b;
            assert forall|i: int, j: int| 0 <= i < ab.len() && 0 <= j < ab.len() && i != j implies ab[i]
                != ab[j] by {
                if i < a.len() && j < a.len() {
                    assert(ab[i] == a[i] && ab[j] == a[j]);
                } else if i >= a.len() && j >= a.len() {
                    assert(ab[i] == b[i - a.len()] && ab[j] == b[j - a.len()]);
                } else if i < a.len() {
                    assert(ab[i] == a[i] && ab[j] == b[j - a.len()]);
                    assert(a[i][0] != b[j - a.len()][0]);
                } else {
                    assert(ab[j] == a[j] && ab[i] == b[i - a.len()]);
                    assert(a[j][0] != b[i - a.len()][0]);
                }
            }
        }
    }
}

proof fn lemma_standard_upto_distinct(c: Seq<int>, k: nat, p: int)
    requires
        0 <= p <= 34,
    ensures
        standard_upto(c, k, p).no_duplicates(),
        forall|j: int|
            0 <= j < standard_upto(c, k, p).len() ==> (#[trigger] standard_upto(c, k, p)[j]).pair
                is Some && standard_upto(c, k, p)[j].pair->0 < p,
    decreases p,
{
    if p > 0 {
        lemma_standard_upto_distinct(c, k, p - 1);
        let a = standard_upto(c, k, p - 1);
        let ts = spec_take_sets(c.update(p - 1, c[p - 1] - 2), k);
        lemma_take_sets_distinct(c.update(p - 1, c[p - 1] - 2), k);
        let b = if c[p - 1] >= 2 {
            ts.map_values(|o: Seq<Group>| standard_model((p - 1) as usize, o))
        } else {
            Seq::empty()
        };
        let ab = a + b;
        assert(standard_upto(c, k, p) == ab);
        assert forall|j: int| 0 <= j < ab.len() implies (#[trigger] ab[j]).pair is Some && ab[j].pair->0
            < p by {
            if j < a.len() {
                assert(ab[j] == a[j]);
            } else {
                assert(ab[j] == b[j - a.len()]);
            }
        }
        assert forall|i: int, j: int| 0 <= i < ab.len() && 0 <= j < ab.len() && i != j implies ab[i]
            != ab[j] by {
            if i < a.len() && j < a.len() {
                assert(ab[i] == a[i] && ab[j] == a[j]);
            } else if i >= a.len() && j >= a.len() {
                assert(ab[i] == b[i - a.len()] && ab[j] == b[j - a.len()]);
                assert(b[i - a.len()].sets == ts[i - a.len()]);
                assert(b[j - a.len()].sets == ts[j - a.len()]);
            } else if i < a.len() {
                assert(ab[i] == a[i] && ab[j] == b[j - a.len()]);
            } else {
                assert(ab[j] == a[j] && ab[i] == b[i - a.len()]);
            }
        }
    }
}

/// No decomposition is listed twice.
pub proof fn lemma_decompose_standard_distinct(c: Seq<int>, k: nat)
    ensures
        spec_decompose_standard(c, k).no_duplicates(),
{
    lemma_standard_upto_distinct(c, k, 34);
}

/// Every way of taking a pair the hand holds twice and splitting the rest
/// into `k` concealed sets is listed, up to the order of the sets.
pub proof fn lemma_decompose_standard_complete(c: Seq<int>, k: nat, p: int, ds: Seq<Group>)
    requires
        valid_counts(c),
        0 <= p < 34,
        c[p] >= 2,
        ds.len() == k,
        splits(c.update(p, c[p] - 2), ds),
    ensures
        exists|j: int|
            0 <= j < spec_decompose_standard(c, k).len() && (#[trigger] spec_decompose_standard(
                c,
                k,
            )[j]).pair == Some(p as usize) && spec_decompose_standard(c, k)[j].sets.to_multiset()
                =~= ds.to_multiset(),
{
    let c2 = c.update(p, c[p] - 2);
    lemma_take_sets_complete(c2, k, ds);
    let subs = spec_take_sets(c2, k);
    let jj = choose|j: int|
        0 <= j < subs.len() && (#[trigger] subs[j]).to_multiset() =~= ds.to_multiset();
    let base = standard_upto(c, k, p).len();
    assert(standard_upto(c, k, p + 1)[base + jj] == standard_model(p as usize, subs[jj]));
    lemma_standard_upto_prefix(c, k, p + 1, 34);
    assert(spec_decompose_standard(c, k)[base + jj] == standard_upto(c, k, p + 1)[base + jj]);
}


// ---------------------------------------------------------------------------
// Special shapes
// ---------------------------------------------------------------------------

/// Seven pairs: 14 tiles, every count even (four of a kind counts as two pairs).
pub open spec fn spec_is_seven_pairs(c: Counts) -> bool {
    &&& seq_sum(c@) == 14
    &&& forall|t: int| 0 <= t < 34 ==> #[trigger] c@[t] % 2 == 0
}

pub fn is_seven_pairs(c: &Counts) -> (r: bool)
    ensures
        r == spec_is_seven_pairs(*c),
{
    if total(c) != 14 {
        return false;
    }
    let mut pairs: u32 = 0;
    let mut i: usize = 0;
    while i < NUM_TILES
        invariant
            i <= 34,
            c@.len() == 34,
            seq_sum(c@) == 14,
            pairs * 2 == seq_sum(c@.subrange(0, i as int)),
            pairs <= 128 * i,
            forall|t: int| 0 <= t < i ==> #[trigger] c@[t] % 2 == 0,
        decreases 34 - i,
    {
        let x = c[i];
        if x % 2 != 0 {
            return false;
        }
        assert(c@.subrange(0, i + 1).drop_last() =~= c@.subrange(0, i as int));
        pairs = pairs + (x / 2) as u32;
        i = i + 1;
    }
    assert(c@.subrange(0, 34) =~= c@);
    pairs == 7
}

/// The seven-pairs-in-a-row pattern: two each of ranks `st+1 ..= st+7` of
/// suit `s`, nothing else.
pub open spec fn seven_in_row(c: Counts, s: int, st: int) -> bool {
    forall|t: int|
        0 <= t < 34 ==> #[trigger] c@[t] == (if s * 9 + st <= t < s * 9 + st + 7 {
            2int
        } else {
            0int
        })
}

/// Seven consecutive pairs of one suit.
pub open spec fn spec_is_seven_pairs_straight(c: Counts) -> bool {
    &&& spec_is_seven_pairs(c)
    &&& exists|s: int, st: int| 0 <= s < 3 && 0 <= st <= 2 && #[trigger] seven_in_row(c, s, st)
}

fn window_all_two(c: &Counts, lo: usize) -> (r: bool)
    requires
        lo + 7 <= 34,
    ensures
        r == forall|n: int| lo <= n < lo + 7 ==> #[trigger] c@[n] == 2,
{
    let mut n: usize = 0;
    while n < 7
        invariant
            n <= 7,
            lo + 7 <= 34,
            forall|m: int| lo <= m < lo + n ==> #[trigger] c@[m] == 2,
        decreases 7 - n,
    {
        if c[lo + n] != 2 {
            return false;
        }
        n = n + 1;
    }
    true
}

fn outside_all_zero(c: &Counts, lo: usize) -> (r: bool)
    requires
        lo + 7 <= 34,
    ensures
        r == forall|t: int| 0 <= t < 34 && !(lo <= t < lo + 7) ==> #[trigger] c@[t] == 0,
{
    let mut others: u32 = 0;
    let mut i: usize = 0;
    while i < NUM_TILES
        invariant
            i <= 34,
            lo + 7 <= 34,
            others <= 255 * i,
            (others == 0) == forall|t: int| 0 <= t < i && !(lo <= t < lo + 7) ==> #[trigger] c@[t] == 0,
        decreases 34 - i,
    {
        if !(i >= lo && i < lo + 7) {
            others = others + c[i] as u32;
        }
        i = i + 1;
    }
    others == 0
}

pub fn is_seven_pairs_straight(c: &Counts) -> (r: bool)
    ensures
        r == spec_is_seven_pairs_straight(*c),
{
    if !is_seven_pairs(c) {
        return false;
    }
    let mut s: usize = 0;
    while s < 3
        invariant
            s <= 3,
            spec_is_seven_pairs(*c),
            forall|s2: int, st: int| 0 <= s2 < s && 0 <= st <= 2 ==> !#[trigger] seven_in_row(*c, s2, st),
        decreases 3 - s,
    {
        let base = s * 9;
        let mut start: usize = 0;
        while start <= 2
            invariant
                start <= 3,
                s < 3,
                base == s * 9,
                spec_is_seven_pairs(*c),
                forall|s2: int, st: int| 0 <= s2 < s && 0 <= st <= 2 ==> !#[trigger] seven_in_row(*c, s2, st),
                forall|st: int| 0 <= st < start ==> !#[trigger] seven_in_row(*c, s as int, st),
            decreases 3 - start,
        {
            let lo = base + start;
            let ok = window_all_two(c, lo);
            if ok && outside_all_zero(c, lo) {
                assert(seven_in_row(*c, s as int, start as int));
                return true;
            }
            assert(!seven_in_row(*c, s as int, start as int)) by {
                if seven_in_row(*c, s as int, start as int) {
                    assert forall|n: int| lo <= n < lo + 7 implies #[trigger] c@[n] == 2 by {}
                    assert forall|t: int| 0 <= t < 34 && !(lo <= t < lo + 7) implies #[trigger] c@[t] == 0 by {}
                }
            }
            start = start + 1;
        }
        s = s + 1;
    }
    false
}

/// Thirteen orphans: one of each terminal and honor, one of them twice.
pub open spec fn spec_is_thirteen_orphans(c: Counts) -> bool {
    &&& seq_sum(c@) == 14
    &&& forall|t: int|
        0 <= t < 34 && is_terminal_or_honor(t as usize) ==> (#[trigger] c@[t] == 1 || c@[t] == 2)
    &&& twos_among_orphans(c, 34) == 1
    &&& forall|t: int| 0 <= t < 34 && !is_terminal_or_honor(t as usize) ==> #[trigger] c@[t] == 0
}

/// How many terminals and honors below `n` the hand holds exactly twice.
pub open spec fn twos_among_orphans(c: Counts, n: int) -> int
    decreases n,
{
    if n <= 0 {
        0
    } else {
        twos_among_orphans(c, n - 1) + if is_terminal_or_honor((n - 1) as usize) && c@[n - 1] == 2 {
            1int
        } else {
            0int
        }
    }
}

pub fn is_thirteen_orphans(c: &Counts) -> (r: bool)
    ensures
        r == spec_is_thirteen_orphans(*c),
{
    if total(c) != 14 {
        return false;
    }
    let mut pairs: u32 = 0;
    let mut t: usize = 0;
    while t < NUM_TILES
        invariant
            t <= 34,
            pairs == twos_among_orphans(*c, t as int),
            pairs <= t,
            forall|u: int|
                0 <= u < t && is_terminal_or_honor(u as usize) ==> (#[trigger] c@[u] == 1 || c@[u] == 2),
        decreases 34 - t,
    {
        if is_terminal_or_honor(t) {
            let x = c[t];
            if x == 2 {
                pairs = pairs + 1;
            } else if x != 1 {
                return false;
            }
        }
        t = t + 1;
    }
    if pairs != 1 {
        return false;
    }
    let mut i: usize = 0;
    while i < NUM_TILES
        invariant
            i <= 34,
            forall|u: int| 0 <= u < i && !is_terminal_or_honor(u as usize) ==> #[trigger] c@[u] == 0,
        decreases 34 - i,
    {
        if !is_terminal_or_honor(i) && c[i] > 0 {
            return false;
        }
        i = i + 1;
    }
    true
}

/// The six orderings of the three knitted columns (147, 258, 369).
pub open spec fn spec_perm(i: int) -> Seq<int> {
    if i == 0 {
        seq![0int, 1, 2]
    } else if i == 1 {
        seq![0int, 2, 1]
    } else if i == 2 {
        seq![1int, 0, 2]
    } else if i == 3 {
        seq![1int, 2, 0]
    } else if i == 4 {
        seq![2int, 0, 1]
    } else {
        seq![2int, 1, 0]
    }
}

/// The `i`-th ordering: suit `s` takes column `perm(i)[s]` (0 = 147,
/// 1 = 258, 2 = 369).
pub fn perm(i: usize) -> (p: [usize; 3])
    requires
        i < 6,
    ensures
        p@.len() == 3,
        forall|s: int| 0 <= s < 3 ==> #[trigger] p@[s] as int == spec_perm(i as int)[s],
{
    let p: [usize; 3] = if i == 0 {
        [0, 1, 2]
    } else if i == 1 {
        [0, 2, 1]
    } else if i == 2 {
        [1, 0, 2]
    } else if i == 3 {
        [1, 2, 0]
    } else if i == 4 {
        [2, 0, 1]
    } else {
        [2, 1, 0]
    };
    assert(p@.len() == 3);
    p
}

/// The `i`-th of the nine knitted tiles for column choice `p`: suit `i / 3`,
/// rank `p[i / 3] + 1 + 3 * (i % 3)`.
pub open spec fn knit_tile(p: Seq<int>, i: int) -> int {
    (i / 3) * 9 + p[i / 3] + 3 * (i % 3)
}

pub open spec fn spec_knit_tiles(p: Seq<int>) -> Seq<usize> {
    Seq::new(9, |i: int| knit_tile(p, i) as usize)
}

/// The nine tiles of the knitted straight for the column choice `perm`.
pub fn knit_tiles(perm: [usize; 3]) -> (v: Vec<usize>)
    requires
        forall|s: int| 0 <= s < 3 ==> #[trigger] perm@[s] < 3,
    ensures
        v@ == spec_knit_tiles(perm@.map_values(|x: usize| x as int)),
        forall|i: int| 0 <= i < 9 ==> #[trigger] v@[i] < 27,
{
    let ghost pi = perm@.map_values(|x: usize| x as int);
    let mut v: Vec<usize> = Vec::new();
    let mut s: usize = 0;
    while s < 3
        invariant
            s <= 3,
            forall|s2: int| 0 <= s2 < 3 ==> #[trigger] perm@[s2] < 3,
            pi == perm@.map_values(|x: usize| x as int),
            v@ == spec_knit_tiles(pi).subrange(0, 3 * s),
        decreases 3 - s,
    {
        let mut j: usize = 0;
        while j < 3
            invariant
                j <= 3,
                s < 3,
                forall|s2: int| 0 <= s2 < 3 ==> #[trigger] perm@[s2] < 3,
                pi == perm@.map_values(|x: usize| x as int),
                v@ == spec_knit_tiles(pi).subrange(0, 3 * s + j),
            decreases 3 - j,
        {
            let t = s * 9 + perm[s] + 3 * j;
            assert(knit_tile(pi, 3 * s + j) == t) by {
                assert((3 * s + j) / 3 == s);
                assert((3 * s + j) % 3 == j);
            }
            v.push(t);
            j = j + 1;
            assert(v@ =~= spec_knit_tiles(pi).subrange(0, 3 * s + j));
        }
        s = s + 1;
    }
    assert(v@ =~= spec_knit_tiles(pi));
    assert forall|i: int| 0 <= i < 9 implies #[trigger] v@[i] < 27 by {
        assert(0 <= i / 3 < 3);
        assert(pi[i / 3] < 3);
    }
    v
}

/// Every suited tile held lies in the column its suit takes under ordering `i`.
pub open spec fn knit_fits(c: Counts, i: int) -> bool {
    forall|s: int, n: int|
        0 <= s < 3 && 1 <= n <= 9 && #[trigger] c@[s * 9 + n - 1] > 0 ==> (n - 1) % 3
            == spec_perm(i)[s]
}

/// Honors and knitted: 14 distinct tiles, the suited ones from a knitted
/// straight.
pub open spec fn spec_is_bu_kao(c: Counts) -> bool {
    &&& seq_sum(c@) == 14
    &&& forall|t: int| 0 <= t < 34 ==> #[trigger] c@[t] <= 1
    &&& exists|i: int| 0 <= i < 6 && #[trigger] knit_fits(c, i)
}

fn fits_perm(c: &Counts, i: usize) -> (r: bool)
    requires
        i < 6,
    ensures
        r == knit_fits(*c, i as int),
{
    let p = perm(i);
    let mut s: usize = 0;
    while s < 3
        invariant
            s <= 3,
            i < 6,
            forall|s2: int| 0 <= s2 < 3 ==> #[trigger] p@[s2] as int == spec_perm(i as int)[s2],
            forall|s2: int, n: int|
                0 <= s2 < s && 1 <= n <= 9 && #[trigger] c@[s2 * 9 + n - 1] > 0 ==> (n - 1) % 3
                    == spec_perm(i as int)[s2],
        decreases 3 - s,
    {
        let mut n: usize = 1;
        while n <= 9
            invariant
                1 <= n <= 10,
                s < 3,
                i < 6,
                forall|s2: int| 0 <= s2 < 3 ==> #[trigger] p@[s2] as int == spec_perm(i as int)[s2],
                forall|s2: int, m: int|
                    0 <= s2 < s && 1 <= m <= 9 && #[trigger] c@[s2 * 9 + m - 1] > 0 ==> (m - 1) % 3
                        == spec_perm(i as int)[s2],
                forall|m: int|
                    1 <= m < n && #[trigger] c@[s * 9 + m - 1] > 0 ==> (m - 1) % 3 == spec_perm(
                        i as int,
                    )[s as int],
            decreases 10 - n,
        {
            if c[s * 9 + n - 1] > 0 && (n - 1) % 3 != p[s] {
                assert(!knit_fits(*c, i as int));
                return false;
            }
            n = n + 1;
        }
        s = s + 1;
    }
    true
}

pub fn is_bu_kao(c: &Counts) -> (r: bool)
    ensures
        r == spec_is_bu_kao(*c),
{
    if total(c) != 14 {
        return false;
    }
    let mut t: usize = 0;
    while t < NUM_TILES
        invariant
            t <= 34,
            seq_sum(c@) == 14,
            forall|u: int| 0 <= u < t ==> #[trigger] c@[u] <= 1,
        decreases 34 - t,
    {
        if c[t] > 1 {
            return false;
        }
        t = t + 1;
    }
    let mut i: usize = 0;
    while i < 6
        invariant
            i <= 6,
            seq_sum(c@) == 14,
            forall|u: int| 0 <= u < 34 ==> #[trigger] c@[u] <= 1,
            forall|j: int| 0 <= j < i ==> !#[trigger] knit_fits(*c, j),
        decreases 6 - i,
    {
        if fits_perm(c, i) {
            assert(knit_fits(*c, i as int));
            return true;
        }
        i = i + 1;
    }
    false
}

/// Seven stars: honors and knitted holding all seven honors.
pub open spec fn spec_is_seven_stars(c: Counts) -> bool {
    &&& spec_is_bu_kao(c)
    &&& forall|t: int| 27 <= t <= 33 ==> #[trigger] c@[t] == 1
}

pub fn is_seven_stars(c: &Counts) -> (r: bool)
    ensures
        r == spec_is_seven_stars(*c),
{
    if !is_bu_kao(c) {
        return false;
    }
    let mut t: usize = 27;
    while t <= 33
        invariant
            27 <= t <= 34,
            forall|u: int| 27 <= u < t ==> #[trigger] c@[u] == 1,
        decreases 34 - t,
    {
        if c[t] != 1 {
            return false;
        }
        t = t + 1;
    }
    true
}

} // verus!
