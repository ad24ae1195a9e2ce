//! The standard-shape search misses no shape: every choice of sets (each a
//! triplet of a tile the filter passes, or a run of one suit whose tiles it
//! passes, where runs are allowed) and of a pair is among the targets it
//! weighs, so what it finds covers at least as much as any of them.
use vstd::prelude::*;
use crate::model::Meld;
use crate::plan::scan::{entry, run_of, search_result, Family, Search};
use crate::plan::search::{
    add_set, add_sets, chosen, dfs, five_gates_ok, forced_excluded, forced_upto, keys_down_to,
    leaf_targets, lemma_add_set, lemma_best_forced_optimal, lemma_forced_upto,
    lemma_sorted_opts_ok, meld_blocked, opt_key, opts_upto, pair_cands, room, sets_ok,
    sorted_opts, spec_best_forced, spec_opts, tiles_passing, with_key, with_pair, zeros,
};
use crate::plan::target::spec_cover;
use crate::plan::{filter_ok, Filter};

verus! {

/// A set the search may take under filter `f`: three of a tile the filter
/// passes, or (where runs are allowed) a run of three ranks of one suit
/// whose tiles the filter passes.
pub open spec fn set_allowed(f: Filter, runs: bool, g: Seq<usize>) -> bool {
    &&& g.len() == 3
    &&& {
        ||| (g[0] < 34 && g[1] == g[0] && g[2] == g[0] && filter_ok(f, g[0]))
        ||| (runs && g[0] < 27 && g[0] % 9 <= 6 && g[1] == g[0] + 1 && g[2] == g[0] + 2 && filter_ok(
            f,
            g[0],
        ) && filter_ok(f, g[1]) && filter_ok(f, g[2]))
    }
}

/// How many of the three tiles of `s` are `x`.
pub open spec fn occ(s: Seq<usize>, x: int) -> int {
    (if s[0] as int == x {
        1int
    } else {
        0int
    }) + (if s[1] as int == x {
        1int
    } else {
        0int
    }) + if s[2] as int == x {
        1int
    } else {
        0int
    }
}

/// How many tiles `x` the sets `ss` hold.
pub open spec fn sets_occ(ss: Seq<Seq<usize>>, x: int) -> int
    decreases ss.len(),
{
    if ss.len() == 0 {
        0
    } else {
        occ(ss[0], x) + sets_occ(ss.drop_first(), x)
    }
}

proof fn lemma_seq_in<A>(s: Seq<A>, t: Seq<A>, d: A)
    ensures
        s.contains(d) ==> (s + t).contains(d),
        t.contains(d) ==> (s + t).contains(d),
{
    if s.contains(d) {
        let j = choose|j: int| 0 <= j < s.len() && s[j] == d;
        assert((s + t)[j] == d);
    }
    if t.contains(d) {
        let j = choose|j: int| 0 <= j < t.len() && t[j] == d;
        assert((s + t)[s.len() + j] == d);
    }
}

proof fn lemma_add_set_counts(c: Seq<u8>, s: Seq<usize>, left: int)
    requires
        room(c, left),
        left >= 1,
        s.len() == 3,
        s[0] < 34,
        s[1] < 34,
        s[2] < 34,
    ensures
        add_set(c, s).len() == 34,
        forall|x: int| 0 <= x < 34 ==> #[trigger] add_set(c, s)[x] == c[x] + occ(s, x),
{
}

proof fn lemma_add_sets_counts(c: Seq<u8>, ss: Seq<Seq<usize>>)
    requires
        room(c, ss.len() as int),
        sets_ok(ss),
    ensures
        add_sets(c, ss).len() == 34,
        forall|x: int| 0 <= x < 34 ==> #[trigger] add_sets(c, ss)[x] == c[x] + sets_occ(ss, x),
    decreases ss.len(),
{
    if ss.len() > 0 {
        let s = ss[0];
        assert(s.len() == 3 && s[0] < 34 && s[1] < 34 && s[2] < 34);
        lemma_add_set_counts(c, s, ss.len() as int);
        lemma_add_set(c, c, s, ss.len() as int);
        let rest = ss.drop_first();
        assert(sets_ok(rest)) by {
            assert forall|k: int| 0 <= k < rest.len() implies (#[trigger] rest[k]).len() == 3 && rest[k][0]
                < 34 && rest[k][1] < 34 && rest[k][2] < 34 by {
                assert(rest[k] == ss[k + 1]);
            }
        }
        lemma_add_sets_counts(add_set(c, s), rest);
    }
}

proof fn lemma_occ_remove(ss: Seq<Seq<usize>>, k: int, x: int)
    requires
        0 <= k < ss.len(),
    ensures
        sets_occ(ss, x) == occ(ss[k], x) + sets_occ(ss.remove(k), x),
    decreases k,
{
    if k == 0 {
        assert(ss.remove(0) =~= ss.drop_first());
    } else {
        let d = ss.drop_first();
        lemma_occ_remove(d, k - 1, x);
        assert(ss.remove(k).drop_first() =~= d.remove(k - 1));
        assert(ss.remove(k)[0] == ss[0]);
        assert(d[k - 1] == ss[k]);
    }
}

proof fn lemma_leaf_has(cur: Seq<u8>, cs: Seq<usize>, five: bool, ms: Seq<Meld>, p: usize)
    requires
        cs.contains(p),
        five ==> five_gates_ok(with_pair(cur, p), ms),
    ensures
        leaf_targets(cur, cs, five, ms).contains(with_pair(cur, p)),
    decreases cs.len(),
{
    let w = cs.drop_last();
    let t = with_pair(cur, cs.last());
    let b = if !five || five_gates_ok(t, ms) {
        seq![t]
    } else {
        Seq::empty()
    };
    assert(leaf_targets(cur, cs, five, ms) == leaf_targets(cur, w, five, ms) + b);
    if cs.last() == p {
        assert(b[0] == with_pair(cur, p));
        lemma_seq_in(leaf_targets(cur, w, five, ms), b, with_pair(cur, p));
    } else {
        let j = choose|j: int| 0 <= j < cs.len() && cs[j] == p;
        assert(j != cs.len() - 1);
        assert(w[j] == p);
        lemma_leaf_has(cur, w, five, ms, p);
        lemma_seq_in(leaf_targets(cur, w, five, ms), b, with_pair(cur, p));
    }
}

/// Every choice of `left` options at indices from `i` on (in any order) and
/// of a pair candidate is among the targets of the search from `cur`.
proof fn lemma_dfs_has(
    opts: Seq<Seq<usize>>,
    i: int,
    left: nat,
    cur: Seq<u8>,
    cs: Seq<usize>,
    five: bool,
    ms: Seq<Meld>,
    ix: Seq<int>,
    p: usize,
)
    requires
        0 <= i,
        sets_ok(opts),
        room(cur, left as int),
        ix.len() == left,
        forall|k: int| 0 <= k < ix.len() ==> i <= #[trigger] ix[k] < opts.len(),
        cs.contains(p),
        five ==> five_gates_ok(with_pair(add_sets(cur, chosen(opts, ix)), p), ms),
    ensures
        dfs(opts, i, left, cur, cs, five, ms).contains(with_pair(add_sets(cur, chosen(opts, ix)), p)),
    decreases left, opts.len() - i,
{
    let tt = with_pair(add_sets(cur, chosen(opts, ix)), p);
    if left == 0 {
        assert(chosen(opts, ix) =~= Seq::<Seq<usize>>::empty());
        assert(add_sets(cur, chosen(opts, ix)) == cur);
        lemma_leaf_has(cur, cs, five, ms, p);
    } else {
        assert(i <= ix[0] < opts.len());
        let nxt = add_set(cur, opts[i]);
        let a = dfs(opts, i, (left - 1) as nat, nxt, cs, five, ms);
        let b = dfs(opts, i + 1, left, cur, cs, five, ms);
        assert(dfs(opts, i, left, cur, cs, five, ms) == a + b);
        if exists|k: int| 0 <= k < ix.len() && ix[k] == i {
            let k = choose|k: int| 0 <= k < ix.len() && ix[k] == i;
            let ix2 = ix.remove(k);
            let ss = chosen(opts, ix);
            let ss2 = chosen(opts, ix2);
            assert(ss2 =~= ss.remove(k));
            assert(ss[k] == opts[i]);
            assert(sets_ok(ss)) by {
                assert forall|q: int| 0 <= q < ss.len() implies (#[trigger] ss[q]).len() == 3 && ss[q][0]
                    < 34 && ss[q][1] < 34 && ss[q][2] < 34 by {
                    assert(ss[q] == opts[ix[q]]);
                }
            }
            assert(sets_ok(ss2)) by {
                assert forall|q: int| 0 <= q < ss2.len() implies (#[trigger] ss2[q]).len() == 3 && ss2[q][0]
                    < 34 && ss2[q][1] < 34 && ss2[q][2] < 34 by {
                    assert(ss2[q] == opts[ix2[q]]);
                    assert(ix2[q] == if q < k {
                        ix[q]
                    } else {
                        ix[q + 1]
                    });
                }
            }
            assert(opts[i].len() == 3 && opts[i][0] < 34 && opts[i][1] < 34 && opts[i][2] < 34);
            lemma_add_set(cur, cur, opts[i], left as int);
            lemma_add_set_counts(cur, opts[i], left as int);
            lemma_add_sets_counts(cur, ss);
            lemma_add_sets_counts(nxt, ss2);
            assert forall|x: int| 0 <= x < 34 implies sets_occ(ss, x) == occ(opts[i], x) + sets_occ(ss2, x) by {
                lemma_occ_remove(ss, k, x);
            }
            assert(add_sets(nxt, ss2) =~= add_sets(cur, ss));
            assert forall|q: int| 0 <= q < ix2.len() implies i <= #[trigger] ix2[q] < opts.len() by {
                assert(ix2[q] == if q < k {
                    ix[q]
                } else {
                    ix[q + 1]
                });
            }
            lemma_dfs_has(opts, i, (left - 1) as nat, nxt, cs, five, ms, ix2, p);
            lemma_seq_in(a, b, tt);
        } else {
            assert forall|k: int| 0 <= k < ix.len() implies i + 1 <= #[trigger] ix[k] < opts.len() by {
                assert(ix[k] != i);
            }
            lemma_dfs_has(opts, i + 1, left, cur, cs, five, ms, ix, p);
            lemma_seq_in(a, b, tt);
        }
    }
}

proof fn lemma_opts_has(f: Filter, runs: bool, g: Seq<usize>, n: int)
    requires
        set_allowed(f, runs, g),
        g[0] < n <= 34,
    ensures
        opts_upto(f, runs, n).contains(g),
    decreases n,
{
    let t = (n - 1) as usize;
    let tr = if filter_ok(f, t) {
        seq![seq![t, t, t]]
    } else {
        Seq::empty()
    };
    let rn = if runs && crate::tiles::is_suited(t) && crate::tiles::num(t) <= 7 && filter_ok(
        f,
        (t + 1) as usize,
    ) && filter_ok(f, (t + 2) as usize) {
        seq![seq![t, (t + 1) as usize, (t + 2) as usize]]
    } else {
        Seq::empty()
    };
    let pre = opts_upto(f, runs, n - 1);
    assert(opts_upto(f, runs, n) == pre + tr + rn);
    if g[0] == n - 1 {
        if g[0] < 34 && g[1] == g[0] && g[2] == g[0] && filter_ok(f, g[0]) {
            assert(g =~= seq![t, t, t]);
            assert(tr[0] == g);
            lemma_seq_in(pre, tr, g);
            lemma_seq_in(pre + tr, rn, g);
        } else {
            assert(g =~= seq![t, (t + 1) as usize, (t + 2) as usize]);
            assert(rn[0] == g);
            lemma_seq_in(pre + tr, rn, g);
        }
    } else {
        lemma_opts_has(f, runs, g, n - 1);
        lemma_seq_in(pre, tr, g);
        lemma_seq_in(pre + tr, rn, g);
    }
}

proof fn lemma_with_key_has(h: Seq<u8>, os: Seq<Seq<usize>>, v: int, n: int, j: int)
    requires
        0 <= j < n <= os.len(),
        opt_key(h, os[j]) == v,
    ensures
        with_key(h, os, v, n).contains(os[j]),
    decreases n,
{
    let b = if opt_key(h, os[n - 1]) == v {
        seq![os[n - 1]]
    } else {
        Seq::empty()
    };
    if j == n - 1 {
        assert(b[0] == os[j]);
        lemma_seq_in(with_key(h, os, v, n - 1), b, os[j]);
    } else {
        lemma_with_key_has(h, os, v, n - 1, j);
        lemma_seq_in(with_key(h, os, v, n - 1), b, os[j]);
    }
}

proof fn lemma_keys_has(h: Seq<u8>, os: Seq<Seq<usize>>, v: int, j: int)
    requires
        0 <= j < os.len(),
        0 <= v <= opt_key(h, os[j]) <= 765,
    ensures
        keys_down_to(h, os, v).contains(os[j]),
    decreases 766 - v,
{
    let w = with_key(h, os, v, os.len() as int);
    if opt_key(h, os[j]) == v {
        lemma_with_key_has(h, os, v, os.len() as int, j);
        lemma_seq_in(keys_down_to(h, os, v + 1), w, os[j]);
    } else {
        lemma_keys_has(h, os, v + 1, j);
        lemma_seq_in(keys_down_to(h, os, v + 1), w, os[j]);
    }
}

/// Every set the filter allows is among the search's sorted candidates.
proof fn lemma_sorted_has(h: Seq<u8>, f: Filter, runs: bool, g: Seq<usize>)
    requires
        h.len() == 34,
        set_allowed(f, runs, g),
    ensures
        sorted_opts(h, spec_opts(f, runs)).contains(g),
{
    let os = spec_opts(f, runs);
    lemma_opts_has(f, runs, g, 34);
    let j = choose|j: int| 0 <= j < os.len() && os[j] == g;
    assert(g[0] < 34 && g[1] < 34 && g[2] < 34);
    lemma_keys_has(h, os, 0, j);
}

proof fn lemma_passing_has(f: Filter, p: usize, n: int)
    requires
        p < n <= 34,
        filter_ok(f, p),
    ensures
        tiles_passing(f, n).contains(p),
    decreases n,
{
    let b = if filter_ok(f, (n - 1) as usize) {
        seq![(n - 1) as usize]
    } else {
        Seq::empty()
    };
    if p == n - 1 {
        assert(b[0] == p);
        lemma_seq_in(tiles_passing(f, n - 1), b, p);
    } else {
        lemma_passing_has(f, p, n - 1);
        lemma_seq_in(tiles_passing(f, n - 1), b, p);
    }
}

/// Whether `p` may be the pair: the pair asked for, or a tile the filter
/// passes.
pub open spec fn pair_allowed(f: Filter, pair: Option<usize>, p: usize) -> bool {
    match pair {
        Some(q) => p == q,
        None => p < 34 && filter_ok(f, p),
    }
}

/// Whatever the forced sets, the pattern's search covers at least as much
/// as the forced sets with any allowed sets still missing and any allowed
/// pair (with the five kinds, when asked for); and it finds a target.
pub proof fn lemma_best_forced_complete(
    h: Seq<u8>,
    ms: Seq<Meld>,
    f: Filter,
    runs: bool,
    five: bool,
    forced: Seq<Seq<usize>>,
    pair: Option<usize>,
    ss: Seq<Seq<usize>>,
    p: usize,
)
    requires
        h.len() == 34,
        !forced_excluded(ms, f, runs, forced, pair),
        ss.len() == 4 - ms.len() - forced.len(),
        forall|k: int| 0 <= k < ss.len() ==> set_allowed(f, runs, #[trigger] ss[k]),
        pair_allowed(f, pair, p),
        five ==> five_gates_ok(with_pair(add_sets(forced_upto(forced, forced.len() as int), ss), p), ms),
    ensures
        spec_best_forced(h, ms, f, runs, five, forced, pair) matches Some(b) && spec_cover(
            h,
            with_pair(add_sets(forced_upto(forced, forced.len() as int), ss), p),
        ) <= b.0,
{
    let os = sorted_opts(h, spec_opts(f, runs));
    lemma_sorted_opts_ok(h, f, runs);
    let left = (4 - ms.len() - forced.len()) as nat;
    let cur = forced_upto(forced, forced.len() as int);
    let cs = pair_cands(f, pair);
    lemma_forced_upto(forced, forced.len() as int);
    assert(room(cur, left as int)) by {
        assert forall|x: int| 0 <= x < 34 implies #[trigger] cur[x] + 3 * left <= 12 by {
            assert(cur[x] + 3 * (4 - forced.len()) <= 12);
        }
    }
    assert forall|k: int| 0 <= k < ss.len() implies os.contains(#[trigger] ss[k]) by {
        lemma_sorted_has(h, f, runs, ss[k]);
    }
    let ix = Seq::new(ss.len(), |k: int| choose|j: int| 0 <= j < os.len() && os[j] == ss[k]);
    assert forall|k: int| 0 <= k < ix.len() implies 0 <= #[trigger] ix[k] < os.len() && os[ix[k]]
        == ss[k] by {
        assert(os.contains(ss[k]));
    }
    assert(chosen(os, ix) =~= ss);
    match pair {
        Some(q) => {
            assert(cs[0] == p);
        },
        None => {
            lemma_passing_has(f, p, 34);
        },
    }
    lemma_dfs_has(os, 0, left, cur, cs, five, ms, ix, p);
    lemma_best_forced_optimal(h, ms, f, runs, five, forced, pair);
    let ts = dfs(os, 0, left, cur, cs, five, ms);
    let j = choose|j: int| 0 <= j < ts.len() && ts[j] == with_pair(add_sets(cur, ss), p);
}

/// The best standard shape under a filter covers at least as much of the
/// hand as any shape of allowed sets (four less one per meld) and an
/// allowed pair, when no meld rules the filter out.
pub proof fn lemma_best_standard_complete(
    h: Seq<u8>,
    ms: Seq<Meld>,
    f: Filter,
    runs: bool,
    five: bool,
    ss: Seq<Seq<usize>>,
    p: usize,
)
    requires
        h.len() == 34,
        ms.len() <= 4,
        forall|i: int| 0 <= i < ms.len() ==> !meld_blocked(#[trigger] ms[i], f, runs),
        ss.len() == 4 - ms.len(),
        forall|k: int| 0 <= k < ss.len() ==> set_allowed(f, runs, #[trigger] ss[k]),
        p < 34,
        filter_ok(f, p),
        five ==> five_gates_ok(with_pair(add_sets(zeros(), ss), p), ms),
    ensures
        spec_best_forced(h, ms, f, runs, five, Seq::empty(), None) matches Some(b) && spec_cover(
            h,
            with_pair(add_sets(zeros(), ss), p),
        ) <= b.0,
{
    let e: Seq<Seq<usize>> = Seq::empty();
    assert(forced_upto(e, 0) == zeros());
    assert(sets_ok(e));
    lemma_best_forced_complete(h, ms, f, runs, five, e, None, ss, p);
}

/// With three forced sets of any tiles, the search covers at least as much
/// as those sets with any further allowed set and any pair.
proof fn lemma_three_forced(h: Seq<u8>, ms: Seq<Meld>, fs: Seq<Seq<usize>>, ss: Seq<Seq<usize>>, p: usize)
    requires
        h.len() == 34,
        fs.len() == 3,
        sets_ok(fs),
        ms.len() <= 1,
        ss.len() == 1 - ms.len(),
        forall|k: int| 0 <= k < ss.len() ==> set_allowed(Filter::Any, true, #[trigger] ss[k]),
        p < 34,
    ensures
        spec_best_forced(h, ms, Filter::Any, true, false, fs, None) matches Some(b) && spec_cover(
            h,
            with_pair(add_sets(zeros(), fs + ss), p),
        ) <= b.0,
{
    assert forall|i: int| 0 <= i < ms.len() implies !meld_blocked(#[trigger] ms[i], Filter::Any, true) by {}
    assert(!forced_excluded(ms, Filter::Any, true, fs, None));
    let c1 = add_set(zeros(), fs[0]);
    let c2 = add_set(c1, fs[1]);
    let c3 = add_set(c2, fs[2]);
    assert(forced_upto(fs, 0) == zeros());
    assert(forced_upto(fs, 1) == c1);
    assert(forced_upto(fs, 2) == c2);
    assert(forced_upto(fs, 3) == c3);
    let all = fs + ss;
    let d1 = all.drop_first();
    let d2 = d1.drop_first();
    let d3 = d2.drop_first();
    assert(all[0] == fs[0]);
    assert(d1 =~= seq![fs[1], fs[2]] + ss);
    assert(d1[0] == fs[1]);
    assert(d2 =~= seq![fs[2]] + ss);
    assert(d2[0] == fs[2]);
    assert(d3 =~= ss);
    assert(add_sets(c2, d2) == add_sets(c3, d3));
    assert(add_sets(c1, d1) == add_sets(c2, d2));
    assert(add_sets(zeros(), all) == add_sets(c1, d1));
    lemma_best_forced_complete(h, ms, Filter::Any, true, false, fs, None, ss, p);
}

/// The run of ranks `n`, `n + 1`, `n + 2` of suit `s`.
pub open spec fn ranks(s: int, n: int) -> Seq<usize> {
    seq![(s * 9 + n - 1) as usize, (s * 9 + n) as usize, (s * 9 + n + 1) as usize]
}

/// The pure straight of suit `j`, with the melds (at most one): its search
/// covers at least as much as the runs 123, 456 and 789 of that suit with
/// any further set and any pair; so a hand holding them and a set-and-pair
/// shape is at distance 0.
pub proof fn lemma_pure_straight_complete(
    h: Seq<u8>,
    ms: Seq<Meld>,
    j: int,
    ss: Seq<Seq<usize>>,
    p: usize,
)
    requires
        h.len() == 34,
        0 <= j < 3,
        ms.len() <= 1,
        ss.len() == 1 - ms.len(),
        forall|k: int| 0 <= k < ss.len() ==> set_allowed(Filter::Any, true, #[trigger] ss[k]),
        p < 34,
    ensures
        ({
            let straight = seq![
                seq![(j * 9) as usize, (j * 9 + 1) as usize, (j * 9 + 2) as usize],
                seq![(j * 9 + 3) as usize, (j * 9 + 4) as usize, (j * 9 + 5) as usize],
                seq![(j * 9 + 6) as usize, (j * 9 + 7) as usize, (j * 9 + 8) as usize],
            ];
            search_result(h, ms, entry(Family::PureStraight, j).search) matches Some(b)
                && spec_cover(h, with_pair(add_sets(zeros(), straight + ss), p)) <= b.0
        }),
{
    reveal(entry);
    let fs = seq![run_of(j, 1), run_of(j, 4), run_of(j, 7)];
    assert(entry(Family::PureStraight, j).search == Search::Forced(fs, None));
    let straight = seq![
        seq![(j * 9) as usize, (j * 9 + 1) as usize, (j * 9 + 2) as usize],
        seq![(j * 9 + 3) as usize, (j * 9 + 4) as usize, (j * 9 + 5) as usize],
        seq![(j * 9 + 6) as usize, (j * 9 + 7) as usize, (j * 9 + 8) as usize],
    ];
    assert(fs =~= straight);
    assert(sets_ok(fs));
    lemma_three_forced(h, ms, fs, ss, p);
}

/// The mixed straight for column choice `j`: its search covers at least as
/// much as 123 of the first suit of the choice, 456 of the second and 789
/// of the third, with any further set and any pair.
pub proof fn lemma_mixed_straight_complete(
    h: Seq<u8>,
    ms: Seq<Meld>,
    j: int,
    ss: Seq<Seq<usize>>,
    p: usize,
)
    requires
        h.len() == 34,
        0 <= j < 6,
        ms.len() <= 1,
        ss.len() == 1 - ms.len(),
        forall|k: int| 0 <= k < ss.len() ==> set_allowed(Filter::Any, true, #[trigger] ss[k]),
        p < 34,
    ensures
        ({
            let q = crate::decompose::spec_perm(j);
            let straight = seq![ranks(q[0], 1), ranks(q[1], 4), ranks(q[2], 7)];
            search_result(h, ms, entry(Family::MixedStraight, j).search) matches Some(b)
                && spec_cover(h, with_pair(add_sets(zeros(), straight + ss), p)) <= b.0
        }),
{
    reveal(entry);
    let q = crate::decompose::spec_perm(j);
    let fs = seq![run_of(q[0], 1), run_of(q[1], 4), run_of(q[2], 7)];
    assert(entry(Family::MixedStraight, j).search == Search::Forced(fs, None));
    let straight = seq![ranks(q[0], 1), ranks(q[1], 4), ranks(q[2], 7)];
    assert(0 <= q[0] < 3 && 0 <= q[1] < 3 && 0 <= q[2] < 3);
    assert(fs[0] =~= straight[0]);
    assert(fs[1] =~= straight[1]);
    assert(fs[2] =~= straight[2]);
    assert(fs =~= straight);
    assert(sets_ok(fs));
    lemma_three_forced(h, ms, fs, ss, p);
}

/// The full flush of suit `s`: its search covers at least as much as any
/// four sets and pair of that suit alone (less a set per meld), when every
/// meld is of that suit.
pub proof fn lemma_full_flush_complete(
    h: Seq<u8>,
    ms: Seq<Meld>,
    s: int,
    ss: Seq<Seq<usize>>,
    p: usize,
)
    requires
        h.len() == 34,
        0 <= s < 3,
        ms.len() <= 4,
        forall|i: int| 0 <= i < ms.len() ==> !meld_blocked(#[trigger] ms[i], Filter::Suit(s as usize), true),
        ss.len() == 4 - ms.len(),
        forall|k: int| 0 <= k < ss.len() ==> set_allowed(Filter::Suit(s as usize), true, #[trigger] ss[k]),
        p < 34,
        filter_ok(Filter::Suit(s as usize), p),
    ensures
        search_result(h, ms, entry(Family::Flush, 2 * s).search) matches Some(b) && spec_cover(
            h,
            with_pair(add_sets(zeros(), ss), p),
        ) <= b.0,
{
    reveal(entry);
    assert((2 * s) / 2 == s && (2 * s) % 2 == 0);
    assert(entry(Family::Flush, 2 * s).search == Search::Standard(Filter::Suit(s as usize), true, false));
    lemma_best_standard_complete(h, ms, Filter::Suit(s as usize), true, false, ss, p);
}

/// The half flush of suit `s`: its search covers at least as much as any
/// four sets and pair of that suit and honors (less a set per meld), when
/// every meld is of that suit or of honors.
pub proof fn lemma_half_flush_complete(
    h: Seq<u8>,
    ms: Seq<Meld>,
    s: int,
    ss: Seq<Seq<usize>>,
    p: usize,
)
    requires
        h.len() == 34,
        0 <= s < 3,
        ms.len() <= 4,
        forall|i: int| 0 <= i < ms.len() ==> !meld_blocked(#[trigger] ms[i], Filter::Mixed(s as usize), true),
        ss.len() == 4 - ms.len(),
        forall|k: int| 0 <= k < ss.len() ==> set_allowed(Filter::Mixed(s as usize), true, #[trigger] ss[k]),
        p < 34,
        filter_ok(Filter::Mixed(s as usize), p),
    ensures
        search_result(h, ms, entry(Family::Flush, 2 * s + 1).search) matches Some(b) && spec_cover(
            h,
            with_pair(add_sets(zeros(), ss), p),
        ) <= b.0,
{
    reveal(entry);
    assert((2 * s + 1) / 2 == s && (2 * s + 1) % 2 == 1);
    assert(entry(Family::Flush, 2 * s + 1).search == Search::Standard(Filter::Mixed(s as usize), true, false));
    lemma_best_standard_complete(h, ms, Filter::Mixed(s as usize), true, false, ss, p);
}

} // verus!
