//! The small run-pair patterns (pure double chow, mixed double chow, short
//! straight, two terminal chows), counted by the rule that sets combine
//! only once: pairs are taken in order, and a pair counts only when it
//! joins runs not yet linked by earlier pairs (the runs of a straight, or
//! of a triple or quadruple chow, are linked from the start).
use vstd::prelude::*;
use crate::fans::facts::present;
use crate::fans::standard::opt;
use crate::fans::{f, mk, Fan, FanKind};
use crate::tiles::{num, suit};

verus! {

/// The pattern two runs (given by their lowest tiles) make, if any.
pub open spec fn pair_kind(a: usize, b: usize) -> Option<FanKind> {
    let sa = suit(a) as int;
    let na = num(a) as int;
    let sb = suit(b) as int;
    let nb = num(b) as int;
    if sa == sb && na == nb {
        Some(FanKind::YiBanGao)
    } else if sa != sb && na == nb {
        Some(FanKind::XiXiangFeng)
    } else if sa == sb && (na - nb == 3 || nb - na == 3) {
        Some(FanKind::LianLiu)
    } else if sa == sb && ((na == 1 && nb == 7) || (na == 7 && nb == 1)) {
        Some(FanKind::LaoShaoFu)
    } else {
        None
    }
}

pub open spec fn slot(k: FanKind) -> int {
    match k {
        FanKind::YiBanGao => 0,
        FanKind::XiXiangFeng => 1,
        FanKind::LianLiu => 2,
        _ => 3,
    }
}

fn pair_kind_exec(a: usize, b: usize) -> (r: Option<FanKind>)
    ensures
        r == pair_kind(a, b),
{
    let sa = suit(a);
    let na = num(a);
    let sb = suit(b);
    let nb = num(b);
    if sa == sb && na == nb {
        Some(FanKind::YiBanGao)
    } else if sa != sb && na == nb {
        Some(FanKind::XiXiangFeng)
    } else if sa == sb && ((na >= nb && na - nb == 3) || (nb >= na && nb - na == 3)) {
        Some(FanKind::LianLiu)
    } else if sa == sb && ((na == 1 && nb == 7) || (na == 7 && nb == 1)) {
        Some(FanKind::LaoShaoFu)
    } else {
        None
    }
}

/// Link labels and pattern counts.
pub type LinkState = (Seq<int>, Seq<int>);

pub open spec fn relabel(l: Seq<int>, from: int, to: int) -> Seq<int> {
    Seq::new(l.len(), |x: int| if l[x] == from { to } else { l[x] })
}

pub open spec fn link_step(runs: Seq<usize>, st: LinkState, i: int, j: int) -> LinkState {
    match pair_kind(runs[i], runs[j]) {
        Some(k) => if st.0[i] != st.0[j] {
            (relabel(st.0, st.0[j], st.0[i]), st.1.update(slot(k), st.1[slot(k)] + 1))
        } else {
            st
        },
        None => st,
    }
}

pub open spec fn link_inner(runs: Seq<usize>, st: LinkState, i: int, j: int) -> LinkState
    decreases runs.len() - j,
{
    if j >= runs.len() {
        st
    } else {
        link_inner(runs, link_step(runs, st, i, j), i, j + 1)
    }
}

pub open spec fn link_outer(runs: Seq<usize>, st: LinkState, i: int) -> LinkState
    decreases runs.len() - i,
{
    if i >= runs.len() {
        st
    } else {
        link_outer(runs, link_inner(runs, st, i, i + 1), i + 1)
    }
}

/// First index from `i` on of a run with suit `s` and rank `n` (the length
/// if none).
pub open spec fn find_run(v: Seq<usize>, s: int, n: int, i: int) -> int
    decreases v.len() - i,
{
    if i >= v.len() {
        v.len() as int
    } else if suit(v[i]) == s && num(v[i]) == n {
        i
    } else {
        find_run(v, s, n, i + 1)
    }
}

pub open spec fn has_pure(v: Seq<usize>, s: int) -> bool {
    present(v, s, 1) && present(v, s, 4) && present(v, s, 7)
}

pub open spec fn has_mixed(v: Seq<usize>, x: int, y: int, z: int) -> bool {
    present(v, 0, x) && present(v, 1, y) && present(v, 2, z)
}

pub open spec fn mixed_at(v: Seq<usize>, x: int, y: int, z: int) -> (int, int, int) {
    (find_run(v, 0, x, 0), find_run(v, 1, y, 0), find_run(v, 2, z, 0))
}

/// The runs of the first straight found: pure ones by suit, then mixed
/// ones in the order 147, 174, 417, 471, 714, 741 of ranks for the suits.
pub open spec fn straight_runs(v: Seq<usize>) -> Option<(int, int, int)> {
    if has_pure(v, 0) {
        Some((find_run(v, 0, 1, 0), find_run(v, 0, 4, 0), find_run(v, 0, 7, 0)))
    } else if has_pure(v, 1) {
        Some((find_run(v, 1, 1, 0), find_run(v, 1, 4, 0), find_run(v, 1, 7, 0)))
    } else if has_pure(v, 2) {
        Some((find_run(v, 2, 1, 0), find_run(v, 2, 4, 0), find_run(v, 2, 7, 0)))
    } else if has_mixed(v, 1, 4, 7) {
        Some(mixed_at(v, 1, 4, 7))
    } else if has_mixed(v, 1, 7, 4) {
        Some(mixed_at(v, 1, 7, 4))
    } else if has_mixed(v, 4, 1, 7) {
        Some(mixed_at(v, 4, 1, 7))
    } else if has_mixed(v, 4, 7, 1) {
        Some(mixed_at(v, 4, 7, 1))
    } else if has_mixed(v, 7, 1, 4) {
        Some(mixed_at(v, 7, 1, 4))
    } else if has_mixed(v, 7, 4, 1) {
        Some(mixed_at(v, 7, 4, 1))
    } else {
        None
    }
}

/// How many of the first `n` runs are `r`.
pub open spec fn run_count(v: Seq<usize>, r: usize, n: int) -> int
    decreases n,
{
    if n <= 0 {
        0
    } else {
        run_count(v, r, n - 1) + if v[n - 1] == r {
            1int
        } else {
            0int
        }
    }
}

/// The first index from `i` on of run `r` (the length if none).
pub open spec fn first_of(v: Seq<usize>, r: usize, i: int) -> int
    decreases v.len() - i,
{
    if i >= v.len() {
        v.len() as int
    } else if v[i] == r {
        i
    } else {
        first_of(v, r, i + 1)
    }
}

/// Every run its own link, except that the runs of a straight share one,
/// and, without a straight, so do three or four equal runs (a triple or
/// quadruple chow).
pub open spec fn initial_links(v: Seq<usize>) -> Seq<int> {
    match straight_runs(v) {
        Some(t) => Seq::new(v.len(), |x: int| if x == t.1 || x == t.2 { t.0 } else { x }),
        None => Seq::new(
            v.len(),
            |x: int|
                if run_count(v, v[x], v.len() as int) >= 3 {
                    first_of(v, v[x], 0)
                } else {
                    x
                },
        ),
    }
}

fn count_of(v: &Vec<usize>, r: usize) -> (c: usize)
    ensures
        c == run_count(v@, r, v@.len() as int),
{
    let mut c: usize = 0;
    let mut i: usize = 0;
    while i < v.len()
        invariant
            i <= v@.len(),
            c == run_count(v@, r, i as int),
            c <= i,
        decreases v@.len() - i,
    {
        if v[i] == r {
            c = c + 1;
        }
        i = i + 1;
    }
    c
}

fn first_of_exec(v: &Vec<usize>, r: usize) -> (k: usize)
    ensures
        k as int == first_of(v@, r, 0),
{
    let mut i: usize = 0;
    while i < v.len()
        invariant
            i <= v@.len(),
            first_of(v@, r, 0) == first_of(v@, r, i as int),
        decreases v@.len() - i,
    {
        if v[i] == r {
            return i;
        }
        i = i + 1;
    }
    i
}

/// The counts of the four patterns after linking all pairs in order.
pub open spec fn pair_counts(v: Seq<usize>) -> Seq<int> {
    link_outer(v, (initial_links(v), seq![0int, 0, 0, 0]), 0).1
}

pub open spec fn pair_fans(v: Seq<usize>) -> Seq<Fan> {
    let c = pair_counts(v);
    opt(c[0] > 0, mk(FanKind::YiBanGao, c[0] as u32)) + opt(
        c[1] > 0,
        mk(FanKind::XiXiangFeng, c[1] as u32),
    ) + opt(c[2] > 0, mk(FanKind::LianLiu, c[2] as u32)) + opt(
        c[3] > 0,
        mk(FanKind::LaoShaoFu, c[3] as u32),
    )
}

fn find_run_exec(v: &Vec<usize>, s: usize, n: usize) -> (r: usize)
    ensures
        r as int == find_run(v@, s as int, n as int, 0),
{
    let mut i: usize = 0;
    while i < v.len()
        invariant
            i <= v@.len(),
            find_run(v@, s as int, n as int, 0) == find_run(v@, s as int, n as int, i as int),
        decreases v@.len() - i,
    {
        if suit(v[i]) == s && num(v[i]) == n {
            return i;
        }
        i = i + 1;
    }
    i
}

fn has_run(v: &Vec<usize>, s: usize, n: usize) -> (r: bool)
    ensures
        r == present(v@, s as int, n as int),
{
    let mut i: usize = 0;
    while i < v.len()
        invariant
            i <= v@.len(),
            forall|j: int| 0 <= j < i ==> !(suit(#[trigger] v@[j]) == s && num(v@[j]) == n),
        decreases v@.len() - i,
    {
        if suit(v[i]) == s && num(v[i]) == n {
            assert(suit(v@[i as int]) == s && num(v@[i as int]) == n);
            return true;
        }
        i = i + 1;
    }
    false
}

fn mixed_exec(v: &Vec<usize>, x: usize, y: usize, z: usize) -> (r: Option<(usize, usize, usize)>)
    ensures
        r is Some <==> has_mixed(v@, x as int, y as int, z as int),
        r is Some ==> ((r->0).0 as int, (r->0).1 as int, (r->0).2 as int) == mixed_at(
            v@,
            x as int,
            y as int,
            z as int,
        ),
{
    if has_run(v, 0, x) && has_run(v, 1, y) && has_run(v, 2, z) {
        Some((find_run_exec(v, 0, x), find_run_exec(v, 1, y), find_run_exec(v, 2, z)))
    } else {
        None
    }
}

fn pure_exec(v: &Vec<usize>, s: usize) -> (r: Option<(usize, usize, usize)>)
    ensures
        r is Some <==> has_pure(v@, s as int),
        r is Some ==> ((r->0).0 as int, (r->0).1 as int, (r->0).2 as int) == (
            find_run(v@, s as int, 1, 0),
            find_run(v@, s as int, 4, 0),
            find_run(v@, s as int, 7, 0),
        ),
{
    if has_run(v, s, 1) && has_run(v, s, 4) && has_run(v, s, 7) {
        Some((find_run_exec(v, s, 1), find_run_exec(v, s, 4), find_run_exec(v, s, 7)))
    } else {
        None
    }
}

fn straight_exec(v: &Vec<usize>) -> (r: Option<(usize, usize, usize)>)
    ensures
        r is Some <==> straight_runs(v@) is Some,
        r is Some ==> ((r->0).0 as int, (r->0).1 as int, (r->0).2 as int) == straight_runs(v@)->0,
{
    let a = pure_exec(v, 0);
    if a.is_some() {
        return a;
    }
    let b = pure_exec(v, 1);
    if b.is_some() {
        return b;
    }
    let c = pure_exec(v, 2);
    if c.is_some() {
        return c;
    }
    let m1 = mixed_exec(v, 1, 4, 7);
    if m1.is_some() {
        return m1;
    }
    let m2 = mixed_exec(v, 1, 7, 4);
    if m2.is_some() {
        return m2;
    }
    let m3 = mixed_exec(v, 4, 1, 7);
    if m3.is_some() {
        return m3;
    }
    let m4 = mixed_exec(v, 4, 7, 1);
    if m4.is_some() {
        return m4;
    }
    let m5 = mixed_exec(v, 7, 1, 4);
    if m5.is_some() {
        return m5;
    }
    mixed_exec(v, 7, 4, 1)
}

pub open spec fn labels_match(labels: Seq<usize>, l: Seq<int>) -> bool {
    labels.len() == l.len() && forall|x: int| 0 <= x < l.len() ==> #[trigger] labels[x] as int == l[x]
}

fn relabel_exec(labels: &mut Vec<usize>, from: usize, to: usize)
    ensures
        labels_match(
            final(labels)@,
            relabel(old(labels)@.map_values(|x: usize| x as int), from as int, to as int),
        ),
{
    let ghost orig = labels@;
    let mut x: usize = 0;
    while x < labels.len()
        invariant
            x <= labels@.len(),
            labels@.len() == orig.len(),
            forall|y: int| 0 <= y < x ==> #[trigger] labels@[y] == if orig[y] == from { to } else { orig[y] },
            forall|y: int| x <= y < labels@.len() ==> #[trigger] labels@[y] == orig[y],
        decreases labels@.len() - x,
    {
        if labels[x] == from {
            labels.set(x, to);
        }
        x = x + 1;
    }
}

/// The run-pair patterns of the runs `runs`.
pub fn pair_part(runs: &Vec<usize>) -> (v: Vec<Fan>)
    requires
        runs@.len() <= 10000,
    ensures
        v@ == pair_fans(runs@),
        forall|i: int| 0 <= i < v@.len() ==> #[trigger] v@[i].value <= runs@.len() * runs@.len(),
{
    let n = runs.len();
    let ghost rv = runs@;
    let st = straight_exec(runs);
    let mut labels: Vec<usize> = Vec::new();
    let mut x: usize = 0;
    while x < n
        invariant
            x <= n,
            n == rv.len(),
            rv == runs@,
            st is Some <==> straight_runs(rv) is Some,
            st is Some ==> ((st->0).0 as int, (st->0).1 as int, (st->0).2 as int) == straight_runs(rv)->0,
            labels@.len() == x,
            forall|y: int| 0 <= y < x ==> #[trigger] labels@[y] as int == initial_links(rv)[y],
        decreases n - x,
    {
        let l = match st {
            Some((a, b, c)) => if x == b || x == c {
                a
            } else {
                x
            },
            None => if count_of(runs, runs[x]) >= 3 {
                first_of_exec(runs, runs[x])
            } else {
                x
            },
        };
        labels.push(l);
        x = x + 1;
    }
    let mut cnt: [u32; 4] = [0; 4];
    let ghost init: LinkState = (initial_links(rv), seq![0int, 0, 0, 0]);
    assert(cnt@.map_values(|y: u32| y as int) =~= init.1);
    assert(labels@.map_values(|y: usize| y as int) =~= init.0);
    let ghost fin = link_outer(rv, init, 0);
    let mut i: usize = 0;
    while i < n
        invariant
            i <= n,
            n == rv.len(),
            rv == runs@,
            n <= 10000,
            labels@.len() == n,
            fin == link_outer(rv, (labels@.map_values(|y: usize| y as int), cnt@.map_values(|y: u32| y as int)), i as int),
            forall|k: int| 0 <= k < 4 ==> #[trigger] cnt@[k] <= i * n,
        decreases n - i,
    {
        let mut j: usize = i + 1;
        while j < n
            invariant
                i < n,
                i + 1 <= j <= n,
                n == rv.len(),
                rv == runs@,
                n <= 10000,
                labels@.len() == n,
                fin == link_outer(rv, link_inner(rv, (labels@.map_values(|y: usize| y as int), cnt@.map_values(|y: u32| y as int)), i as int, j as int), i + 1),
                forall|k: int| 0 <= k < 4 ==> #[trigger] cnt@[k] <= i * n + j,
            decreases n - j,
        {
            let ghost pre: LinkState = (labels@.map_values(|y: usize| y as int), cnt@.map_values(|y: u32| y as int));
            let kind = pair_kind_exec(runs[i], runs[j]);
            if let Some(k) = kind {
                if labels[i] != labels[j] {
                    let from = labels[j];
                    let to = labels[i];
                    relabel_exec(&mut labels, from, to);
                    let sl: usize = match k {
                        FanKind::YiBanGao => 0,
                        FanKind::XiXiangFeng => 1,
                        FanKind::LianLiu => 2,
                        _ => 3,
                    };
                    assert(sl as int == slot(k));
                    assert(cnt@[sl as int] <= i * n + j);
                    assert(i * n + j < 100020000) by (nonlinear_arith)
                        requires i < n, j <= n, n <= 10000;
                    cnt[sl] = cnt[sl] + 1;
                }
            }
            assert((labels@.map_values(|y: usize| y as int), cnt@.map_values(|y: u32| y as int)) =~~= link_step(rv, pre, i as int, j as int));
            j = j + 1;
        }
        assert(i * n + n == (i + 1) * n) by (nonlinear_arith);
        i = i + 1;
    }
    let ghost c = cnt@.map_values(|y: u32| y as int);
    assert(c == pair_counts(rv));
    let mut v: Vec<Fan> = Vec::new();
    if cnt[0] > 0 {
        v.push(f(FanKind::YiBanGao, cnt[0]));
    }
    if cnt[1] > 0 {
        v.push(f(FanKind::XiXiangFeng, cnt[1]));
    }
    if cnt[2] > 0 {
        v.push(f(FanKind::LianLiu, cnt[2]));
    }
    if cnt[3] > 0 {
        v.push(f(FanKind::LaoShaoFu, cnt[3]));
    }
    assert(v@ =~= pair_fans(rv));
    v
}

} // verus!
