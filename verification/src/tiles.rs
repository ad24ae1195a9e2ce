//! Tile encoding (34 kinds).
//!
//! 0..8 characters 1-9, 9..17 bamboo 1-9, 18..26 dots 1-9,
//! 27 east, 28 south, 29 west, 30 north, 31 red, 32 green, 33 white.
use vstd::prelude::*;
use vstd::string::StrSliceExecFns;
use vstd::string::StringExecFns;

verus! {

pub const NUM_TILES: usize = 34;

/// Number of copies held of each of the 34 tile kinds.
pub type Counts = [u8; NUM_TILES];

/// A list of tile indices.
pub type Tiles = Vec<usize>;

/// Sum of a sequence of counts.
pub open spec fn seq_sum(s: Seq<u8>) -> int
    decreases s.len(),
{
    if s.len() == 0 {
        0
    } else {
        seq_sum(s.drop_last()) + s.last()
    }
}

/// The empty hand: no tile held.
pub fn counts() -> (c: Counts)
    ensures
        forall|i: int| 0 <= i < 34 ==> c[i] == 0,
        c@.len() == 34,
{
    let c: Counts = [0u8; NUM_TILES];
    assert(c@.len() == 34);
    c
}

/// Suit of a tile: 0, 1, 2 for the suited tiles, 3 for honors.
#[verifier::allow_in_spec]
pub fn suit(t: usize) -> usize
    returns
        (if t < 27 { t / 9 } else { 3 }),
{
    if t < 27 {
        t / 9
    } else {
        3
    }
}

/// Rank 1..9 of a suited tile; 0 for an honor.
#[verifier::allow_in_spec]
pub fn num(t: usize) -> usize
    returns
        (if t < 27 { (t % 9 + 1) as usize } else { 0 }),
{
    if t < 27 {
        t % 9 + 1
    } else {
        0
    }
}

#[verifier::allow_in_spec]
pub fn is_suited(t: usize) -> bool
    returns
        t < 27,
{
    t < 27
}

#[verifier::allow_in_spec]
pub fn is_honor(t: usize) -> bool
    returns
        t >= 27,
{
    t >= 27
}

/// East, south, west or north.
#[verifier::allow_in_spec]
pub fn is_wind(t: usize) -> bool
    returns
        27 <= t <= 30,
{
    27 <= t && t <= 30
}

/// Red, green or white dragon.
#[verifier::allow_in_spec]
pub fn is_dragon(t: usize) -> bool
    returns
        31 <= t <= 33,
{
    31 <= t && t <= 33
}

/// A suited 1 or 9.
#[verifier::allow_in_spec]
pub fn is_terminal(t: usize) -> bool
    returns
        t < 27 && (t % 9 == 0 || t % 9 == 8),
{
    t < 27 && (num(t) == 1 || num(t) == 9)
}

/// A suited 1 or 9, or any honor.
#[verifier::allow_in_spec]
pub fn is_terminal_or_honor(t: usize) -> bool
    returns
        t >= 27 || (t % 9 == 0 || t % 9 == 8),
{
    t >= 27 || is_terminal(t)
}

/// Name of a rank digit 1..9.
pub open spec fn digit_name(n: int) -> Seq<char> {
    if n == 1 {
        "1"@
    } else if n == 2 {
        "2"@
    } else if n == 3 {
        "3"@
    } else if n == 4 {
        "4"@
    } else if n == 5 {
        "5"@
    } else if n == 6 {
        "6"@
    } else if n == 7 {
        "7"@
    } else if n == 8 {
        "8"@
    } else {
        "9"@
    }
}

/// Name of a suit 0..2.
pub open spec fn suit_name(s: int) -> Seq<char> {
    if s == 0 {
        "万"@
    } else if s == 1 {
        "条"@
    } else {
        "筒"@
    }
}

/// Name of an honor tile, `h` counted from east.
pub open spec fn honor_name(h: int) -> Seq<char> {
    if h == 0 {
        "东"@
    } else if h == 1 {
        "南"@
    } else if h == 2 {
        "西"@
    } else if h == 3 {
        "北"@
    } else if h == 4 {
        "中"@
    } else if h == 5 {
        "发"@
    } else {
        "白"@
    }
}

/// Display name of a tile: rank then suit (`5万`), or the honor's name.
pub open spec fn spec_tile_name(t: int) -> Seq<char> {
    if t < 27 {
        digit_name(t % 9 + 1) + suit_name(t / 9)
    } else {
        honor_name(t - 27)
    }
}

fn digit_str(n: usize) -> (r: &'static str)
    requires
        1 <= n <= 9,
    ensures
        r@ == digit_name(n as int),
{
    if n == 1 {
        "1"
    } else if n == 2 {
        "2"
    } else if n == 3 {
        "3"
    } else if n == 4 {
        "4"
    } else if n == 5 {
        "5"
    } else if n == 6 {
        "6"
    } else if n == 7 {
        "7"
    } else if n == 8 {
        "8"
    } else {
        "9"
    }
}

pub fn suit_str(s: usize) -> (r: &'static str)
    requires
        s < 3,
    ensures
        r@ == suit_name(s as int),
{
    if s == 0 {
        "万"
    } else if s == 1 {
        "条"
    } else {
        "筒"
    }
}

fn honor_str(h: usize) -> (r: &'static str)
    requires
        h < 7,
    ensures
        r@ == honor_name(h as int),
{
    if h == 0 {
        "东"
    } else if h == 1 {
        "南"
    } else if h == 2 {
        "西"
    } else if h == 3 {
        "北"
    } else if h == 4 {
        "中"
    } else if h == 5 {
        "发"
    } else {
        "白"
    }
}

/// Display name of tile `t`.
pub fn tile_name(t: usize) -> (r: String)
    requires
        t < 34,
    ensures
        r@ == spec_tile_name(t as int),
{
    if t < 27 {
        let s = String::from_str(digit_str(num(t)));
        s.concat(suit_str(t / 9))
    } else {
        String::from_str(honor_str(t - 27))
    }
}

/// Number of tiles in a hand.
pub fn total(c: &Counts) -> (r: u32)
    ensures
        r == seq_sum(c@),
{
    let mut r: u32 = 0;
    let mut i: usize = 0;
    while i < NUM_TILES
        invariant
            i <= 34,
            c@.len() == 34,
            r == seq_sum(c@.subrange(0, i as int)),
            r <= 255 * i,
        decreases 34 - i,
    {
        assert(c@.subrange(0, i + 1).drop_last() =~= c@.subrange(0, i as int));
        r = r + c[i] as u32;
        i = i + 1;
    }
    assert(c@.subrange(0, 34) =~= c@);
    r
}

/// The tiles of a hand in increasing order, each repeated by its count.
pub open spec fn spec_to_tiles(c: Seq<u8>) -> Seq<usize>
    decreases c.len(),
{
    if c.len() == 0 {
        Seq::empty()
    } else {
        spec_to_tiles(c.drop_last()) + Seq::new(c.last() as nat, |j: int| (c.len() - 1) as usize)
    }
}

/// Expands a hand into the sorted list of its tiles.
pub fn to_tiles(c: &Counts) -> (v: Tiles)
    ensures
        v@ == spec_to_tiles(c@),
{
    let mut v: Vec<usize> = Vec::new();
    let mut i: usize = 0;
    while i < NUM_TILES
        invariant
            i <= 34,
            c@.len() == 34,
            v@ == spec_to_tiles(c@.subrange(0, i as int)),
        decreases 34 - i,
    {
        let ghost before = v@;
        let n = c[i];
        let mut k: u8 = 0;
        while k < n
            invariant
                k <= n,
                n == c@[i as int],
                i < 34,
                c@.len() == 34,
                v@ == before + Seq::new(k as nat, |j: int| i),
            decreases n - k,
        {
            v.push(i);
            k = k + 1;
            assert(v@ =~= before + Seq::new(k as nat, |j: int| i));
        }
        assert(c@.subrange(0, i + 1).drop_last() =~= c@.subrange(0, i as int));
        i = i + 1;
    }
    assert(c@.subrange(0, 34) =~= c@);
    v
}

// ---------------------------------------------------------------------------
// Hand notation: "123m 456s 789p 东东东" ("万", "条", "筒" may replace m, s, p).
// ---------------------------------------------------------------------------

/// Tile index of an honor character, if it is one.
pub open spec fn honor_of(ch: char) -> Option<int> {
    if ch == '东' {
        Some(27)
    } else if ch == '南' {
        Some(28)
    } else if ch == '西' {
        Some(29)
    } else if ch == '北' {
        Some(30)
    } else if ch == '中' {
        Some(31)
    } else if ch == '发' {
        Some(32)
    } else if ch == '白' {
        Some(33)
    } else {
        None
    }
}

/// First tile index of the suit a suit letter names, if it is one.
pub open spec fn suit_base_of(ch: char) -> Option<int> {
    if ch == 'm' || ch == '万' {
        Some(0)
    } else if ch == 's' || ch == '条' {
        Some(9)
    } else if ch == 'p' || ch == '筒' {
        Some(18)
    } else {
        None
    }
}

/// Adds one tile of rank `d` in the suit starting at `base` for each pending
/// digit 1..9 (a 0 is ignored).
pub open spec fn apply_digits(cnt: Seq<int>, ds: Seq<int>, base: int) -> Seq<int>
    decreases ds.len(),
{
    if ds.len() == 0 {
        cnt
    } else {
        let c2 = apply_digits(cnt, ds.drop_last(), base);
        let d = ds.last();
        if 1 <= d <= 9 {
            c2.update(base + d - 1, c2[base + d - 1] + 1)
        } else {
            c2
        }
    }
}

/// One character of hand notation applied to (counts, pending digits).
pub open spec fn parse_step(st: (Seq<int>, Seq<int>), ch: char) -> (Seq<int>, Seq<int>) {
    if '0' <= ch <= '9' {
        (st.0, st.1.push(ch as int - '0' as int))
    } else if suit_base_of(ch) is Some {
        (apply_digits(st.0, st.1, suit_base_of(ch)->0), Seq::empty())
    } else if honor_of(ch) is Some {
        let h = honor_of(ch)->0;
        (st.0.update(h, st.0[h] + 1), st.1)
    } else {
        st
    }
}

/// State after reading a whole string; any other character is skipped.
pub open spec fn parse_state(s: Seq<char>) -> (Seq<int>, Seq<int>)
    decreases s.len(),
{
    if s.len() == 0 {
        (Seq::new(34, |i: int| 0int), Seq::empty())
    } else {
        parse_step(parse_state(s.drop_last()), s.last())
    }
}

/// The counts that a string of hand notation describes; digits not
/// followed by a suit letter are dropped.
pub open spec fn spec_parse_hand(s: Seq<char>) -> Seq<int> {
    parse_state(s).0
}

proof fn lemma_apply_digits(cnt: Seq<int>, ds: Seq<int>, base: int)
    requires
        cnt.len() == 34,
        base == 0 || base == 9 || base == 18,
        forall|i: int| 0 <= i < 34 ==> cnt[i] >= 0,
    ensures
        apply_digits(cnt, ds, base).len() == 34,
        forall|i: int| 0 <= i < 34 ==> #[trigger] apply_digits(cnt, ds, base)[i] >= cnt[i],
    decreases ds.len(),
{
    if ds.len() > 0 {
        lemma_apply_digits(cnt, ds.drop_last(), base);
    }
}

/// Reading more characters never lowers a count.
proof fn lemma_parse_mono(s: Seq<char>, k: int)
    requires
        0 <= k <= s.len(),
    ensures
        parse_state(s).0.len() == 34,
        parse_state(s.subrange(0, k)).0.len() == 34,
        forall|i: int| 0 <= i < 34 ==> parse_state(s.subrange(0, k)).0[i] >= 0,
        forall|i: int|
            0 <= i < 34 ==> #[trigger] parse_state(s).0[i] >= parse_state(s.subrange(0, k)).0[i],
    decreases s.len(),
{
    if s.len() == 0 {
        assert(s.subrange(0, k) =~= s);
    } else if k == s.len() {
        assert(s.subrange(0, k) =~= s);
        lemma_parse_mono(s.drop_last(), 0);
        lemma_parse_nonneg(s);
    } else {
        lemma_parse_mono(s.drop_last(), k);
        assert(s.drop_last().subrange(0, k) =~= s.subrange(0, k));
        let st = parse_state(s.drop_last());
        lemma_parse_nonneg(s.drop_last());
        let ch = s.last();
        if suit_base_of(ch) is Some {
            lemma_apply_digits(st.0, st.1, suit_base_of(ch)->0);
        }
    }
}

pub proof fn lemma_parse_nonneg(s: Seq<char>)
    ensures
        parse_state(s).0.len() == 34,
        forall|i: int| 0 <= i < 34 ==> parse_state(s).0[i] >= 0,
    decreases s.len(),
{
    if s.len() > 0 {
        lemma_parse_nonneg(s.drop_last());
        let st = parse_state(s.drop_last());
        let ch = s.last();
        if suit_base_of(ch) is Some {
            lemma_apply_digits(st.0, st.1, suit_base_of(ch)->0);
        }
    }
}

fn honor_index(ch: char) -> (r: Option<usize>)
    ensures
        r is Some <==> honor_of(ch) is Some,
        r is Some ==> r->0 as int == honor_of(ch)->0,
{
    if ch == '东' {
        Some(27)
    } else if ch == '南' {
        Some(28)
    } else if ch == '西' {
        Some(29)
    } else if ch == '北' {
        Some(30)
    } else if ch == '中' {
        Some(31)
    } else if ch == '发' {
        Some(32)
    } else if ch == '白' {
        Some(33)
    } else {
        None
    }
}

fn suit_base(ch: char) -> (r: Option<usize>)
    ensures
        r is Some <==> suit_base_of(ch) is Some,
        r is Some ==> r->0 as int == suit_base_of(ch)->0,
{
    if ch == 'm' || ch == '万' {
        Some(0)
    } else if ch == 's' || ch == '条' {
        Some(9)
    } else if ch == 'p' || ch == '筒' {
        Some(18)
    } else {
        None
    }
}

/// Parses hand notation such as `"123m 456s 789p 东东东"` or `"123456789m 白白"`:
/// digits collect until a suit letter (`m`/`万`, `s`/`条`, `p`/`筒`) assigns
/// them; honors are written by name; every other character is skipped.
pub fn parse_hand(s: &str) -> (c: Counts)
    requires
        forall|i: int| 0 <= i < 34 ==> #[trigger] spec_parse_hand(s@)[i] <= 255,
    ensures
        forall|i: int| 0 <= i < 34 ==> c@[i] as int == #[trigger] spec_parse_hand(s@)[i],
{
    parse_hand_checked(s).unwrap()
}

/// Parses hand notation as `parse_hand` does; `None` when some tile would
/// be counted more than 255 times.
pub fn parse_hand_checked(s: &str) -> (r: Option<Counts>)
    ensures
        r is Some <==> forall|i: int| 0 <= i < 34 ==> #[trigger] spec_parse_hand(s@)[i] <= 255,
        r matches Some(c) ==> forall|i: int| 0 <= i < 34 ==> c@[i] as int == #[trigger] spec_parse_hand(s@)[i],
{
    let mut c = counts();
    let n = s.unicode_len();
    let mut digits: Vec<usize> = Vec::new();
    let mut i: usize = 0;
    proof {
        lemma_parse_mono(s@, 0);
    }
    while i < n
        invariant
            i <= n,
            n == s@.len(),
            c@.len() == 34,
            parse_state(s@.subrange(0, i as int)).0.len() == 34,
            forall|t: int|
                0 <= t < 34 ==> c@[t] as int == #[trigger] parse_state(s@.subrange(0, i as int)).0[t],
            digits@.len() == parse_state(s@.subrange(0, i as int)).1.len(),
            forall|j: int|
                0 <= j < digits@.len() ==> digits@[j] as int == #[trigger] parse_state(
                    s@.subrange(0, i as int),
                ).1[j],
            forall|j: int| 0 <= j < digits@.len() ==> #[trigger] digits@[j] <= 9,
        decreases n - i,
    {
        let ghost pre = s@.subrange(0, i as int);
        let ghost post = s@.subrange(0, i + 1);
        assert(post.drop_last() =~= pre);
        proof {
            lemma_parse_mono(s@, i + 1);
        }
        let ch = s.get_char(i);
        assert(post.last() == ch);
        if '0' <= ch && ch <= '9' {
            let d = (ch as u32 - '0' as u32) as usize;
            digits.push(d);
        } else if let Some(base) = suit_base(ch) {
            let ghost st = parse_state(pre);
            let mut j: usize = 0;
            while j < digits.len()
                invariant
                    j <= digits@.len(),
                    base == 0 || base == 9 || base == 18,
                    c@.len() == 34,
                    st == parse_state(pre),
                    digits@.len() == st.1.len(),
                    forall|k: int| 0 <= k < digits@.len() ==> digits@[k] as int == #[trigger] st.1[k],
                    forall|k: int| 0 <= k < digits@.len() ==> #[trigger] digits@[k] <= 9,
                    parse_state(post).0 == apply_digits(st.0, st.1, base as int),
                    st.0.len() == 34,
                    forall|t: int| 0 <= t < 34 ==> st.0[t] >= 0,
                    apply_digits(st.0, st.1.subrange(0, j as int), base as int).len() == 34,
                    forall|t: int|
                        0 <= t < 34 ==> c@[t] as int == #[trigger] apply_digits(
                            st.0,
                            st.1.subrange(0, j as int),
                            base as int,
                        )[t],
                    forall|t: int|
                        0 <= t < 34 ==> #[trigger] parse_state(s@).0[t] >= parse_state(post).0[t],
                decreases digits@.len() - j,
            {
                let ghost sub = st.1.subrange(0, j + 1);
                assert(sub.drop_last() =~= st.1.subrange(0, j as int));
                proof {
                    lemma_apply_digits(st.0, sub, base as int);
                    lemma_apply_digits_prefix(st.0, st.1, base as int, j + 1);
                }
                let d = digits[j];
                if d >= 1 && d <= 9 {
                    let idx = base + d - 1;
                    assert(apply_digits(st.0, st.1, base as int)[idx as int] >= apply_digits(
                        st.0,
                        sub,
                        base as int,
                    )[idx as int]);
                    if c[idx] == 255 {
                        assert(spec_parse_hand(s@)[idx as int] > 255);
                        return None;
                    }
                    c[idx] = c[idx] + 1;
                }
                j = j + 1;
            }
            assert(st.1.subrange(0, j as int) =~= st.1);
            digits = Vec::new();
        } else if let Some(h) = honor_index(ch) {
            if c[h] == 255 {
                assert(spec_parse_hand(s@)[h as int] > 255);
                return None;
            }
            c[h] = c[h] + 1;
        }
        i = i + 1;
    }
    assert(s@.subrange(0, n as int) =~= s@);
    Some(c)
}

/// A prefix of the pending digits adds no more than all of them.
proof fn lemma_apply_digits_prefix(cnt: Seq<int>, ds: Seq<int>, base: int, j: int)
    requires
        cnt.len() == 34,
        base == 0 || base == 9 || base == 18,
        forall|i: int| 0 <= i < 34 ==> cnt[i] >= 0,
        0 <= j <= ds.len(),
    ensures
        forall|i: int|
            0 <= i < 34 ==> #[trigger] apply_digits(cnt, ds, base)[i] >= apply_digits(
                cnt,
                ds.subrange(0, j),
                base,
            )[i],
    decreases ds.len(),
{
    if j == ds.len() {
        assert(ds.subrange(0, j) =~= ds);
    } else {
        lemma_apply_digits_prefix(cnt, ds.drop_last(), base, j);
        assert(ds.drop_last().subrange(0, j) =~= ds.subrange(0, j));
        lemma_apply_digits(cnt, ds.drop_last(), base);
    }
}

} // verus!
