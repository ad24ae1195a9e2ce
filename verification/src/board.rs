//! The input panel of a graphical front end: tiles and melds entered by
//! clicks, with the checks that keep every tile within four copies.
use vstd::prelude::*;
use vstd::string::StringExecFns;
use crate::calc::{analysis_of, analyzable, analyze, can_analyze, melds_count, Analysis, WaitResult};
use crate::cli::same_text;
use crate::fans::Fan;
use crate::model::{spec_meld_tiles, Meld, MeldKind};
use crate::tiles::{counts, seq_sum, spec_tile_name, tile_name, total, Counts};

verus! {

/// What a click on a tile does.
#[derive(Clone, Copy, Debug, PartialEq, Eq, Structural)]
pub enum MeldMode {
    /// Add the tile to the hand.
    Plain,
    /// Collect three tiles for a chi.
    Chi,
    /// Declare a pon of the tile.
    Pon,
    /// Declare an exposed kan of the tile.
    MingKan,
    /// Declare a concealed kan of the tile.
    AnKan,
}

/// The state of the input panel.
pub struct Board {
    pub hand: Counts,
    pub melds: Vec<Meld>,
    pub mode: MeldMode,
    /// Tiles picked so far for a chi.
    pub pending_chi: Vec<usize>,
    pub round_wind: usize,
    pub seat_wind: usize,
    /// Why the last click was refused (empty if it was not).
    pub hint: String,
    /// Whether something changed since the last analysis.
    pub dirty: bool,
}

/// The values of a `Board`.
pub struct BoardModel {
    pub hand: Seq<u8>,
    pub melds: Seq<Meld>,
    pub mode: MeldMode,
    pub pending_chi: Seq<usize>,
    pub round_wind: usize,
    pub seat_wind: usize,
    pub hint: Seq<char>,
    pub dirty: bool,
}

impl View for Board {
    type V = BoardModel;

    open spec fn view(&self) -> BoardModel {
        BoardModel {
            hand: self.hand@,
            melds: self.melds@,
            mode: self.mode,
            pending_chi: self.pending_chi@,
            round_wind: self.round_wind,
            seat_wind: self.seat_wind,
            hint: self.hint@,
            dirty: self.dirty,
        }
    }
}

/// How many copies of tile `t` the hand and the melds hold.
pub open spec fn spec_used(b: BoardModel, t: int) -> int {
    b.hand[t] + melds_count(b.melds, t)
}

/// A board as clicks leave it: the melds are on the tile range, every tile
/// within four copies, and fewer than three tiles picked for a chi, all
/// tile indices.
pub open spec fn board_ok(b: BoardModel) -> bool {
    &&& b.hand.len() == 34
    &&& crate::calc::melds_in_range(b.melds)
    &&& forall|t: int| 0 <= t < 34 ==> #[trigger] spec_used(b, t) <= 4
    &&& b.pending_chi.len() < 3
    &&& forall|i: int| 0 <= i < b.pending_chi.len() ==> #[trigger] b.pending_chi[i] < 34
}

/// Concealed tiles the melds leave room for: 13 less three per meld.
pub open spec fn spec_expected_hidden(b: BoardModel) -> int {
    if 3 * b.melds.len() <= 13 {
        13 - 3 * b.melds.len()
    } else {
        0
    }
}

/// Whether the hand holds as many concealed tiles as the melds leave room
/// for.
pub open spec fn spec_ready(b: BoardModel) -> bool {
    seq_sum(b.hand) == spec_expected_hidden(b)
}

/// The three tiles in increasing order.
pub open spec fn sort3(p: Seq<usize>) -> Seq<usize> {
    let (a, b, c) = (p[0], p[1], p[2]);
    if a <= b && b <= c {
        seq![a, b, c]
    } else if a <= c && c <= b {
        seq![a, c, b]
    } else if b <= a && a <= c {
        seq![b, a, c]
    } else if b <= c && c <= a {
        seq![b, c, a]
    } else if c <= a && a <= b {
        seq![c, a, b]
    } else {
        seq![c, b, a]
    }
}

/// Whether three increasing tiles make a run of one suit.
pub open spec fn is_chi(v: Seq<usize>) -> bool {
    &&& v[2] < 27
    &&& v[0] / 9 == v[1] / 9
    &&& v[1] / 9 == v[2] / 9
    &&& v[1] == v[0] + 1
    &&& v[2] == v[1] + 1
}

/// How many of `v` are `x`.
pub open spec fn need_of(v: Seq<usize>, x: int) -> int {
    (if v[0] == x {
        1int
    } else {
        0int
    }) + (if v[1] == x {
        1int
    } else {
        0int
    }) + (if v[2] == x {
        1int
    } else {
        0int
    })
}

pub open spec fn refused(b: BoardModel, hint: Seq<char>) -> BoardModel {
    BoardModel { hint, ..b }
}

/// The board after a click on tile `t`: in plain mode the tile joins the
/// hand unless four are used; in pon or kan mode the meld is declared unless
/// it would pass four copies (and the mode returns to plain); in chi mode
/// the tile is picked, and the third pick declares the chi when the three
/// make a run of one suit within four copies each (otherwise the picks are
/// dropped with a hint).
pub open spec fn spec_click(b: BoardModel, t: usize) -> BoardModel {
    let name = spec_tile_name(t as int);
    match b.mode {
        MeldMode::Plain => if spec_used(b, t as int) >= 4 {
            refused(b, name + " 已用满 4 张"@)
        } else {
            BoardModel {
                hand: b.hand.update(t as int, (b.hand[t as int] + 1) as u8),
                hint: Seq::empty(),
                dirty: true,
                ..b
            }
        },
        MeldMode::Pon => if spec_used(b, t as int) + 3 > 4 {
            refused(b, "碰 "@ + name + " 会超过 4 张上限"@)
        } else {
            BoardModel {
                melds: b.melds.push(Meld { kind: MeldKind::Pon, tile: t, open: true }),
                hint: Seq::empty(),
                dirty: true,
                mode: MeldMode::Plain,
                ..b
            }
        },
        MeldMode::MingKan | MeldMode::AnKan => if spec_used(b, t as int) + 4 > 4 {
            refused(b, "杠 "@ + name + " 会超过 4 张上限"@)
        } else {
            BoardModel {
                melds: b.melds.push(
                    Meld { kind: MeldKind::Kan, tile: t, open: b.mode == MeldMode::MingKan },
                ),
                hint: Seq::empty(),
                dirty: true,
                mode: MeldMode::Plain,
                ..b
            }
        },
        MeldMode::Chi => {
            let p = b.pending_chi.push(t);
            if p.len() < 3 {
                BoardModel { pending_chi: p, ..b }
            } else {
                let v = sort3(p);
                if is_chi(v) {
                    if forall|x: int| 0 <= x < 34 ==> #[trigger] spec_used(b, x) + need_of(v, x) <= 4 {
                        BoardModel {
                            melds: b.melds.push(Meld { kind: MeldKind::Chi, tile: v[0], open: true }),
                            hint: Seq::empty(),
                            dirty: true,
                            pending_chi: Seq::empty(),
                            mode: MeldMode::Plain,
                            ..b
                        }
                    } else {
                        BoardModel { hint: "吃 超出 4 张上限"@, pending_chi: Seq::empty(), ..b }
                    }
                } else {
                    BoardModel {
                        hint: "吃：需同花色三张连续（如 2万3万4万）"@,
                        pending_chi: Seq::empty(),
                        ..b
                    }
                }
            }
        },
    }
}

/// The label of a meld: the kind and its tiles.
pub open spec fn spec_meld_label(m: Meld) -> Seq<char> {
    match m.kind {
        MeldKind::Chi => "吃 "@ + spec_tile_name(m.tile as int) + spec_tile_name(m.tile + 1)
            + spec_tile_name(m.tile + 2),
        MeldKind::Pon => "碰 "@ + spec_tile_name(m.tile as int) + "×3"@,
        MeldKind::Kan => if m.open {
            "明杠 "@ + spec_tile_name(m.tile as int) + "×4"@
        } else {
            "暗杠 "@ + spec_tile_name(m.tile as int) + "×4"@
        },
    }
}

/// The label of a meld, as the panel lists it.
pub fn meld_label(m: &Meld) -> (r: String)
    requires
        m.kind == MeldKind::Chi ==> m.tile + 2 < 34,
        m.tile < 34,
    ensures
        r@ == spec_meld_label(*m),
{
    match m.kind {
        MeldKind::Chi => {
            let t = m.tile;
            String::from_str("吃 ").concat(tile_name(t).as_str()).concat(tile_name(t + 1).as_str()).concat(
                tile_name(t + 2).as_str(),
            )
        },
        MeldKind::Pon => String::from_str("碰 ").concat(tile_name(m.tile).as_str()).concat("×3"),
        MeldKind::Kan => {
            if m.open {
                String::from_str("明杠 ").concat(tile_name(m.tile).as_str()).concat("×4")
            } else {
                String::from_str("暗杠 ").concat(tile_name(m.tile).as_str()).concat("×4")
            }
        },
    }
}


/// How many of the melds' tiles are `t`.
fn melds_holding(melds: &Vec<Meld>, t: usize) -> (r: usize)
    requires
        crate::calc::melds_in_range(melds@),
        melds_count(melds@, t as int) <= 4,
    ensures
        r == melds_count(melds@, t as int),
{
    let mut r: usize = 0;
    let mut i: usize = 0;
    while i < melds.len()
        invariant
            i <= melds@.len(),
            crate::calc::melds_in_range(melds@),
            melds_count(melds@, t as int) <= 4,
            r == melds_count(melds@.subrange(0, i as int), t as int),
        decreases melds@.len() - i,
    {
        proof {
            crate::calc::lemma_melds_count_prefix(melds@, i + 1, t as int);
        }
        let m = melds[i];
        assert(melds@.subrange(0, i + 1).drop_last() =~= melds@.subrange(0, i as int));
        assert(m.tile < 34);
        let ts = m.tiles();
        let mut j: usize = 0;
        let mut k: usize = 0;
        while j < ts.len()
            invariant
                j <= ts@.len(),
                ts@.len() <= 4,
                k == crate::calc::tile_count(ts@.subrange(0, j as int), t as int),
                k <= j,
            decreases ts@.len() - j,
        {
            assert(ts@.subrange(0, j + 1).drop_last() =~= ts@.subrange(0, j as int));
            if ts[j] == t {
                k = k + 1;
            }
            j = j + 1;
        }
        assert(ts@.subrange(0, ts@.len() as int) =~= ts@);
        assert(melds@.subrange(0, i + 1).last() == m);
        r = r + k;
        i = i + 1;
    }
    assert(melds@.subrange(0, melds@.len() as int) =~= melds@);
    r
}

impl Board {
    /// An empty board: no tiles, no melds, east round and seat.
    pub fn new() -> (b: Board)
        ensures
            board_ok(b@),
            forall|t: int| 0 <= t < 34 ==> b.hand@[t] == 0,
            b@.melds.len() == 0,
            b.mode == MeldMode::Plain,
            b@.pending_chi.len() == 0,
            b.round_wind == 27,
            b.seat_wind == 27,
            b@.hint.len() == 0,
            b.dirty,
    {
        let b = Board {
            hand: counts(),
            melds: Vec::new(),
            mode: MeldMode::Plain,
            pending_chi: Vec::new(),
            round_wind: 27,
            seat_wind: 27,
            hint: String::new(),
            dirty: true,
        };
        proof {
            assert forall|t: int| 0 <= t < 34 implies #[trigger] spec_used(b@, t) <= 4 by {
                assert(melds_count(b@.melds, t) == 0);
            }
        }
        b
    }

    /// How many copies of tile `t` the hand and the melds hold.
    pub fn used(&self, t: usize) -> (r: usize)
        requires
            board_ok(self@),
            t < 34,
        ensures
            r == spec_used(self@, t as int),
    {
        proof {
            assert(spec_used(self@, t as int) <= 4);
            crate::calc::lemma_melds_count_nonneg(self@.melds, t as int);
        }
        self.hand[t] as usize + melds_holding(&self.melds, t)
    }

    /// Concealed tiles the melds leave room for.
    pub fn expected_hidden(&self) -> (r: usize)
        requires
            board_ok(self@),
        ensures
            r == spec_expected_hidden(self@),
    {
        let m = self.melds.len();
        if m <= 4 {
            13 - 3 * m
        } else {
            0
        }
    }

    /// Whether the hand holds as many concealed tiles as the melds leave
    /// room for.
    pub fn ready(&self) -> (r: bool)
        requires
            board_ok(self@),
        ensures
            r == spec_ready(self@),
    {
        total(&self.hand) as usize == self.expected_hidden()
    }
}


proof fn lemma_same_tiles(b: BoardModel, c: BoardModel)
    requires
        board_ok(b),
        c.hand == b.hand,
        c.melds == b.melds,
        c.pending_chi.len() < 3,
        forall|i: int| 0 <= i < c.pending_chi.len() ==> #[trigger] c.pending_chi[i] < 34,
    ensures
        board_ok(c),
{
    assert forall|x: int| 0 <= x < 34 implies #[trigger] spec_used(c, x) <= 4 by {
        assert(spec_used(b, x) <= 4);
    }
}

proof fn lemma_melds_count_push(ms: Seq<Meld>, m: Meld, x: int)
    ensures
        melds_count(ms.push(m), x) == melds_count(ms, x) + crate::calc::tile_count(spec_meld_tiles(m), x),
{
    assert(ms.push(m).drop_last() =~= ms);
}

proof fn lemma_tile_count3(a: usize, b: usize, c: usize, x: int)
    ensures
        crate::calc::tile_count(seq![a, b, c], x) == (if a == x {
            1int
        } else {
            0int
        }) + (if b == x {
            1int
        } else {
            0int
        }) + (if c == x {
            1int
        } else {
            0int
        }),
{
    reveal_with_fuel(crate::calc::tile_count, 4);
    assert(seq![a, b, c].drop_last() =~= seq![a, b]);
    assert(seq![a, b].drop_last() =~= seq![a]);
    assert(seq![a].drop_last() =~= Seq::<usize>::empty());
}

proof fn lemma_tile_count4(a: usize, x: int)
    ensures
        crate::calc::tile_count(seq![a, a, a, a], x) == if a == x {
            4int
        } else {
            0int
        },
{
    assert(seq![a, a, a, a].drop_last() =~= seq![a, a, a]);
    lemma_tile_count3(a, a, a, x);
}

/// The three tiles in increasing order.
fn sorted3(a: usize, b: usize, c: usize) -> (r: [usize; 3])
    ensures
        r@ == sort3(seq![a, b, c]),
{
    let r = if a <= b && b <= c {
        [a, b, c]
    } else if a <= c && c <= b {
        [a, c, b]
    } else if b <= a && a <= c {
        [b, a, c]
    } else if b <= c && c <= a {
        [b, c, a]
    } else if c <= a && a <= b {
        [c, a, b]
    } else {
        [c, b, a]
    };
    assert(r@ =~= sort3(seq![a, b, c]));
    r
}

impl Board {
    /// A click on tile `t` (see `spec_click`).
    pub fn click_tile(&mut self, t: usize)
        requires
            board_ok(old(self)@),
            t < 34,
        ensures
            final(self)@ == spec_click(old(self)@, t),
            board_ok(final(self)@),
    {
        let ghost b = self@;
        match self.mode {
            MeldMode::Plain => {
                if self.used(t) >= 4 {
                    self.hint = tile_name(t).concat(" 已用满 4 张");
                    proof {
                        lemma_same_tiles(b, self@);
                    }
                    return;
                }
                proof {
                    crate::calc::lemma_melds_count_nonneg(b.melds, t as int);
                }
                self.hand[t] = self.hand[t] + 1;
                self.hint = String::new();
                self.dirty = true;
                proof {
                    assert forall|x: int| 0 <= x < 34 implies #[trigger] spec_used(self@, x) <= 4 by {
                        assert(spec_used(b, x) <= 4);
                    }
                }
                assert(self@ == spec_click(b, t));
            },
            MeldMode::Pon => {
                if self.used(t) + 3 > 4 {
                    self.hint = String::from_str("碰 ").concat(tile_name(t).as_str()).concat(" 会超过 4 张上限");
                    proof {
                        lemma_same_tiles(b, self@);
                    }
                    return;
                }
                self.melds.push(Meld::pon(t));
                self.hint = String::new();
                self.dirty = true;
                self.mode = MeldMode::Plain;
                proof {
                    let m = Meld { kind: MeldKind::Pon, tile: t, open: true };
                    assert forall|x: int| 0 <= x < 34 implies #[trigger] spec_used(self@, x) <= 4 by {
                        lemma_melds_count_push(b.melds, m, x);
                        lemma_tile_count3(t, t, t, x);
                        assert(spec_used(b, x) <= 4);
                    }
                    assert(self@.melds =~= b.melds.push(m));
                }
                assert(self@ == spec_click(b, t));
            },
            MeldMode::MingKan | MeldMode::AnKan => {
                let open = self.mode == MeldMode::MingKan;
                if self.used(t) + 4 > 4 {
                    self.hint = String::from_str("杠 ").concat(tile_name(t).as_str()).concat(" 会超过 4 张上限");
                    proof {
                        lemma_same_tiles(b, self@);
                    }
                    return;
                }
                self.melds.push(Meld::kan(t, open));
                self.hint = String::new();
                self.dirty = true;
                self.mode = MeldMode::Plain;
                proof {
                    let m = Meld { kind: MeldKind::Kan, tile: t, open };
                    assert forall|x: int| 0 <= x < 34 implies #[trigger] spec_used(self@, x) <= 4 by {
                        lemma_melds_count_push(b.melds, m, x);
                        lemma_tile_count4(t, x);
                        assert(spec_used(b, x) <= 4);
                    }
                    assert(self@.melds =~= b.melds.push(m));
                }
                assert(self@ == spec_click(b, t));
            },
            MeldMode::Chi => {
                self.pending_chi.push(t);
                if self.pending_chi.len() == 3 {
                    let v = sorted3(self.pending_chi[0], self.pending_chi[1], self.pending_chi[2]);
                    assert(self.pending_chi@ =~= seq![self.pending_chi@[0], self.pending_chi@[1], self.pending_chi@[2]]);
                    let suited = v[2] < 27 && v[0] / 9 == v[1] / 9 && v[1] / 9 == v[2] / 9;
                    let run = suited && v[1] == v[0] + 1 && v[2] == v[1] + 1;
                    if run {
                        let mut ok = true;
                        let mut x: usize = 0;
                        while x < 34
                            invariant
                                x <= 34,
                                board_ok(b),
                                self@.hand == b.hand,
                                self@.melds == b.melds,
                                v@ == sort3(b.pending_chi.push(t)),
                                is_chi(v@),
                                ok == forall|y: int| 0 <= y < x ==> #[trigger] spec_used(b, y) + need_of(v@, y) <= 4,
                            decreases 34 - x,
                        {
                            proof {
                                assert(spec_used(b, x as int) <= 4);
                                crate::calc::lemma_melds_count_nonneg(b.melds, x as int);
                            }
                            let u = self.hand[x] as usize + melds_holding(&self.melds, x);
                            let need: usize = (if v[0] == x {
                                1
                            } else {
                                0
                            }) + (if v[1] == x {
                                1
                            } else {
                                0
                            }) + (if v[2] == x {
                                1
                            } else {
                                0
                            });
                            if u + need > 4 {
                                ok = false;
                            }
                            x = x + 1;
                        }
                        if ok {
                            self.melds.push(Meld::chi(v[0]));
                            self.hint = String::new();
                            self.dirty = true;
                            self.pending_chi = Vec::new();
                            self.mode = MeldMode::Plain;
                            proof {
                                let m = Meld { kind: MeldKind::Chi, tile: v[0], open: true };
                                assert forall|y: int| 0 <= y < 34 implies #[trigger] spec_used(self@, y) <= 4 by {
                                    lemma_melds_count_push(b.melds, m, y);
                                    lemma_tile_count3(v[0], (v[0] + 1) as usize, (v[0] + 2) as usize, y);
                                    assert(spec_used(b, y) + need_of(v@, y) <= 4);
                                }
                                assert(self@.melds =~= b.melds.push(m));
                                assert(self@.pending_chi =~= Seq::<usize>::empty());
                            }
                            assert(self@ == spec_click(b, t));
                            return;
                        } else {
                            self.hint = String::from_str("吃 超出 4 张上限");
                        }
                    } else {
                        self.hint = String::from_str("吃：需同花色三张连续（如 2万3万4万）");
                    }
                    self.pending_chi = Vec::new();
                    assert(self@.pending_chi =~= Seq::<usize>::empty());
                    proof {
                        lemma_same_tiles(b, self@);
                    }
                    assert(self@ == spec_click(b, t));
                } else {
                    proof {
                        assert forall|i: int| 0 <= i < self@.pending_chi.len() implies #[trigger] self@.pending_chi[i] < 34 by {
                            if i < b.pending_chi.len() {
                                assert(self@.pending_chi[i] == b.pending_chi[i]);
                            }
                        }
                        lemma_same_tiles(b, self@);
                    }
                    assert(self@ == spec_click(b, t));
                }
            },
        }
    }
}


impl Board {
    /// Toggles a meld mode (a second press returns to plain clicks); the
    /// tiles picked for a chi are dropped.
    pub fn toggle_mode(&mut self, m: MeldMode)
        requires
            board_ok(old(self)@),
        ensures
            final(self)@ == (BoardModel {
                mode: if old(self).mode == m {
                    MeldMode::Plain
                } else {
                    m
                },
                pending_chi: Seq::empty(),
                ..old(self)@
            }),
            board_ok(final(self)@),
    {
        let ghost b = self@;
        self.mode = if self.mode == m {
            MeldMode::Plain
        } else {
            m
        };
        self.pending_chi = Vec::new();
        proof {
            lemma_same_tiles(b, self@);
        }
    }

    /// Removes meld `i`.
    pub fn remove_meld(&mut self, i: usize)
        requires
            board_ok(old(self)@),
            i < old(self)@.melds.len(),
        ensures
            final(self)@ == (BoardModel { melds: old(self)@.melds.remove(i as int), dirty: true, ..old(self)@ }),
            board_ok(final(self)@),
    {
        let ghost b = self@;
        self.melds.remove(i);
        self.dirty = true;
        proof {
            lemma_melds_count_remove(b.melds, i as int);
            assert forall|x: int| 0 <= x < 34 implies #[trigger] spec_used(self@, x) <= 4 by {
                assert(spec_used(b, x) <= 4);
                crate::calc::lemma_tile_count_nonneg(spec_meld_tiles(b.melds[i as int]), x);
            }
        }
    }

    /// Removes one copy of tile `t` from the hand.
    pub fn remove_tile(&mut self, t: usize)
        requires
            board_ok(old(self)@),
            t < 34,
            old(self)@.hand[t as int] > 0,
        ensures
            final(self)@ == (BoardModel {
                hand: old(self)@.hand.update(t as int, (old(self)@.hand[t as int] - 1) as u8),
                dirty: true,
                ..old(self)@
            }),
            board_ok(final(self)@),
    {
        let ghost b = self@;
        self.hand[t] = self.hand[t] - 1;
        self.dirty = true;
        proof {
            assert forall|x: int| 0 <= x < 34 implies #[trigger] spec_used(self@, x) <= 4 by {
                assert(spec_used(b, x) <= 4);
            }
        }
    }

    /// Empties the hand and the melds (the mode and the winds stay).
    pub fn clear(&mut self)
        requires
            board_ok(old(self)@),
        ensures
            final(self)@ == (BoardModel {
                hand: Seq::new(34, |i: int| 0u8),
                melds: Seq::empty(),
                pending_chi: Seq::empty(),
                hint: Seq::empty(),
                dirty: true,
                ..old(self)@
            }),
            board_ok(final(self)@),
    {
        self.hand = counts();
        self.melds = Vec::new();
        self.pending_chi = Vec::new();
        self.hint = String::new();
        self.dirty = true;
        assert(self@.hand =~= Seq::new(34, |i: int| 0u8));
        proof {
            assert forall|x: int| 0 <= x < 34 implies #[trigger] spec_used(self@, x) <= 4 by {
                assert(melds_count(self@.melds, x) == 0);
            }
        }
    }

    /// Picks the round wind; a change marks the board changed.
    pub fn set_round(&mut self, w: usize)
        ensures
            final(self)@ == (BoardModel {
                round_wind: w,
                dirty: old(self).dirty || old(self).round_wind != w,
                ..old(self)@
            }),
    {
        if self.round_wind != w {
            self.round_wind = w;
            self.dirty = true;
        }
    }

    /// Picks the seat wind; a change marks the board changed.
    pub fn set_seat(&mut self, w: usize)
        ensures
            final(self)@ == (BoardModel {
                seat_wind: w,
                dirty: old(self).dirty || old(self).seat_wind != w,
                ..old(self)@
            }),
    {
        if self.seat_wind != w {
            self.seat_wind = w;
            self.dirty = true;
        }
    }

    /// The analysis of the board's hand when it holds as many concealed
    /// tiles as the melds leave room for (and `analyze` can take it).
    pub fn recompute(&self) -> (r: Option<Analysis>)
        requires
            board_ok(self@),
        ensures
            r is Some <==> spec_ready(self@) && analyzable(self.hand, self@.melds),
            r matches Some(an) ==> analysis_of(an, self.hand, self@.melds, self.round_wind, self.seat_wind),
    {
        if self.ready() && can_analyze(&self.hand, self.melds.as_slice()) {
            Some(analyze(&self.hand, self.melds.as_slice(), self.round_wind, self.seat_wind))
        } else {
            None
        }
    }

    /// Confirms the hand: when it is ready, analyzes it and marks the board
    /// unchanged; otherwise nothing happens.
    pub fn confirm(&mut self) -> (r: Option<Analysis>)
        requires
            board_ok(old(self)@),
        ensures
            spec_ready(old(self)@) ==> final(self)@ == (BoardModel { dirty: false, ..old(self)@ }),
            !spec_ready(old(self)@) ==> final(self)@ == old(self)@ && r is None,
            r is Some <==> spec_ready(old(self)@) && analyzable(old(self).hand, old(self)@.melds),
            r matches Some(an) ==> analysis_of(an, old(self).hand, old(self)@.melds, old(self).round_wind, old(self).seat_wind),
            board_ok(final(self)@),
    {
        if !self.ready() {
            return None;
        }
        let ghost b = self@;
        let r = self.recompute();
        self.dirty = false;
        proof {
            lemma_same_tiles(b, self@);
        }
        r
    }
}

proof fn lemma_melds_count_remove(ms: Seq<Meld>, i: int)
    requires
        0 <= i < ms.len(),
    ensures
        forall|x: int| #[trigger] melds_count(ms.remove(i), x) == melds_count(ms, x) - crate::calc::tile_count(spec_meld_tiles(ms[i]), x),
    decreases ms.len(),
{
    if i == ms.len() - 1 {
        assert(ms.remove(i) =~= ms.drop_last());
    } else {
        lemma_melds_count_remove(ms.drop_last(), i);
        let r = ms.remove(i);
        assert(r.drop_last() =~= ms.drop_last().remove(i));
        assert(r.last() == ms.last());
        assert(ms.drop_last()[i] == ms[i]);
        assert forall|x: int| #[trigger] melds_count(r, x) == melds_count(ms, x) - crate::calc::tile_count(spec_meld_tiles(ms[i]), x) by {
            assert(melds_count(r, x) == melds_count(r.drop_last(), x) + crate::calc::tile_count(spec_meld_tiles(r.last()), x));
            assert(melds_count(ms.drop_last().remove(i), x) == melds_count(ms.drop_last(), x) - crate::calc::tile_count(spec_meld_tiles(ms.drop_last()[i]), x));
        }
    }
}


/// Whether a fan is one of the way of winning (concealed hand, fully
/// concealed self-draw, self-drawn, last tile).
pub open spec fn is_way_fan(f: Fan) -> bool {
    f.name@ == "门前清"@ || f.name@ == "不求人"@ || f.name@ == "自摸"@ || f.name@ == "和绝张"@
}

/// The names and values of the fans that are not of the way of winning.
pub open spec fn shape_of(v: Seq<Fan>) -> Seq<(Seq<char>, u32)>
    decreases v.len(),
{
    if v.len() == 0 {
        Seq::empty()
    } else {
        shape_of(v.drop_last()) + if is_way_fan(v.last()) {
            Seq::empty()
        } else {
            seq![(v.last().name@, v.last().value)]
        }
    }
}

fn way_fan(f: &Fan) -> (r: bool)
    ensures
        r == is_way_fan(*f),
{
    same_text(f.name, "门前清") || same_text(f.name, "不求人") || same_text(f.name, "自摸") || same_text(
        f.name,
        "和绝张",
    )
}

fn shape_fans(v: &Vec<Fan>) -> (r: Vec<Fan>)
    ensures
        shape_of(r@) == shape_of(v@),
        forall|i: int| 0 <= i < r@.len() ==> !is_way_fan(#[trigger] r@[i]),
        shape_of(r@).len() == r@.len(),
{
    let mut r: Vec<Fan> = Vec::new();
    let mut i: usize = 0;
    while i < v.len()
        invariant
            i <= v@.len(),
            shape_of(r@) == shape_of(v@.subrange(0, i as int)),
            forall|k: int| 0 <= k < r@.len() ==> !is_way_fan(#[trigger] r@[k]),
            shape_of(r@).len() == r@.len(),
        decreases v@.len() - i,
    {
        assert(v@.subrange(0, i + 1).drop_last() =~= v@.subrange(0, i as int));
        let f = v[i];
        if !way_fan(&f) {
            let ghost r0 = r@;
            r.push(f);
            assert(r@.drop_last() =~= r0);
        }
        i = i + 1;
    }
    assert(v@.subrange(0, v@.len() as int) =~= v@);
    r
}

proof fn lemma_shape_index(v: Seq<Fan>)
    requires
        forall|i: int| 0 <= i < v.len() ==> !is_way_fan(#[trigger] v[i]),
    ensures
        shape_of(v).len() == v.len(),
        forall|i: int| 0 <= i < v.len() ==> #[trigger] shape_of(v)[i] == (v[i].name@, v[i].value),
    decreases v.len(),
{
    if v.len() > 0 {
        lemma_shape_index(v.drop_last());
        assert forall|i: int| 0 <= i < v.len() implies #[trigger] shape_of(v)[i] == (v[i].name@, v[i].value) by {
            if i < v.len() - 1 {
                assert(v.drop_last()[i] == v[i]);
            }
        }
    }
}

/// Whether the fans of the best self-draw differ from those of the best
/// discard beyond the fans of the way of winning (so that a front end shows
/// both lists).
pub fn tsumo_differs(w: &WaitResult) -> (r: bool)
    ensures
        r == (shape_of(w.fans@) != shape_of(w.fans_tsumo@)),
{
    let a = shape_fans(&w.fans);
    let b = shape_fans(&w.fans_tsumo);
    proof {
        lemma_shape_index(a@);
        lemma_shape_index(b@);
    }
    if a.len() != b.len() {
        return true;
    }
    let mut i: usize = 0;
    while i < a.len()
        invariant
            i <= a@.len(),
            a@.len() == b@.len(),
            shape_of(a@) == shape_of(w.fans@),
            shape_of(b@) == shape_of(w.fans_tsumo@),
            shape_of(a@).len() == a@.len(),
            shape_of(b@).len() == b@.len(),
            forall|k: int| 0 <= k < a@.len() ==> #[trigger] shape_of(a@)[k] == (a@[k].name@, a@[k].value),
            forall|k: int| 0 <= k < b@.len() ==> #[trigger] shape_of(b@)[k] == (b@[k].name@, b@[k].value),
            forall|k: int| 0 <= k < i ==> #[trigger] shape_of(a@)[k] == shape_of(b@)[k],
        decreases a@.len() - i,
    {
        if a[i].value != b[i].value || !same_text(a[i].name, b[i].name) {
            assert(shape_of(a@)[i as int] != shape_of(b@)[i as int]);
            return true;
        }
        assert(shape_of(a@)[i as int] == shape_of(b@)[i as int]);
        i = i + 1;
    }
    assert(shape_of(a@) =~= shape_of(b@));
    false
}

/// The remark shown beside a winning tile: short of 8 points, winnable only
/// on the last copy, winnable only self-drawn, or none.
pub open spec fn spec_wait_mark(w: WaitResult) -> Seq<char> {
    if !(w.normal >= 8 || w.tsumo >= 8 || w.last >= 8 || w.tsumo_last >= 8) {
        "（不足 8 番）"@
    } else if w.normal < 8 && w.tsumo < 8 && (w.last >= 8 || w.tsumo_last >= 8) {
        "（仅绝张可和）"@
    } else if w.normal < 8 && w.tsumo >= 8 {
        "（仅自摸可和）"@
    } else {
        ""@
    }
}

pub fn wait_mark(w: &WaitResult) -> (r: &'static str)
    ensures
        r@ == spec_wait_mark(*w),
{
    if !w.can_win() {
        "（不足 8 番）"
    } else if w.only_last() {
        "（仅绝张可和）"
    } else if w.only_tsumo() {
        "（仅自摸可和）"
    } else {
        ""
    }
}

} // verus!
