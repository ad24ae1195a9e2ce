//! Input model: exposed melds (chi, pon, kan) and concealment.
use vstd::prelude::*;
use crate::decompose::{Group, SetKind};

verus! {

#[derive(Clone, Copy, Debug, PartialEq, Eq, Structural)]
pub enum MeldKind {
    Chi,
    Pon,
    Kan,
}

/// A declared meld.
#[derive(Clone, Copy, Debug)]
pub struct Meld {
    pub kind: MeldKind,
    /// Chi: its lowest tile; Pon/Kan: the tile.
    pub tile: usize,
    /// Kan only: exposed (true) or concealed (false).
    pub open: bool,
}

/// The set a meld stands for.
pub open spec fn spec_meld_set(m: Meld) -> Group {
    match m.kind {
        MeldKind::Chi => Group { kind: SetKind::Run, tile: m.tile, is_kan: false, open: true },
        MeldKind::Pon => Group { kind: SetKind::Triplet, tile: m.tile, is_kan: false, open: true },
        MeldKind::Kan => Group { kind: SetKind::Triplet, tile: m.tile, is_kan: true, open: m.open },
    }
}

/// The tiles a meld occupies.
pub open spec fn spec_meld_tiles(m: Meld) -> Seq<usize> {
    match m.kind {
        MeldKind::Chi => seq![m.tile, (m.tile + 1) as usize, (m.tile + 2) as usize],
        MeldKind::Pon => seq![m.tile, m.tile, m.tile],
        MeldKind::Kan => seq![m.tile, m.tile, m.tile, m.tile],
    }
}

/// Whether a meld breaks a concealed hand: chi, pon and exposed kan do.
pub open spec fn meld_is_open(m: Meld) -> bool {
    match m.kind {
        MeldKind::Chi | MeldKind::Pon => true,
        MeldKind::Kan => m.open,
    }
}

impl Meld {
    pub fn chi(tile: usize) -> (m: Self)
        ensures
            m == (Meld { kind: MeldKind::Chi, tile, open: true }),
    {
        Meld { kind: MeldKind::Chi, tile, open: true }
    }

    pub fn pon(tile: usize) -> (m: Self)
        ensures
            m == (Meld { kind: MeldKind::Pon, tile, open: true }),
    {
        Meld { kind: MeldKind::Pon, tile, open: true }
    }

    pub fn kan(tile: usize, open: bool) -> (m: Self)
        ensures
            m == (Meld { kind: MeldKind::Kan, tile, open }),
    {
        Meld { kind: MeldKind::Kan, tile, open }
    }

    /// The meld as a set of a decomposition.
    pub fn to_set(&self) -> (s: Group)
        ensures
            s == spec_meld_set(*self),
    {
        match self.kind {
            MeldKind::Chi => Group { kind: SetKind::Run, tile: self.tile, is_kan: false, open: true },
            MeldKind::Pon => Group {
                kind: SetKind::Triplet,
                tile: self.tile,
                is_kan: false,
                open: true,
            },
            MeldKind::Kan => Group {
                kind: SetKind::Triplet,
                tile: self.tile,
                is_kan: true,
                open: self.open,
            },
        }
    }

    /// The tiles the meld occupies.
    pub fn tiles(&self) -> (v: Vec<usize>)
        requires
            self.kind == MeldKind::Chi ==> self.tile + 2 <= usize::MAX,
        ensures
            v@ == spec_meld_tiles(*self),
    {
        match self.kind {
            MeldKind::Chi => vec![self.tile, self.tile + 1, self.tile + 2],
            MeldKind::Pon => vec![self.tile, self.tile, self.tile],
            MeldKind::Kan => vec![self.tile, self.tile, self.tile, self.tile],
        }
    }
}

/// Whether the melds break a concealed hand: a chi, a pon or an exposed kan
/// does; a concealed kan does not.
pub fn breaks_menqing(melds: &[Meld]) -> (r: bool)
    ensures
        r == exists|i: int| 0 <= i < melds@.len() && meld_is_open(#[trigger] melds@[i]),
{
    let mut i: usize = 0;
    while i < melds.len()
        invariant
            i <= melds@.len(),
            forall|j: int| 0 <= j < i ==> !meld_is_open(#[trigger] melds@[j]),
        decreases melds@.len() - i,
    {
        let m = melds[i];
        let open = match m.kind {
            MeldKind::Chi | MeldKind::Pon => true,
            MeldKind::Kan => m.open,
        };
        if open {
            return true;
        }
        i = i + 1;
    }
    false
}

} // verus!
