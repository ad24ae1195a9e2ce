//! The command line: a hand in notation, melds and winds given by flags.
use vstd::prelude::*;
use vstd::string::StrSliceExecFns;
use vstd::string::StringExecFns;
use crate::model::{Meld, MeldKind};
use crate::tiles::{parse_hand_checked, spec_parse_hand, Counts, NUM_TILES};

verus! {

/// Whether two texts are equal.
pub fn same_text(a: &str, b: &str) -> (r: bool)
    ensures
        r == (a@ == b@),
{
    let n = a.unicode_len();
    if n != b.unicode_len() {
        return false;
    }
    let mut i: usize = 0;
    while i < n
        invariant
            i <= n,
            n == a@.len(),
            n == b@.len(),
            forall|k: int| 0 <= k < i ==> a@[k] == b@[k],
        decreases n - i,
    {
        if a.get_char(i) != b.get_char(i) {
            return false;
        }
        i = i + 1;
    }
    assert(a@ =~= b@);
    true
}

/// The wind a word names: east, south, west or north by character, English
/// word or letter; anything else is east.
pub open spec fn spec_wind(s: Seq<char>) -> usize {
    if s == "东"@ || s == "east"@ || s == "E"@ {
        27
    } else if s == "南"@ || s == "south"@ || s == "S"@ {
        28
    } else if s == "西"@ || s == "west"@ || s == "W"@ {
        29
    } else if s == "北"@ || s == "north"@ || s == "N"@ {
        30
    } else {
        27
    }
}

/// The tile index of the wind a word names.
pub fn wind_idx(s: &str) -> (r: usize)
    ensures
        r == spec_wind(s@),
{
    if same_text(s, "东") || same_text(s, "east") || same_text(s, "E") {
        27
    } else if same_text(s, "南") || same_text(s, "south") || same_text(s, "S") {
        28
    } else if same_text(s, "西") || same_text(s, "west") || same_text(s, "W") {
        29
    } else if same_text(s, "北") || same_text(s, "north") || same_text(s, "N") {
        30
    } else {
        27
    }
}

/// The first tile below `n` the counts hold, if any.
pub open spec fn first_held(c: Seq<int>, n: int) -> Option<int>
    decreases n,
{
    if n <= 0 {
        None
    } else {
        match first_held(c, n - 1) {
            Some(t) => Some(t),
            None => if c[n - 1] > 0 {
                Some(n - 1)
            } else {
                None
            },
        }
    }
}

/// The first tile the hand holds, if any.
pub fn first_tile(c: &Counts) -> (r: Option<usize>)
    ensures
        r matches Some(t) ==> first_held(c@.map_values(|x: u8| x as int), 34) == Some(t as int),
        r is None ==> first_held(c@.map_values(|x: u8| x as int), 34) is None,
{
    let ghost ci = c@.map_values(|x: u8| x as int);
    let mut t: usize = 0;
    while t < NUM_TILES
        invariant
            t <= 34,
            ci == c@.map_values(|x: u8| x as int),
            first_held(ci, t as int) is None,
        decreases 34 - t,
    {
        if c[t] > 0 {
            assert(first_held(ci, t + 1) == Some(t as int));
            proof {
                lemma_first_held_stays(ci, t + 1, 34);
            }
            return Some(t);
        }
        t = t + 1;
    }
    None
}

proof fn lemma_first_held_stays(c: Seq<int>, m: int, n: int)
    requires
        0 <= m <= n,
        first_held(c, m) is Some,
    ensures
        first_held(c, n) == first_held(c, m),
    decreases n - m,
{
    if n > m {
        lemma_first_held_stays(c, m, n - 1);
    }
}

/// What the command line asks for, as values.
pub struct InvocationModel {
    pub hand: Seq<char>,
    pub melds: Seq<Meld>,
    pub round: usize,
    pub seat: usize,
}

/// How reading the command line ends.
pub enum Reading {
    /// Help was asked for (or nothing given).
    Help,
    /// A hand (its text), melds and winds.
    Run(InvocationModel),
    /// A meld flag came last, without its tiles.
    MissingValue(Seq<char>),
    /// A wind flag came last, without its wind.
    MissingWind(Seq<char>),
    /// A meld flag's tiles name no tile.
    EmptyMeld(Seq<char>),
    /// Some tile is counted more than 255 times.
    TooMany,
}

pub open spec fn is_meld_flag(a: Seq<char>) -> bool {
    a == "--chi"@ || a == "--pon"@ || a == "--kan"@ || a == "--ankan"@
}

/// The meld a flag makes of tile `t`.
pub open spec fn meld_of(flag: Seq<char>, t: usize) -> Meld {
    if flag == "--chi"@ {
        Meld { kind: MeldKind::Chi, tile: t, open: true }
    } else if flag == "--pon"@ {
        Meld { kind: MeldKind::Pon, tile: t, open: true }
    } else if flag == "--kan"@ {
        Meld { kind: MeldKind::Kan, tile: t, open: true }
    } else {
        Meld { kind: MeldKind::Kan, tile: t, open: false }
    }
}

pub open spec fn too_many(c: Seq<int>) -> bool {
    exists|t: int| 0 <= t < 34 && #[trigger] c[t] > 255
}

/// Reads the arguments from `i` on: a meld flag takes the next argument's
/// first tile, a wind flag the next argument's wind; any other argument is
/// part of the hand (joined with spaces).
pub open spec fn scan(args: Seq<Seq<char>>, i: int, st: InvocationModel) -> Reading
    decreases args.len() - i,
{
    if i < 0 || i >= args.len() {
        Reading::Run(st)
    } else {
        let a = args[i];
        if is_meld_flag(a) {
            if i + 1 >= args.len() {
                Reading::MissingValue(a)
            } else {
                let c = spec_parse_hand(args[i + 1]);
                if too_many(c) {
                    Reading::TooMany
                } else {
                    match first_held(c, 34) {
                        None => Reading::EmptyMeld(a),
                        Some(t) => scan(
                            args,
                            i + 2,
                            InvocationModel { melds: st.melds.push(meld_of(a, t as usize)), ..st },
                        ),
                    }
                }
            }
        } else if a == "--round"@ || a == "--seat"@ {
            if i + 1 >= args.len() {
                Reading::MissingWind(a)
            } else if a == "--round"@ {
                scan(args, i + 2, InvocationModel { round: spec_wind(args[i + 1]), ..st })
            } else {
                scan(args, i + 2, InvocationModel { seat: spec_wind(args[i + 1]), ..st })
            }
        } else {
            scan(args, i + 1, InvocationModel { hand: st.hand + a + " "@, ..st })
        }
    }
}

/// Whether some argument asks for help.
pub open spec fn asks_help(args: Seq<Seq<char>>) -> bool {
    args.len() == 0 || exists|i: int| 0 <= i < args.len() && (#[trigger] args[i] == "-h"@ || args[i] == "--help"@)
}

/// What the command line asks for: help, or the hand (whose text must not
/// count a tile more than 255 times), melds and winds (east by default).
pub open spec fn spec_read(args: Seq<Seq<char>>) -> Reading {
    if asks_help(args) {
        Reading::Help
    } else {
        let r = scan(args, 0, InvocationModel { hand: Seq::empty(), melds: Seq::empty(), round: 27, seat: 27 });
        match r {
            Reading::Run(st) => if too_many(spec_parse_hand(st.hand)) {
                Reading::TooMany
            } else {
                r
            },
            _ => r,
        }
    }
}

/// A hand to analyze.
#[derive(Debug)]
pub struct Invocation {
    pub hand: Counts,
    pub melds: Vec<Meld>,
    pub round: usize,
    pub seat: usize,
}

/// What the command line asks for.
#[derive(Debug)]
pub enum Command {
    Help,
    Analyze(Invocation),
}

/// Why the command line cannot be used.
#[derive(Debug)]
pub enum ArgError {
    /// A meld flag came last, without its tiles.
    MissingValue(String),
    /// A wind flag came last, without its wind.
    MissingWind(String),
    /// A meld flag's tiles name no tile.
    EmptyMeld(String),
    /// Some tile is counted more than 255 times.
    TooMany,
}

/// Whether a command matches what reading the arguments gives.
pub open spec fn command_matches(r: Result<Command, ArgError>, reading: Reading) -> bool {
    match reading {
        Reading::Help => r matches Ok(Command::Help),
        Reading::Run(st) => r matches Ok(Command::Analyze(inv)) && {
            &&& forall|t: int| 0 <= t < 34 ==> inv.hand@[t] as int == #[trigger] spec_parse_hand(st.hand)[t]
            &&& inv.melds@ == st.melds
            &&& inv.round == st.round
            &&& inv.seat == st.seat
        },
        Reading::MissingValue(a) => r matches Err(ArgError::MissingValue(s)) && s@ == a,
        Reading::MissingWind(a) => r matches Err(ArgError::MissingWind(s)) && s@ == a,
        Reading::EmptyMeld(a) => r matches Err(ArgError::EmptyMeld(s)) && s@ == a,
        Reading::TooMany => r matches Err(ArgError::TooMany),
    }
}

/// The views of the arguments.
pub open spec fn args_view(args: Seq<String>) -> Seq<Seq<char>> {
    args.map_values(|s: String| s@)
}

fn asks_for_help(args: &Vec<String>) -> (r: bool)
    ensures
        r == asks_help(args_view(args@)),
{
    if args.len() == 0 {
        return true;
    }
    let mut i: usize = 0;
    while i < args.len()
        invariant
            i <= args@.len(),
            forall|k: int| 0 <= k < i ==> !(#[trigger] args_view(args@)[k] == "-h"@ || args_view(args@)[k] == "--help"@),
        decreases args@.len() - i,
    {
        let a = args[i].as_str();
        if same_text(a, "-h") || same_text(a, "--help") {
            assert(args_view(args@)[i as int] == args@[i as int]@);
            return true;
        }
        i = i + 1;
    }
    false
}

/// Reads the command line (the arguments after the program's name).
pub fn parse_args(args: &Vec<String>) -> (r: Result<Command, ArgError>)
    ensures
        command_matches(r, spec_read(args_view(args@))),
{
    let ghost av = args_view(args@);
    if asks_for_help(args) {
        return Ok(Command::Help);
    }
    let mut hand = String::new();
    let mut melds: Vec<Meld> = Vec::new();
    let mut round: usize = 27;
    let mut seat: usize = 27;
    let mut i: usize = 0;
    let ghost init = InvocationModel { hand: Seq::empty(), melds: Seq::empty(), round: 27, seat: 27 };
    while i < args.len()
        invariant
            i <= args@.len(),
            av == args_view(args@),
            !asks_help(av),
            init == (InvocationModel { hand: Seq::empty(), melds: Seq::empty(), round: 27, seat: 27 }),
            scan(av, i as int, InvocationModel { hand: hand@, melds: melds@, round, seat }) == scan(av, 0, init),
        decreases args@.len() - i,
    {
        let ghost st = InvocationModel { hand: hand@, melds: melds@, round, seat };
        let a = args[i].as_str();
        assert(a@ == av[i as int]);
        if same_text(a, "--chi") || same_text(a, "--pon") || same_text(a, "--kan") || same_text(a, "--ankan") {
            assert(is_meld_flag(av[i as int]));
            if i + 1 >= args.len() {
                assert(scan(av, i as int, st) == Reading::MissingValue(av[i as int]));
                assert(spec_read(av) == Reading::MissingValue(av[i as int]));
                let msg = String::from_str(a);
                assert(msg@ == av[i as int]);
                return Err(ArgError::MissingValue(msg));
            }
            assert(args[i + 1]@ == av[i + 1]);
            let c = match parse_hand_checked(args[i + 1].as_str()) {
                Some(c) => c,
                None => {
                    proof {
                        assert(too_many(spec_parse_hand(av[i + 1])));
                    }
                    return Err(ArgError::TooMany);
                },
            };
            proof {
                crate::tiles::lemma_parse_nonneg(av[i + 1]);
                assert(!too_many(spec_parse_hand(av[i + 1])));
                assert(c@.map_values(|x: u8| x as int) =~= spec_parse_hand(av[i + 1]));
            }
            let t = match first_tile(&c) {
                Some(t) => t,
                None => {
                    assert(scan(av, i as int, st) == Reading::EmptyMeld(av[i as int]));
                    assert(spec_read(av) == Reading::EmptyMeld(av[i as int]));
                    let msg = String::from_str(a);
                    assert(msg@ == av[i as int]);
                    return Err(ArgError::EmptyMeld(msg));
                },
            };
            let meld = if same_text(a, "--chi") {
                Meld::chi(t)
            } else if same_text(a, "--pon") {
                Meld::pon(t)
            } else if same_text(a, "--kan") {
                Meld::kan(t, true)
            } else {
                Meld::kan(t, false)
            };
            assert(meld == meld_of(a@, t));
            melds.push(meld);
            i = i + 2;
        } else if same_text(a, "--round") || same_text(a, "--seat") {
            if i + 1 >= args.len() {
                return Err(ArgError::MissingWind(String::from_str(a)));
            }
            assert(args[i + 1]@ == av[i + 1]);
            let w = wind_idx(args[i + 1].as_str());
            if same_text(a, "--round") {
                round = w;
            } else {
                seat = w;
            }
            i = i + 2;
        } else {
            hand.append(a);
            hand.append(" ");
            i = i + 1;
        }
    }
    let ghost fin = InvocationModel { hand: hand@, melds: melds@, round, seat };
    assert(scan(av, i as int, fin) == Reading::Run(fin));
    match parse_hand_checked(hand.as_str()) {
        Some(c) => {
            assert(!too_many(spec_parse_hand(hand@)));
            Ok(Command::Analyze(Invocation { hand: c, melds, round, seat }))
        },
        None => {
            assert(too_many(spec_parse_hand(hand@)));
            Err(ArgError::TooMany)
        },
    }
}

} // verus!
