// Concrete values of the library's functions.
use gbmj::calc::{analyze, build_all, can_analyze, detect_zuhelong};
use gbmj::cli::{first_tile, parse_args, same_text, wind_idx, ArgError, Command};
use gbmj::decompose::{is_bu_kao, is_seven_pairs, is_seven_pairs_straight, is_seven_stars, is_thirteen_orphans, Group, Special};
use gbmj::model::{breaks_menqing, Meld, MeldKind};
use gbmj::plan::{bu_kao, plan, run, seven_pairs, seven_pairs_straight, thirteen_orphans, trip, Filter};
use gbmj::tiles::{counts, is_terminal, num, parse_hand, parse_hand_checked, suit, tile_name, total};

fn args(v: &[&str]) -> Vec<String> {
    v.iter().map(|s| s.to_string()).collect()
}

#[test]
fn tile_names() {
    assert_eq!(tile_name(0), "1万");
    assert_eq!(tile_name(13), "5条");
    assert_eq!(tile_name(26), "9筒");
    assert_eq!(tile_name(27), "东");
    assert_eq!(tile_name(33), "白");
}

#[test]
fn tile_classes() {
    assert_eq!(suit(8), 0);
    assert_eq!(suit(9), 1);
    assert_eq!(suit(30), 3);
    assert_eq!(num(22), 5);
    assert_eq!(num(31), 0);
    assert!(is_terminal(17));
    assert!(!is_terminal(27));
}

#[test]
fn parse_notation() {
    let c = parse_hand("123m 4万 55p 东 x 9");
    assert_eq!(c[0] + c[1] + c[2] + c[3], 4);
    assert_eq!(c[22], 2);
    assert_eq!(c[27], 1);
    assert_eq!(total(&c), 7, "a trailing digit without a suit is dropped");
    assert_eq!(total(&parse_hand("")), 0);
    assert_eq!(total(&parse_hand("0m")), 0);
    let many = "1".repeat(256) + "m";
    assert!(parse_hand_checked(&many).is_none());
    assert_eq!(parse_hand_checked("11m").unwrap()[0], 2);
}

#[test]
fn melds() {
    let m = Meld::chi(9);
    assert_eq!(m.tiles(), vec![9, 10, 11]);
    assert_eq!(Meld::kan(5, false).tiles(), vec![5, 5, 5, 5]);
    assert_eq!(Meld::pon(3).kind, MeldKind::Pon);
    let g = Meld::kan(5, true).to_set();
    assert!(g.is_triplet() && g.is_kan && g.open);
    assert!(!breaks_menqing(&[Meld::kan(5, false)]));
    assert!(breaks_menqing(&[Meld::kan(5, false), Meld::pon(3)]));
    assert!(!breaks_menqing(&[]));
}

#[test]
fn groups() {
    assert_eq!(Group::run(4).tiles(), vec![4, 5, 6]);
    assert_eq!(Group::triplet(30).tiles(), vec![30, 30, 30]);
    assert!(Group::run(4).is_run());
}

#[test]
fn all_tiles_with_melds() {
    let c = parse_hand("123s");
    let a = build_all(&c, &[Meld::pon(0), Meld::chi(0)]);
    assert_eq!(a[0], 4);
    assert_eq!(a[1], 1);
    assert_eq!(total(&a), 9);
}

#[test]
fn special_shapes() {
    assert!(is_seven_pairs(&parse_hand("1133557799m 11s 77s")));
    assert!(is_seven_pairs_straight(&parse_hand("22334455667788p")));
    assert!(is_thirteen_orphans(&parse_hand("19m19s19p东南西北中发白白")));
    assert!(is_bu_kao(&parse_hand("147m258s369p东南西北中")));
    assert!(is_seven_stars(&parse_hand("147m258s3p东南西北中发白")));
    assert!(!is_seven_stars(&parse_hand("147m258s369p东南西北中")));
}

#[test]
fn knitted_straight_readings() {
    let ds = detect_zuhelong(&parse_hand("147m 258s 369p 456m 99m"));
    assert_eq!(ds.len(), 1);
    assert_eq!(ds[0].pair, Some(8));
    assert_eq!(ds[0].special, Some(Special::Zuhelong));
    assert_eq!(ds[0].sets, vec![Group::run(3)]);
    assert!(detect_zuhelong(&parse_hand("147m 258s 369p 456m 9m")).is_empty());
}

#[test]
fn wait_flags() {
    let c = parse_hand("77s 东东");
    let an = analyze(&c, &[Meld::chi(1), Meld::pon(22), Meld::pon(14)], 27, 27);
    let w = an.waits.iter().find(|w| w.tile == 15).unwrap();
    assert!(w.can_win());
    assert!(!w.only_tsumo());
    assert!(!w.only_last());
    assert_eq!(w.last, 4, "the chicken hand's 8 is for a plain discard only");
}

#[test]
fn analyzable_hands() {
    assert!(can_analyze(&parse_hand("123456789m 55p 78p"), &[]));
    assert!(!can_analyze(&counts(), &[Meld::chi(33)]));
    // A tile held four times or more is never tried, so 255 of it is fine.
    let mut c = counts();
    c[0] = 255;
    assert!(can_analyze(&c, &[]));
    // Three held and 252 in pungs: trying a fourth would count 256.
    let mut c2 = counts();
    c2[0] = 3;
    assert!(!can_analyze(&c2, &vec![Meld::pon(0); 84]));
}

#[test]
fn plan_shapes() {
    let h = parse_hand("1122334455m678m");
    let (c, t) = seven_pairs(&h, &[]).unwrap();
    assert_eq!(c, 12);
    assert_eq!(total(&t), 14);
    assert!(seven_pairs(&h, &[Meld::pon(27)]).is_none());
    let (c2, _) = seven_pairs_straight(&parse_hand("2233445566778p"), &[]).unwrap();
    assert_eq!(c2, 13);
    let (c3, t3) = thirteen_orphans(&parse_hand("19m19s1p东南西北白白发发"), &[]).unwrap();
    assert_eq!(c3, 12);
    assert_eq!(t3[32], 2, "the first terminal or honor held twice is the pair");
    assert_eq!(t3[33], 1);
    let (c4, _) = bu_kao(&parse_hand("147m258s369p东南西北"), &[], false).unwrap();
    assert_eq!(c4, 13);
    assert!(bu_kao(&parse_hand("147m258s369p东南西"), &[], false).is_none());
}

#[test]
fn sets_and_filters() {
    assert_eq!(run(1, 3), [11, 12, 13]);
    assert_eq!(trip(2, 9), [26, 26, 26]);
    assert!(Filter::Tuibu.ok(33));
    assert!(!Filter::Tuibu.ok(32));
    assert!(Filter::Green.ok(32));
    assert!(Filter::Green.ok(9 + 5));
    assert!(!Filter::Green.ok(9 + 4));
    assert!(Filter::Mixed(1).ok(28));
    assert!(!Filter::Suit(1).ok(28));
    assert!(Filter::Mid.ok(4) && !Filter::Mid.ok(6));
}

#[test]
fn direction_strings() {
    let h = parse_hand("1122334455m678m");
    let ds = plan(&h, &[], 2);
    let d = ds.iter().find(|d| d.name == "七对").unwrap();
    assert_eq!(d.distance, 1);
    assert_eq!(d.drop_str(), "8万", "singles are taken in tile order: 6万 and 7万 make the pairs");
    assert!(!d.need_str().is_empty());
    let p = ds.iter().find(|d| d.name == "清一色(万门)").unwrap();
    assert_eq!(p.distance, 0);
    assert_eq!(p.drop_str(), "—");
}

#[test]
fn command_line() {
    assert!(matches!(parse_args(&args(&[])), Ok(Command::Help)));
    assert!(matches!(parse_args(&args(&["123m", "--help"])), Ok(Command::Help)));
    match parse_args(&args(&["123456789m", "11p", "--chi", "456s", "--ankan", "东", "--round", "south", "--seat", "W"])) {
        Ok(Command::Analyze(inv)) => {
            assert_eq!(total(&inv.hand), 11);
            assert_eq!(inv.melds.len(), 2);
            assert_eq!(inv.melds[0].kind, MeldKind::Chi);
            assert_eq!(inv.melds[0].tile, 12);
            assert_eq!(inv.melds[1].kind, MeldKind::Kan);
            assert!(!inv.melds[1].open);
            assert_eq!(inv.round, 28);
            assert_eq!(inv.seat, 29);
        },
        other => panic!("{:?}", other),
    }
    match parse_args(&args(&["123m", "--pon"])) {
        Err(ArgError::MissingValue(s)) => assert_eq!(s, "--pon"),
        other => panic!("{:?}", other),
    }
    match parse_args(&args(&["123m", "--seat"])) {
        Err(ArgError::MissingWind(s)) => assert_eq!(s, "--seat"),
        other => panic!("{:?}", other),
    }
    match parse_args(&args(&["123m", "--kan", "xyz"])) {
        Err(ArgError::EmptyMeld(s)) => assert_eq!(s, "--kan"),
        other => panic!("{:?}", other),
    }
    let many = "1".repeat(300) + "m";
    assert!(matches!(parse_args(&args(&[many.as_str()])), Err(ArgError::TooMany)));
}

#[test]
fn winds_and_words() {
    assert_eq!(wind_idx("东"), 27);
    assert_eq!(wind_idx("S"), 28);
    assert_eq!(wind_idx("west"), 29);
    assert_eq!(wind_idx("北"), 30);
    assert_eq!(wind_idx("?"), 27);
    assert!(same_text("中", "中"));
    assert!(!same_text("中", "中中"));
    assert_eq!(first_tile(&parse_hand("5p 9m")), Some(8));
    assert_eq!(first_tile(&counts()), None);
}

#[test]
fn triplets_list_their_tiles_at_any_index() {
    assert_eq!(Meld::pon(usize::MAX).tiles(), vec![usize::MAX; 3]);
    assert_eq!(Meld::kan(usize::MAX, true).tiles(), vec![usize::MAX; 4]);
    assert_eq!(Group::triplet(usize::MAX).tiles(), vec![usize::MAX; 3]);
}
