// Laws of the library checked on concrete hands.
use gbmj::calc::{analyze, winning_decomps, WaitResult};
use gbmj::decompose::decompose_standard;
use gbmj::fans::Fan;
use gbmj::model::Meld;
use gbmj::plan::{best_forced, best_standard, plan, run, seven_pairs, Filter};
use gbmj::decompose::Special;
use gbmj::tiles::{counts, parse_hand, to_tiles, total};

fn sum(v: &[Fan]) -> u32 {
    v.iter().map(|f| f.value).sum()
}

fn waits(hand: &str, melds: &[Meld]) -> Vec<WaitResult> {
    let c = parse_hand(hand);
    analyze(&c, melds, 27, 27).waits
}

#[test]
fn total_is_sum_of_listed_fans() {
    for (hand, melds) in [
        ("123456789m 55p 78p", vec![]),
        ("555m66s777p123m东东", vec![]),
        ("77s 东东", vec![Meld::chi(1), Meld::pon(22), Meld::pon(14)]),
        ("11m22m33m44m55m白白白", vec![]),
    ] {
        for w in waits(hand, &melds) {
            assert_eq!(w.normal, sum(&w.fans), "{} {:?}", hand, w.fans);
            assert_eq!(w.tsumo, sum(&w.fans_tsumo), "{} {:?}", hand, w.fans_tsumo);
        }
    }
}

#[test]
fn last_tile_adds_four() {
    for w in waits("123456789m 55p 78p", &[]) {
        assert_eq!(w.last, w.normal + 4);
        assert_eq!(w.tsumo_last, w.tsumo + 4);
    }
    // Self-drawn: always; on a discard the chicken hand is the exception.
    for w in waits("77s 东东", &[Meld::chi(1), Meld::pon(22), Meld::pon(14)]) {
        assert_eq!(w.tsumo_last, w.tsumo + 4);
    }
}

#[test]
fn best_points_are_the_highest() {
    // 555p666p777p 5556s + 7s reads as three chows (46 on a discard) or three
    // pungs (45): the best reading is kept.
    let ws = waits("555p666p777p 555s 6s", &[]);
    let w = ws.iter().find(|w| w.tile == 15).unwrap();
    assert_eq!(w.normal, 46);
    assert_eq!(w.tsumo, 48);
    let mut c = parse_hand("555p666p777p 555s 6s");
    c[15] += 1;
    assert_eq!(winning_decomps(&c, &[]).len(), 2);
}

#[test]
fn structural_waits_are_sorted_and_complete() {
    let c = parse_hand("1112345678999m");
    let an = analyze(&c, &[], 27, 27);
    assert_eq!(an.structural_waits, (0..9).collect::<Vec<usize>>());
    assert_eq!(an.waits.len(), an.structural_waits.len());
    for (w, &t) in an.waits.iter().zip(an.structural_waits.iter()) {
        assert_eq!(w.tile, t);
    }
    // A fifth copy is never tried: 1111m held, 1m is no wait.
    let c2 = parse_hand("1111234567899m");
    let an2 = analyze(&c2, &[], 27, 27);
    assert!(!an2.structural_waits.contains(&0));
}

#[test]
fn plan_is_sorted_unique_and_within_limit() {
    for hand in ["1122334455m678m", "11123456789m东东", "147m258s3p东南西北中发", "19m19s1p东南西北白白发发"] {
        let h = parse_hand(hand);
        let ds = plan(&h, &[], 2);
        for w in ds.windows(2) {
            assert!(
                w[0].distance < w[1].distance
                    || (w[0].distance == w[1].distance && w[0].value >= w[1].value),
                "{:?}",
                ds
            );
        }
        for (i, a) in ds.iter().enumerate() {
            assert!(a.distance <= 2);
            assert_eq!(a.drop.len() as u32, a.distance, "{:?}", a);
            for b in ds.iter().skip(i + 1) {
                assert_ne!(a.name, b.name);
            }
        }
    }
}

#[test]
fn standard_shape_needs_one_more_than_it_drops() {
    let h = parse_hand("11123456789m东东");
    let ds = plan(&h, &[], 3);
    for d in ds.iter().filter(|d| d.name.starts_with("清一色") || d.name.starts_with("混一色") || d.name == "碰碰和") {
        assert_eq!(d.need.len(), d.drop.len() + 1, "{:?}", d);
    }
}

#[test]
fn best_cover_is_optimal() {
    // A waiting hand is covered to its last tile by some standard shape.
    let h = parse_hand("123456789m 55p 78p");
    let (cov, target) = best_standard(&h, &[], Filter::Any, true, false).unwrap();
    assert_eq!(cov, 13);
    assert_eq!(total(&target), 14);
    // With the straight forced the cover stays 13; forcing a pure triple
    // chow of 123m leaves one more set and the pair: 3 + 3 + 2.
    let (c2, _) = best_forced(&h, &[], Filter::Any, true, false, &[run(0, 1), run(0, 4), run(0, 7)], None).unwrap();
    assert_eq!(c2, 13);
    let (c3, _) = best_forced(&h, &[], Filter::Any, true, false, &[run(0, 1), run(0, 1), run(0, 1)], None).unwrap();
    assert_eq!(c3, 8);
}

#[test]
fn listed_tiles_keep_every_count() {
    let c = parse_hand("1122m 999s 东东东 白");
    let v = to_tiles(&c);
    let mut back = counts();
    for t in v.iter() {
        back[*t] += 1;
    }
    assert_eq!(back, c);
    assert!(v.windows(2).all(|w| w[0] <= w[1]));
}

#[test]
fn decomposition_sets_and_pair_use_every_tile() {
    let c = parse_hand("111222333m 456p 77s");
    let ds = decompose_standard(&c, 4);
    assert_eq!(ds.len(), 2);
    for d in ds.iter() {
        let mut back = counts();
        back[d.pair.unwrap()] += 2;
        for g in d.sets.iter() {
            for t in g.tiles() {
                back[t] += 1;
            }
        }
        assert_eq!(back, c);
    }
}

fn check_one_more(hand: &str, melds: &[Meld]) {
    let h = parse_hand(hand);
    let ds = plan(&h, melds, 14);
    for d in ds.iter() {
        assert_eq!(d.need.len() as u32, d.distance + 1, "{} {:?}", hand, d);
        assert_eq!(d.drop.len() as u32, d.distance, "{} {:?}", hand, d);
        assert!(d.need.windows(2).all(|w| w[0] <= w[1]), "{:?}", d);
        assert!(d.drop.windows(2).all(|w| w[0] <= w[1]), "{:?}", d);
        assert!(d.need.iter().all(|t| !d.drop.contains(t)), "{:?}", d);
    }
}

#[test]
fn every_direction_draws_one_more_than_it_discards() {
    check_one_more("1111m2222m333m44m", &[]);
    check_one_more("1122334455m678m", &[]);
    check_one_more("147m258s3p东南西北中发", &[]);
    assert!(!plan(&parse_hand("1111m2222m333m44m"), &[], 14).is_empty());
    check_one_more("19m19s1p东南西北白白发发", &[]);
    check_one_more("147m258s369p7s", &[Meld::pon(27)]);
    check_one_more("77s 东东", &[Meld::chi(1), Meld::pon(22), Meld::pon(14)]);
    check_one_more("5m", &[Meld::chi(1), Meld::pon(22), Meld::pon(14), Meld::pon(30)]);
}

#[test]
fn seven_pairs_counts_four_of_a_kind_as_two_pairs() {
    // Two quads, a triplet and a pair: the triplet becomes four of a kind,
    // so the hand waits on 3m for seven pairs.
    let h = parse_hand("1111m2222m333m44m");
    let (c, t) = seven_pairs(&h, &[]).unwrap();
    assert_eq!(c, 13);
    assert_eq!(total(&t), 14);
    assert!(t.iter().all(|&n| n % 2 == 0));
    let ds = plan(&h, &[], 2);
    let d = ds.iter().find(|d| d.name == "七对").unwrap();
    assert_eq!(d.distance, 0);
    assert_eq!(d.need, vec![2]);
    assert!(d.drop.is_empty());
}

#[test]
fn winning_interpretations_are_what_they_claim() {
    let melds = [Meld::pon(27)];
    let c = parse_hand("123m 456m 789m 55p");
    let ds = winning_decomps(&c, &melds);
    assert!(!ds.is_empty());
    for d in ds.iter() {
        assert!(d.special.is_none());
        let p = d.pair.unwrap();
        assert!(c[p] >= 2);
        assert_eq!(d.sets.len(), 4);
        assert_eq!(d.sets[0].tile, 27);
        let mut back = counts();
        back[p] += 2;
        for g in d.sets.iter().skip(1) {
            for t in g.tiles() {
                back[t] += 1;
            }
        }
        assert_eq!(back, c);
    }
    let s = winning_decomps(&parse_hand("1133557799m 11s 77s"), &[]);
    assert!(s.iter().any(|d| d.special == Some(Special::SevenPairs)));
    assert!(winning_decomps(&parse_hand("1133557799m 11s 77s"), &[Meld::pon(27)])
        .iter()
        .all(|d| d.special.is_none()));
}

#[test]
fn decompositions_are_listed_once() {
    let c = parse_hand("111222333m 444m 55m");
    let ds = decompose_standard(&c, 4);
    assert!(ds.len() >= 2);
    for (i, a) in ds.iter().enumerate() {
        for b in ds.iter().skip(i + 1) {
            assert!(a.pair != b.pair || a.sets != b.sets, "{:?} {:?}", a, b);
        }
    }
}

#[test]
fn seven_pairs_takes_a_triplet_as_two_pairs() {
    // Four triplets and a single: the four triplets give pairs, the single a
    // pair; the two slots left make two triplets four of a kind (one tile to
    // draw each).
    let h = parse_hand("111m222m333m444m5m");
    let (c, t) = seven_pairs(&h, &[]).unwrap();
    assert_eq!(c, 11);
    assert_eq!((t[0], t[1], t[2], t[3], t[4]), (4, 4, 2, 2, 2));
    let ds = plan(&h, &[], 3);
    let d = ds.iter().find(|d| d.name == "七对").unwrap();
    assert_eq!(d.distance, 2);
    assert_eq!(d.need, vec![0, 1, 4]);
    assert_eq!(d.drop, vec![2, 3]);
}

#[test]
fn seven_pairs_pairs_single_tiles_before_triplets() {
    // Five pairs, a triplet and two singles: the singles get the last two
    // pairs; the triplet keeps one pair.
    let h = parse_hand("111m22m33m44m55m6m7m");
    let ds = plan(&h, &[], 2);
    let d = ds.iter().find(|d| d.name == "七对").unwrap();
    assert_eq!(d.distance, 1);
    assert_eq!(d.need, vec![5, 6]);
    assert_eq!(d.drop, vec![0]);
}

#[test]
fn decompositions_may_repeat_a_set_list_in_another_order() {
    // 1111m 2m 3m beside the pair 55m: the triplet first or the run first,
    // as the search tries both (the same sets, in two orders).
    let c = parse_hand("111123m55m");
    let ds = decompose_standard(&c, 2);
    assert_eq!(ds.len(), 2);
    assert_eq!(ds[0].pair, Some(4));
    assert_eq!(ds[1].pair, Some(4));
    assert_eq!(ds[0].sets[0].tile, 0);
    assert_eq!(ds[0].sets[1].tile, 0);
    assert_ne!(ds[0].sets[0].kind, ds[1].sets[0].kind);
}
