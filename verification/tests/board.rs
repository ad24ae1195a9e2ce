// The input panel driven by clicks, as a graphical front end drives it.
use gbmj::board::{meld_label, tsumo_differs, wait_mark, Board, MeldMode};
use gbmj::calc::analyze;
use gbmj::tiles::parse_hand;
use gbmj::model::{Meld, MeldKind};
use gbmj::tiles::total;

#[test]
fn clicks_declare_melds_and_reset_the_mode() {
    let mut b = Board::new();
    b.toggle_mode(MeldMode::Pon);
    b.click_tile(20);
    assert_eq!(b.mode, MeldMode::Plain);
    b.toggle_mode(MeldMode::Chi);
    b.click_tile(9);
    b.click_tile(10);
    assert_eq!(b.pending_chi, vec![9, 10]);
    b.click_tile(11);
    assert_eq!(b.mode, MeldMode::Plain);
    b.toggle_mode(MeldMode::MingKan);
    b.click_tile(26);
    assert_eq!(b.mode, MeldMode::Plain);
    assert_eq!(b.melds.len(), 3);
    assert_eq!(b.melds[0].kind, MeldKind::Pon);
    assert_eq!(b.melds[1].kind, MeldKind::Chi);
    assert_eq!(b.melds[1].tile, 9);
    assert!(b.melds[2].open);
    assert_eq!(b.used(26), 4);
    assert_eq!(b.expected_hidden(), 4);
    assert!(b.hint.is_empty());
}

#[test]
fn a_fifth_copy_is_refused() {
    let mut b = Board::new();
    for _ in 0..4 {
        b.click_tile(0);
    }
    assert_eq!(b.hand[0], 4);
    b.click_tile(0);
    assert_eq!(b.hand[0], 4);
    assert_eq!(b.hint, "1万 已用满 4 张");
    b.toggle_mode(MeldMode::Pon);
    b.click_tile(0);
    assert_eq!(b.hint, "碰 1万 会超过 4 张上限");
    assert_eq!(b.mode, MeldMode::Pon);
    b.toggle_mode(MeldMode::Pon);
    assert_eq!(b.mode, MeldMode::Plain);
    b.toggle_mode(MeldMode::AnKan);
    b.click_tile(1);
    b.click_tile(2);
    b.toggle_mode(MeldMode::AnKan);
    b.click_tile(1);
    assert_eq!(b.hint, "杠 2万 会超过 4 张上限");
}

#[test]
fn a_chi_must_be_a_run() {
    let mut b = Board::new();
    b.toggle_mode(MeldMode::Chi);
    b.click_tile(8);
    b.click_tile(9);
    b.click_tile(10);
    assert_eq!(b.hint, "吃：需同花色三张连续（如 2万3万4万）");
    assert!(b.pending_chi.is_empty());
    assert!(b.melds.is_empty());
    // Picked in any order.
    b.click_tile(13);
    b.click_tile(11);
    b.click_tile(12);
    assert_eq!(b.melds.len(), 1);
    assert_eq!(b.melds[0].tile, 11);
}

#[test]
fn confirm_analyzes_a_ready_hand() {
    let mut b = Board::new();
    assert!(b.confirm().is_none());
    assert!(b.dirty);
    for t in [0, 1, 2, 3, 4, 5, 6, 7, 8, 22, 22, 24, 25] {
        b.click_tile(t);
    }
    assert_eq!(total(&b.hand), 13);
    assert!(b.ready());
    let an = b.confirm().unwrap();
    assert!(!b.dirty);
    assert_eq!(an.structural_waits, vec![23, 26]);
    b.set_round(28);
    assert!(b.dirty);
    b.remove_tile(0);
    assert!(!b.ready());
    b.clear();
    assert_eq!(total(&b.hand), 0);
}

#[test]
fn removing_a_meld() {
    let mut b = Board::new();
    b.toggle_mode(MeldMode::Pon);
    b.click_tile(5);
    b.remove_meld(0);
    assert!(b.melds.is_empty());
    assert_eq!(b.used(5), 0);
}

#[test]
fn meld_labels() {
    assert_eq!(meld_label(&Meld::chi(9)), "吃 1条2条3条");
    assert_eq!(meld_label(&Meld::pon(27)), "碰 东×3");
    assert_eq!(meld_label(&Meld::kan(33, true)), "明杠 白×4");
    assert_eq!(meld_label(&Meld::kan(33, false)), "暗杠 白×4");
}

#[test]
fn self_drawn_list_shown_only_when_it_differs() {
    let an = analyze(&parse_hand("555m66s777p123m东东"), &[], 27, 27);
    let w = an.waits.iter().find(|w| w.tile == 14).unwrap();
    assert!(tsumo_differs(w));
    let an2 = analyze(&parse_hand("123456789m 55p 78p"), &[], 27, 27);
    assert!(!tsumo_differs(&an2.waits[0]));
}

#[test]
fn wait_marks() {
    let an = analyze(&parse_hand("77s 东东"), &[Meld::chi(1), Meld::pon(22), Meld::pon(14)], 27, 27);
    let w = an.waits.iter().find(|w| w.tile == 15).unwrap();
    assert_eq!(wait_mark(w), "");
    let mut short = w.clone();
    short.normal = 0;
    short.tsumo = 0;
    short.last = 0;
    short.tsumo_last = 0;
    assert_eq!(wait_mark(&short), "（不足 8 番）");
    short.last = 8;
    assert_eq!(wait_mark(&short), "（仅绝张可和）");
    short.last = 0;
    short.tsumo = 9;
    assert_eq!(wait_mark(&short), "（仅自摸可和）");
}
