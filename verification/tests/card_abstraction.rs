use gto_solver::card_abstraction::{build_preflop_groups, classify_preflop, HandGroup};

#[test]
fn aa_is_pair_group_id() {
    assert_eq!(classify_preflop(&[12 * 4, 12 * 4 + 1]), 0);
    assert_eq!(build_preflop_groups()[0], [12 * 4, 12 * 4 + 1]);
}

#[test]
fn aks_is_suited_group_id() {
    assert_eq!(classify_preflop(&[12 * 4, 11 * 4]), 13);
    assert_eq!(build_preflop_groups()[13], [12 * 4, 11 * 4]);
}

#[test]
fn ako_is_offsuit_group_id() {
    assert_eq!(classify_preflop(&[12 * 4, 11 * 4 + 1]), 91);
    assert_eq!(build_preflop_groups()[91], [12 * 4, 11 * 4 + 1]);
}

#[test]
fn all_cards_map_into_169_groups() {
    let mut seen = [false; 169];
    for a in 0u8..52 {
        for b in (a + 1)..52 {
            seen[classify_preflop(&[a, b]) as usize] = true;
        }
    }

    assert!(seen.iter().all(|&present| present));
}

#[test]
fn every_representative_hand_is_in_its_group() {
    let groups = build_preflop_groups();
    assert_eq!(groups.len(), 169);
    for (g, hand) in groups.iter().enumerate() {
        assert_eq!(classify_preflop(hand) as usize, g);
        assert!(hand[0] < 52 && hand[1] < 52 && hand[0] != hand[1]);
    }
}

#[test]
fn classification_ignores_card_order() {
    for a in 0u8..52 {
        for b in 0u8..52 {
            if a != b {
                assert_eq!(classify_preflop(&[a, b]), classify_preflop(&[b, a]));
            }
        }
    }
}

#[test]
fn small_hands_have_the_last_groups() {
    // 2-2 is the last pair, 3-2 suited and offsuit the last unpaired hands.
    assert_eq!(classify_preflop(&[0, 1]), 12);
    assert_eq!(classify_preflop(&[4, 0]), 90);
    assert_eq!(classify_preflop(&[4, 1]), 168);
    // A-Q suited comes right after A-K suited.
    assert_eq!(classify_preflop(&[12 * 4 + 2, 10 * 4 + 2]), 14);
    // K-Q suited comes after all suited aces.
    assert_eq!(classify_preflop(&[11 * 4, 10 * 4]), 25);
    let group = HandGroup { group_id: 0, hand: [48, 49] };
    assert_eq!(group.hand, [48, 49]);
}
