use poker_solver::poker::Hand;

#[test]
fn get_highest_card() {
    let hand1 = Hand::from("2s3c4hKsKcAdAs");
    let hand2 = Hand::from("KcAdAs");
    let hand3 = Hand::from("4hKs");
    assert_eq!(hand1.get_highest_card(3), hand2.mask);
    assert_eq!(hand1.get_highest_card_not_in(hand2.mask, 2), hand3.mask);
}

#[test]
fn merge() {
    let hand1 = Hand::from("2s3c4hKsKc");
    let hand2 = Hand::from("KcQsAcTs");
    let hand3 = Hand::from("2s3c4hKsKcQsAcTs");
    assert_eq!(hand1.merge(&hand2).mask, hand3.mask);
}

#[test]
fn overlap() {
    let hand1 = Hand::from("2s3c4hKsKc");
    let hand2 = Hand::from("KcQsAcTs");
    let hand3 = Hand::from("2d3d4dKdQd");
    assert!(hand1.overlap(&hand2));
    assert!(!hand1.overlap(&hand3));
    assert!(!hand2.overlap(&hand3));
}

#[test]
fn has_rank() {
    let hand = Hand::from("2s3c4hKsKc");
    assert_eq!(hand.has_rank(0), true);
    assert_eq!(hand.has_rank(8), false);
    assert_eq!(hand.has_rank(12), false);
}

#[test]
fn parse_qqqkk() {
    let output = Hand::from("QsQcQhKsKc");
    let expected = [40, 41, 43, 44, 45].into_iter().map(|x| 1 << x).sum();
    assert_eq!(output.mask, expected);
}

#[test]
fn parse_23456() {
    let output = Hand::from("2s3c4d5h6h");
    let expected = [0, 5, 10, 15, 19].into_iter().map(|x| 1 << x).sum();
    assert_eq!(output.mask, expected);
}

#[test]
fn parse_aaaaq() {
    let output = Hand::from("AsAcAdAhQh");
    let expected = [48, 49, 50, 51, 43].into_iter().map(|x| 1 << x).sum();
    assert_eq!(output.mask, expected);
}

#[test]
fn highcard_23456() {
    let output = Hand::from([0, 5, 10, 15, 19].into_iter().map(|x| 1 << x).sum::<u64>())
        .get_highest_card(2);
    let expected = [15, 19].iter().map(|x| 1 << x).sum();
    assert_eq!(output, expected);
}

#[test]
fn highcard_aaaaq() {
    let output = Hand::from(
        [48, 49, 50, 51, 43]
            .into_iter()
            .map(|x| 1 << x)
            .sum::<u64>(),
    )
    .get_highest_card(3);
    let expected = [49, 50, 51].iter().map(|x| 1 << x).sum();
    assert_eq!(output, expected);
}

#[test]
fn parse_ignores_trailing_character() {
    assert_eq!(Hand::from("AsK").mask, Hand::from("As").mask);
    assert_eq!(Hand::from("").mask, 0);
}

#[test]
fn parse_unknown_characters_read_as_lowest() {
    // An unknown rank reads as a two, an unknown suit as spades.
    assert_eq!(Hand::from("Xz").mask, Hand::from("2s").mask);
    assert_eq!(Hand::from("Ax").mask, 1u64 << 48);
}

#[test]
fn parse_repeated_card_counts_once() {
    let hand = Hand::from("AsAs");
    assert_eq!(hand.len(), 1);
}

#[test]
fn len_counts_cards() {
    assert_eq!(Hand::from("").len(), 0);
    assert_eq!(Hand::from("2s3c4hKsKc").len(), 5);
    assert_eq!(Hand::from_mask(u64::MAX).len(), 64);
}

#[test]
fn matches_is_subset() {
    let hand = Hand::from("AsAcKd");
    assert!(hand.matches(Hand::from("AsKd").mask));
    assert!(hand.matches(0));
    assert!(!hand.matches(Hand::from("AsAd").mask));
}

#[test]
fn highest_cards_round_trip() {
    for s in ["", "As", "2s3c4hKsKc", "AsAcAdAh2s3s4s", "2s3s4s5s6s7s8s9sTsJsQsKsAs"] {
        let hand = Hand::from_string(s);
        let n = hand.len() as usize;
        assert_eq!(hand.get_highest_card(n), hand.mask);
        assert_eq!(hand.get_highest_card(n + 3), hand.mask);
    }
}

#[test]
fn highest_cards_fewer_than_asked() {
    let hand = Hand::from("2s3c");
    assert_eq!(hand.get_highest_card(5), hand.mask);
    assert_eq!(hand.get_highest_card(0), 0);
    assert_eq!(hand.get_highest_card(1), Hand::from("3c").mask);
}
