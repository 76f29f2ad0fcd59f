use poker_solver::poker::{Evaluator, Hand};
use std::cmp::Ordering;

#[test]
fn pattern_array_check() {
    let evaluator = Evaluator::new();
    assert_eq!(evaluator.pattern_count(0), 40);
    assert_eq!(evaluator.pattern_count(1), 13);
    assert_eq!(evaluator.pattern_count(2), 3744);
    assert_eq!(evaluator.pattern_count(3), 5148);
    // 1020 mixed-suit assignments of each of the 10 straights.
    assert_eq!(evaluator.pattern_count(4), 10200);
    assert_eq!(evaluator.pattern_count(5), 52);
    assert_eq!(evaluator.pattern_count(6), 2808);
    assert_eq!(evaluator.pattern_count(7), 78);
}

#[test]
fn straight_flush_check() {
    let mut evaluator = Evaluator::new();
    let input = &Hand::from("AsKsQsJsTs");
    let output = evaluator.get_strongest_5(&input);
    assert!(matches!(output, (0, 0, _)));
    let input = &Hand::from("KsQsJsTs9s");
    let output = evaluator.get_strongest_5(&input);
    assert!(matches!(output, (0, 1, _)));
}

#[test]
fn quad_check() {
    let mut evaluator = Evaluator::new();
    let input = &Hand::from("AsAcAdAh2s");
    let output = evaluator.get_strongest_5(&input);
    assert!(matches!(output, (1, 0, _)));
    let input = &Hand::from("KsKcKdKh6d");
    let output = evaluator.get_strongest_5(&input);
    assert!(matches!(output, (1, 1, _)));
}

#[test]
fn full_house_check() {
    let mut evaluator = Evaluator::new();
    let input = &Hand::from("AsAcAdKhKs");
    let output = evaluator.get_strongest_5(&input);
    assert!(matches!(output, (2, 0, _)));
    let input = &Hand::from("AsAcAdQhQs");
    let output = evaluator.get_strongest_5(&input);
    assert!(matches!(output, (2, 1, _)));
}

#[test]
fn flush_check() {
    let mut evaluator = Evaluator::new();
    let input = &Hand::from("As2s6sTs4s");
    let output = evaluator.get_strongest_5(&input);
    assert!(matches!(output, (3, _, _)));
}

#[test]
fn straight_check() {
    let mut evaluator = Evaluator::new();
    let input = &Hand::from("As2c3d4h5d");
    let output = evaluator.get_strongest_5(&input);
    assert!(matches!(output, (4, _, _)));
    let input = &Hand::from("2c3d4h5d6s");
    let output = evaluator.get_strongest_5(&input);
    assert!(matches!(output, (4, _, _)));
}

#[test]
fn trip_check() {
    let mut evaluator = Evaluator::new();
    let input = &Hand::from("AsAcAd");
    let output = evaluator.get_strongest_5(&input);
    assert!(matches!(output, (5, 0, _)));
    let input = &Hand::from("KsKcKd");
    let output = evaluator.get_strongest_5(&input);
    assert!(matches!(output, (5, 1, _)));
}

#[test]
fn pair2_check() {
    let mut evaluator = Evaluator::new();
    let input = &Hand::from("AsAcKdKh");
    let ouput = evaluator.get_strongest_5(&input);
    assert!(matches!(ouput, (6, 0, _)));
}

#[test]
fn pair_check() {
    let mut evaluator = Evaluator::new();
    let input = &Hand::from("AsAc");
    let output = evaluator.get_strongest_5(&input);
    assert!(matches!(output, (7, _, _)));
    let input = &Hand::from("2s2c");
    let output = evaluator.get_strongest_5(&input);
    assert!(matches!(output, (7, _, _)));
}

#[test]
fn high_card_check() {
    let mut evaluator = Evaluator::new();
    let input = &Hand::from("AsKc5s8d9d");
    let output = evaluator.get_strongest_5(&input);
    assert!(matches!(output, (8, _, _)));
}

#[test]
fn aaaa_vs_kkkk() {
    let mut evaluator = Evaluator::new();
    let output =
        evaluator.compare(&Hand::from("AsAcKdKhKsAdAh"), &Hand::from("AsAcKdKhKsKc3d"));
    assert_eq!(output, Ordering::Greater);
}

#[test]
fn aaaaq_vs_aaaak() {
    let mut evaluator = Evaluator::new();
    let output =
        evaluator.compare(&Hand::from("AsAcAdAhQh3s4s"), &Hand::from("AsAcAdAhQhKh3d"));
    assert_eq!(output, Ordering::Less);
}

#[test]
fn _34567_vs_flush() {
    let mut evaluator = Evaluator::new();
    let output =
        evaluator.compare(&Hand::from("5d6d7hJd4c3sJc"), &Hand::from("5d6d7hJd4cTdKd"));
    assert_eq!(output, Ordering::Less);
}

#[test]
fn _34567_vs_56789() {
    let mut evaluator = Evaluator::new();
    let output =
        evaluator.compare(&Hand::from("5s6d7h3d4cTdJc"), &Hand::from("5s6d7h9c8cTdJc"));
    assert_eq!(output, Ordering::Less);
}

#[test]
fn _333kk_vs_333kk() {
    let mut evaluator = Evaluator::new();
    let output =
        evaluator.compare(&Hand::from("3s3d3hKdKc6d9c"), &Hand::from("3s3d3hKhKs6d9c"));
    assert_eq!(output, Ordering::Equal);
}

#[test]
fn pair_vs_pair2() {
    let mut evaluator = Evaluator::new();
    let output =
        evaluator.compare(&Hand::from("2s4d5h8dTc4d5c"), &Hand::from("2s4d5h8hTs6d2c"));
    assert_eq!(output, Ordering::Greater);
}

#[test]
fn pair_vs_high_card() {
    let mut evaluator = Evaluator::new();
    let output =
        evaluator.compare(&Hand::from("2s4d5h8dTcAdKc"), &Hand::from("2s4d5h8hTs6d2c"));
    assert_eq!(output, Ordering::Less);
}

#[test]
fn high_card_vs_high_card() {
    let mut evaluator = Evaluator::new();
    let output =
        evaluator.compare(&Hand::from("2s4d5h8dTcAdKc"), &Hand::from("2s4d5h8hTs6d9c"));
    assert_eq!(output, Ordering::Greater);
}

#[test]
fn category_order_is_total() {
    // One hand of each category, strongest first.
    let hands = [
        "9h8h7h6h5h2c3d",
        "QsQcQdQh2c3d5h",
        "JsJcJd4h4c2d8s",
        "Ks9s6s4s2s3c7d",
        "9c8d7h6s5c2d2h",
        "7s7c7d2h4c9dKs",
        "8s8c5d5h2cKdAs",
        "6s6c2d4h9cJdKs",
        "2s4c6d8hTcQdAs",
    ];
    let mut evaluator = Evaluator::new();
    for (i, h) in hands.iter().enumerate() {
        let output = evaluator.get_strongest_5(&Hand::from(*h));
        assert_eq!(output.0, i);
    }
    for i in 0..hands.len() {
        for j in 0..hands.len() {
            let expected = j.cmp(&i);
            let output = evaluator.compare(&Hand::from(hands[i]), &Hand::from(hands[j]));
            assert_eq!(output, expected);
        }
    }
}

#[test]
fn compare_is_antisymmetric_and_reflexive() {
    let hands = ["AsAcKdKhKsAdAh", "2s4d5h8dTc4d5c", "5d6d7hJd4cTdKd", "2s4d5h8hTs6d9c", "3s3d3hKhKs6d9c"];
    let mut evaluator = Evaluator::new();
    for a in hands {
        let ha = Hand::from(a);
        assert_eq!(evaluator.compare(&ha, &ha), Ordering::Equal);
        for b in hands {
            let hb = Hand::from(b);
            let ab = evaluator.compare(&ha, &hb);
            let ba = evaluator.compare(&hb, &ha);
            assert_eq!(ab, ba.reverse());
        }
    }
}

#[test]
fn wheel_is_lowest_straight() {
    let mut evaluator = Evaluator::new();
    let wheel = evaluator.get_strongest_5(&Hand::from("As2c3d4h5d"));
    let six_high = evaluator.get_strongest_5(&Hand::from("2c3d4h5d6s"));
    assert_eq!(wheel.0, 4);
    assert_eq!(six_high.0, 4);
    assert_eq!(wheel.1, 9);
    assert_eq!(six_high.1, 8);
}

#[test]
fn evaluation_matched_pattern() {
    let mut evaluator = Evaluator::new();
    // A royal flush gives its own five cards.
    let output = evaluator.get_strongest_5(&Hand::from("AsKsQsJsTs9d2c"));
    assert_eq!(output, (0, 0, Hand::from("AsKsQsJsTs").mask));
    // A pair of aces gives the two aces.
    let output = evaluator.get_strongest_5(&Hand::from("AsAc2d7h9cJdKs"));
    assert_eq!(output, (7, 0, Hand::from("AsAc").mask));
    // High card keeps the five best cards.
    let output = evaluator.get_strongest_5(&Hand::from("2s4c6d8hTcQdAs"));
    assert_eq!(output, (8, 0, Hand::from("6d8hTcQdAs").mask));
    // An empty hand is the weakest result.
    let output = evaluator.get_strongest_5(&Hand::from(""));
    assert_eq!(output, (8, 0, 0));
}

#[test]
fn kickers_decide_within_a_pair() {
    let mut evaluator = Evaluator::new();
    // Same pair; the third kicker decides (9 against 8).
    let a = Hand::from("AsAc2d7h9cJdKs");
    let b = Hand::from("AdAh2c7s8cJcKd");
    assert_eq!(evaluator.compare(&a, &b), Ordering::Greater);
    // Kickers beyond the best five do not count.
    let c = Hand::from("AsAc2d3h9cJdKs");
    assert_eq!(evaluator.compare(&a, &c), Ordering::Equal);
}

#[test]
fn compare_high_card_by_rank() {
    let a = Hand::from("AsKd");
    let b = Hand::from("AcQd");
    assert_eq!(Evaluator::compare_high_card(&a, &b), Ordering::Greater);
    assert_eq!(Evaluator::compare_high_card(&b, &a), Ordering::Less);
    assert_eq!(Evaluator::compare_high_card(&a, &Hand::from("AhKs")), Ordering::Equal);
}

#[test]
fn evaluate_is_stable_across_cache() {
    let mut evaluator = Evaluator::new();
    let hand = Hand::from("QsQcQhKsKc2d3d");
    let first = evaluator.get_strongest_5(&hand);
    let second = evaluator.get_strongest_5(&hand);
    assert_eq!(first, second);
    assert_eq!(first.0, 2);
}
