use poker_cfr::game::handeval;

#[test]
fn test_hand_eval() {
    let royal_flush = [52, 48, 44, 40, 36, 1, 5];
    let res1 = handeval::eval_7hand(royal_flush);
    assert_eq!(res1 >> 12, 9, "should be a royal flush");

    let four_aces = [49, 50, 51, 52, 45, 46, 1];
    let res2 = handeval::eval_7hand(four_aces);
    assert_eq!(res2 >> 12, 8, "Should be Four of a Kind");

    let aces_full_of_kings = [49, 50, 51, 45, 46, 1, 5];
    let res3 = handeval::eval_7hand(aces_full_of_kings);
    assert_eq!(res3 >> 12, 7, "Should be a Full House");

    let high_card = [21, 14, 11, 8, 1, 38, 32];
    let res4 = handeval::eval_7hand(high_card);
    assert_eq!(res4 >> 12, 1, "Should be High Card");
}

#[test]
fn table_lookup_follows_the_cards() {
    let mut hr = vec![0i32; 70];
    hr[54] = 10;
    hr[12] = 20;
    hr[23] = 30;
    hr[34] = 5;
    hr[10] = 40;
    hr[46] = 0;
    hr[7] = 12345;
    assert_eq!(handeval::eval_7hand_in_table(&hr, [1, 2, 3, 4, 5, 6, 7]), 12345);
    hr[7] = -3;
    assert_eq!(handeval::eval_7hand_in_table(&hr, [1, 2, 3, 4, 5, 6, 7]), -3);
}
