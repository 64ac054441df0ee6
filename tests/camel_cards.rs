use aoc2023::camel_cards::{get_card_value, get_hand, get_hand_value, get_type_value, part1, part2};

fn get_part1_test_input() -> Vec<String> {
    vec![
        "32T3K 765".to_string(),
        "T55J5 684".to_string(),
        "KK677 28".to_string(),
        "KTJJT 220".to_string(),
        "QQQJA 483".to_string(),
    ]
}

#[test]
fn camel_part1() {
    assert_eq!(part1(get_part1_test_input()), Some(6440));
}

#[test]
fn camel_part2() {
    assert_eq!(part2(get_part1_test_input()), Some(5905));
}

#[test]
fn test_get_type_value() {
    assert_eq!(get_type_value(['A', 'A', 'A', 'A', 'A']), 7);
    assert_eq!(get_type_value(['A', 'A', '8', 'A', 'A']), 6);
    assert_eq!(get_type_value(['2', '3', '3', '3', '2']), 5);
    assert_eq!(get_type_value(['T', 'T', 'T', '9', '8']), 4);
    assert_eq!(get_type_value(['2', '3', '4', '3', '2']), 3);
    assert_eq!(get_type_value(['A', '2', '3', 'A', '4']), 2);
    assert_eq!(get_type_value(['2', '3', '4', '5', '6']), 1);
}

#[test]
fn test_get_card_value() {
    assert_eq!(get_card_value('A'), 14);
    assert_eq!(get_card_value('K'), 13);
    assert_eq!(get_card_value('Q'), 12);
    assert_eq!(get_card_value('J'), 11);
    assert_eq!(get_card_value('T'), 10);
    assert_eq!(get_card_value('9'), 9);
    assert_eq!(get_card_value('8'), 8);
    assert_eq!(get_card_value('7'), 7);
    assert_eq!(get_card_value('6'), 6);
    assert_eq!(get_card_value('5'), 5);
    assert_eq!(get_card_value('4'), 4);
    assert_eq!(get_card_value('3'), 3);
    assert_eq!(get_card_value('2'), 2);
}

#[test]
fn test_get_hand_value() {
    assert_eq!(get_hand_value(['A', 'A', 'A', 'A', 'A']), 71414141414);
    assert_eq!(get_hand_value(['A', 'A', '8', 'A', 'A']), 61414081414);
    assert_eq!(get_hand_value(['2', '3', '3', '3', '2']), 50203030302);
    assert_eq!(get_hand_value(['T', 'T', 'T', '9', '8']), 41010100908);
    assert_eq!(get_hand_value(['2', '3', '4', '3', '2']), 30203040302);
    assert_eq!(get_hand_value(['A', '2', '3', 'A', '4']), 21402031404);
    assert_eq!(get_hand_value(['2', '3', '4', '5', '6']), 10203040506);
}

#[test]
fn jokers_join_the_largest_group() {
    assert_eq!(get_type_value(['1', '1', '1', '1', '1']), 7);
    assert_eq!(get_type_value(['K', 'T', '1', '1', 'T']), 6);
    assert_eq!(get_type_value(['2', '2', '3', '3', '1']), 5);
}

#[test]
fn hands_read_from_lines() {
    let h = get_hand("KTJJT 220".to_string()).unwrap();
    assert_eq!(h.cards, ['K', 'T', 'J', 'J', 'T']);
    assert_eq!(h.bid, 220);
    assert!(get_hand("KTJJTQ 220".to_string()).is_none());
    assert!(get_hand("KTXJT 220".to_string()).is_none());
    assert!(get_hand("KTJJT".to_string()).is_none());
}

#[test]
fn equal_hands_keep_their_order() {
    assert_eq!(part1(vec!["22345 10".to_string(), "22345 1".to_string()]), Some(12));
}
