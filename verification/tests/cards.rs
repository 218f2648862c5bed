use puzzle_solvers::cards::{
    card_points, count_matches, count_matching, matching_numbers, numbers, total_cards,
    total_points,
};
use puzzle_solvers::text::to_chars;

const TABLE: &str = "Card 1: 41 48 83 86 17 | 83 86  6 31 17  9 48 53\nCard 2: 13 32 20 16 61 | 61 30 68 82 17 32 24 19\nCard 3:  1 21 53 59 44 | 69 82 63 72 16 21 14  1\nCard 4: 41 92 73 84 69 | 59 84 76 51 58  5 54 83\nCard 5: 87 83 26 28 32 | 88 30 70 12 93 22 82 36\nCard 6: 31 18 13 56 72 | 74 77 10 23 35 67 36 11\n";

#[test]
fn table_example() {
    let matches = count_matches(TABLE);
    assert_eq!(matches, vec![4, 2, 2, 1, 0, 0]);
    assert_eq!(total_points(&matches), Some(13));
    assert_eq!(total_cards(&matches), Some(30));
}

#[test]
fn numbers_stand_between_single_spaces() {
    assert_eq!(numbers(&to_chars(" 41 48  6 ")), vec![41, 48, 6]);
    assert_eq!(numbers(&to_chars("")), Vec::<u32>::new());
    assert_eq!(numbers(&to_chars("7")), vec![7]);
    assert_eq!(numbers(&to_chars("+7 -7 7a a 007")), vec![7, 7]);
    assert_eq!(numbers(&to_chars("1\t2 3")), vec![3]);
    assert_eq!(numbers(&to_chars("4294967295 4294967296 +")), vec![4294967295]);
}

#[test]
fn numbers_agree_with_the_parsing_of_std() {
    for text in ["", "+", "+0", "-0", "12", "+12", "1 2", "٣", "99999999999", "0000000000001"] {
        let expected: Vec<u32> = text.split(" ").filter_map(|n| n.parse::<u32>().ok()).collect();
        assert_eq!(numbers(&to_chars(text)), expected);
    }
}

#[test]
fn matching_counts_each_number_once() {
    assert_eq!(count_matching(&[1, 2, 3], &[3, 4, 1]), 2);
    assert_eq!(count_matching(&[1, 1, 1], &[1, 1]), 1);
    assert_eq!(count_matching(&[], &[1]), 0);
    assert_eq!(count_matching(&[5], &[]), 0);
}

#[test]
fn card_needs_colon_and_bar() {
    assert_eq!(matching_numbers(&to_chars("Card 1: 1 2 | 2 3")), Some(1));
    assert_eq!(matching_numbers(&to_chars("1 2 | 2 3")), None);
    assert_eq!(matching_numbers(&to_chars("Card 1: 1 2 2 3")), None);
    assert_eq!(matching_numbers(&to_chars("Card 1: 1 2 : 2 | 3")), None);
    assert_eq!(matching_numbers(&to_chars("Card 1: 1 2 | 2 3 | 1")), Some(1));
    assert_eq!(matching_numbers(&to_chars("Card 1: 1 2 | 2 3 : 1")), Some(1));
    assert_eq!(matching_numbers(&to_chars(":|")), Some(0));
    assert_eq!(matching_numbers(&to_chars("")), None);
}

#[test]
fn lines_that_are_no_cards_are_passed_over() {
    assert_eq!(count_matches(""), Vec::<usize>::new());
    assert_eq!(count_matches("\nCard 1: 1 | 1\n\nnothing\nCard 2: 1 | 2"), vec![1, 0]);
}

#[test]
fn carriage_return_before_line_feed_is_no_part_of_the_line() {
    assert_eq!(count_matches("Card 1: 1 | 1\r\nCard 2: 2 | 2\r\n"), vec![1, 1]);
    assert_eq!(count_matches("Card 1: 1 | 1\r"), vec![0]);
}

#[test]
fn points_double_with_each_match() {
    assert_eq!(card_points(0), Some(0));
    assert_eq!(card_points(1), Some(1));
    assert_eq!(card_points(2), Some(2));
    assert_eq!(card_points(3), Some(4));
    assert_eq!(card_points(4), Some(8));
    assert_eq!(card_points(usize::BITS as usize), Some(1 << (usize::BITS - 1)));
    assert_eq!(card_points(usize::BITS as usize + 1), None);
    assert_eq!(card_points(usize::MAX), None);
}

#[test]
fn points_are_summed() {
    assert_eq!(total_points(&[]), Some(0));
    assert_eq!(total_points(&[3, 0, 1]), Some(5));
    assert_eq!(total_points(&[1, 1000]), None);
    assert_eq!(total_points(&[usize::BITS as usize, usize::BITS as usize]), None);
}

#[test]
fn copies_stop_at_the_last_card() {
    assert_eq!(total_cards(&[]), Some(0));
    assert_eq!(total_cards(&[0, 0, 0]), Some(3));
    assert_eq!(total_cards(&[5]), Some(1));
    assert_eq!(total_cards(&[usize::MAX, usize::MAX, usize::MAX]), Some(7));
    assert_eq!(total_cards(&[1, 1, 1]), Some(6));
    assert_eq!(total_cards(&[2, 0, 0]), Some(5));
}

#[test]
fn too_many_cards_are_none() {
    let matches = vec![usize::MAX; usize::BITS as usize + 2];
    assert_eq!(total_cards(&matches), None);
    let fewer = vec![usize::MAX; usize::BITS as usize];
    assert_eq!(total_cards(&fewer), Some(usize::MAX));
}
