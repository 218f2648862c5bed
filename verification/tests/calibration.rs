use puzzle_solvers::calibration::{normalize_input, sum_of_calibration_value};

#[test]
fn digits_are_written_where_their_names_begin() {
    assert_eq!(normalize_input("two1nine\n"), "2wo19ine\n");
    assert_eq!(normalize_input("eightwothree"), "8igh2wo3hree");
    assert_eq!(normalize_input("zoneight234"), "z1n8ight234");
    assert_eq!(
        normalize_input("onetwothreefourfivesixseveneightnine"),
        "1ne2wo3hree4our5ive6ix7even8ight9ine"
    );
}

#[test]
fn text_without_names_stays() {
    assert_eq!(normalize_input(""), "");
    assert_eq!(normalize_input("on tw thre 12\n"), "on tw thre 12\n");
    assert_eq!(normalize_input("z\u{e9}ro\n"), "z\u{e9}ro\n");
}

#[test]
fn calibration_values_are_summed_line_by_line() {
    assert_eq!(
        sum_of_calibration_value("1abc2\npqr3stu8vwx\na1b2c3d4e5f\ntreb7uchet\n"),
        Some(142)
    );
}

#[test]
fn line_with_one_digit_counts_it_twice() {
    assert_eq!(sum_of_calibration_value("a7b\n"), Some(77));
}

#[test]
fn line_without_digit_is_worth_nothing() {
    assert_eq!(sum_of_calibration_value("abc\n\nxyz\n"), Some(0));
    assert_eq!(sum_of_calibration_value(""), Some(0));
}

#[test]
fn last_line_without_line_feed_is_not_counted() {
    assert_eq!(sum_of_calibration_value("12\n34"), Some(12));
    assert_eq!(sum_of_calibration_value("34"), Some(0));
}

#[test]
fn names_count_once_normalized() {
    let text = "two1nine\neightwothree\nabcone2threexyz\nxtwone3four\n4nineeightseven2\nzoneight234\n7pqrstsixteen\n";
    assert_eq!(sum_of_calibration_value(text), Some(209));
    assert_eq!(sum_of_calibration_value(&normalize_input(text)), Some(281));
}
