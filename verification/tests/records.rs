use puzzle_solvers::record_parser::{
    parse, parse_cube, parse_decimal, parse_game, parse_observation, ParseError, ParseErrorKind,
};
use puzzle_solvers::records::{
    max, min_possible, possible, sum_of_possible_ids, sum_of_powers, Color, Game, Observation,
};

fn seen(red: Option<usize>, green: Option<usize>, blue: Option<usize>) -> Observation {
    Observation { red, green, blue }
}

#[test]
fn test_max() {
    assert_eq!(max(&vec![Some(1)]), Some(1));
    assert_eq!(max(&vec![None]), None);
    assert_eq!(max(&vec![]), None);
    assert_eq!(max(&vec![Some(1), Some(2), None, Some(0)]), Some(2));
}

#[test]
fn test_parse() {
    let game1 = "Record 1: 10 red, 3 green; 20 blue; 50 green";
    let game2 = "Record 2: 5 green, 20 red, 30 blue; 6 red, 7 green; 90 blue";
    let games = format!("{}\n{}", game1, game2);
    assert_eq!(
        parse(&games).unwrap(),
        vec![parse_game(&game1).unwrap().1, parse_game(&game2).unwrap().1,]
    );
}

#[test]
fn test_parse_game() {
    assert_eq!(
        parse_game("Record 1:").unwrap().1,
        Game {
            id: 1,
            observations: vec![]
        }
    );

    assert_eq!(
        parse_game("Record 1 : ").unwrap().1,
        Game {
            id: 1,
            observations: vec![]
        }
    );

    assert_eq!(
        parse_game("Record 1 : 10 red").unwrap().1,
        Game {
            id: 1,
            observations: vec![Observation {
                red: Some(10),
                blue: None,
                green: None,
            }]
        }
    );

    assert_eq!(
        parse_game("Record 1 : 10 red ; 20 green ; 30 blue").unwrap().1,
        Game {
            id: 1,
            observations: vec![
                Observation {
                    red: Some(10),
                    blue: None,
                    green: None,
                },
                Observation {
                    red: None,
                    blue: None,
                    green: Some(20),
                },
                Observation {
                    red: None,
                    blue: Some(30),
                    green: None,
                }
            ]
        }
    );

    assert_eq!(
        parse_game("Record 1 : 10 red ; 20 green, 30 red, 5 blue; 30 blue")
            .unwrap()
            .1,
        Game {
            id: 1,
            observations: vec![
                Observation {
                    red: Some(10),
                    blue: None,
                    green: None,
                },
                Observation {
                    red: Some(30),
                    blue: Some(5),
                    green: Some(20),
                },
                Observation {
                    red: None,
                    blue: Some(30),
                    green: None,
                }
            ]
        }
    );
}

#[test]
fn test_parse_observation() {
    assert_eq!(
        parse_observation("10 red ,20 green, 30 blue").unwrap().1,
        Observation {
            red: Some(10),
            blue: Some(30),
            green: Some(20)
        }
    );

    assert_eq!(
        parse_observation("10 red, 20 green").unwrap().1,
        Observation {
            red: Some(10),
            blue: None,
            green: Some(20)
        }
    );

    assert_eq!(
        parse_observation("20 green").unwrap().1,
        Observation {
            red: None,
            blue: None,
            green: Some(20)
        }
    );

    assert_eq!(
        parse_observation("20 green,").unwrap().1,
        Observation {
            red: None,
            blue: None,
            green: Some(20)
        }
    );

    assert_eq!(
        parse_observation("20 green;").unwrap().1,
        Observation {
            red: None,
            blue: None,
            green: Some(20)
        }
    );
}

fn cube(input: &str) -> (usize, &'static str) {
    let (count, color) = parse_cube(input, Color::Red).unwrap().1;
    (count, color.name())
}

#[test]
fn test_parse_cube() {
    assert_eq!(cube("10 red"), (10, "red"));
    assert_eq!(cube("20 red "), (20, "red"));
    assert_eq!(cube("30 red;"), (30, "red"));
    assert_eq!(cube("40 red,"), (40, "red"));
}

#[test]
fn test_parse_decimal() {
    assert_eq!(parse_decimal("0").unwrap().1, 0);
    assert_eq!(parse_decimal("1").unwrap().1, 1);
    assert_eq!(parse_decimal("10").unwrap().1, 10);
    assert_eq!(parse_decimal("1_0").unwrap().1, 10);
    assert_eq!(parse_decimal("1_0_").unwrap().1, 10);
}

#[test]
fn parsers_hand_back_what_they_did_not_read() {
    assert_eq!(parse_decimal("1_0_ red"), Ok((" red", 10)));
    assert_eq!(parse_cube("30 red;", Color::Red), Ok((";", (30, Color::Red))));
    assert_eq!(parse_cube("7green  , 2 red", Color::Green), Ok((", 2 red", (7, Color::Green))));
    assert_eq!(
        parse_observation("20 green, 3 purple"),
        Ok((", 3 purple", seen(None, Some(20), None)))
    );
    assert_eq!(
        parse_observation("20 green;"),
        Ok((";", seen(None, Some(20), None)))
    );
    assert_eq!(
        parse_game("Record 12:\t4 blue ; x"),
        Ok((
            "; x",
            Game {
                id: 12,
                observations: vec![seen(None, None, Some(4))]
            }
        ))
    );
    assert_eq!(
        parse_game("Record 3: 5 purple"),
        Ok((
            "5 purple",
            Game {
                id: 3,
                observations: vec![]
            }
        ))
    );
}

#[test]
fn group_fields_are_the_counts_written() {
    assert_eq!(
        parse_observation("10 red, 20 green").unwrap().1,
        seen(Some(10), Some(20), None)
    );
    assert_eq!(
        parse_observation("0 blue").unwrap().1,
        seen(None, None, Some(0))
    );
    assert_eq!(
        parse_observation("1 blue, 2 green, 3 red").unwrap().1,
        seen(Some(3), Some(2), Some(1))
    );
}

#[test]
fn later_count_of_a_colour_replaces_the_earlier() {
    assert_eq!(
        parse_observation("1 red, 2 red").unwrap().1,
        seen(Some(2), None, None)
    );
}

#[test]
fn every_error_kind_has_its_input() {
    let error = |position, kind| ParseError { position, kind };
    assert_eq!(
        parse_game("Game 1: 3 red").err(),
        Some(error(0, ParseErrorKind::ExpectedKeyword))
    );
    assert_eq!(
        parse_game("Record x: 3 red").err(),
        Some(error(7, ParseErrorKind::ExpectedNumber))
    );
    assert_eq!(
        parse_game("Record 1  3 red").err(),
        Some(error(10, ParseErrorKind::ExpectedColon))
    );
    assert_eq!(
        parse_cube("3  purple", Color::Blue).err(),
        Some(error(3, ParseErrorKind::ExpectedColor))
    );
    assert_eq!(
        parse_observation("3 purple").err(),
        Some(error(2, ParseErrorKind::ExpectedColor))
    );
    assert_eq!(
        parse_decimal("_1").err(),
        Some(error(0, ParseErrorKind::ExpectedNumber))
    );
    assert_eq!(
        parse_decimal("").err(),
        Some(error(0, ParseErrorKind::ExpectedNumber))
    );
    assert_eq!(
        parse_decimal("99999999999999999999999999999999999999999").err(),
        Some(error(0, ParseErrorKind::NumberTooLarge))
    );
    assert_eq!(
        parse("Record 1: 3 red, 4 purple\n").err(),
        Some(error(15, ParseErrorKind::ExpectedLineEnd))
    );
}

#[test]
fn largest_number_is_read() {
    let text = format!("{}", usize::MAX);
    assert_eq!(parse_decimal(&text), Ok(("", usize::MAX)));
}

#[test]
fn whole_text_must_be_records() {
    assert_eq!(parse(""), Ok(vec![]));
    assert_eq!(
        parse("Record 1:\n"),
        Ok(vec![Game {
            id: 1,
            observations: vec![]
        }])
    );
    assert_eq!(
        parse("Record 1: 1 red\nRecord 2: 2 blue"),
        Ok(vec![
            Game {
                id: 1,
                observations: vec![seen(Some(1), None, None)]
            },
            Game {
                id: 2,
                observations: vec![seen(None, None, Some(2))]
            }
        ])
    );
    assert_eq!(
        parse("Record 1: 1 red\n\nRecord 2: 2 blue").err(),
        Some(ParseError {
            position: 16,
            kind: ParseErrorKind::ExpectedKeyword
        })
    );
    assert_eq!(
        parse("Record 1: 1 red\nRecord : 2 blue").err(),
        Some(ParseError {
            position: 23,
            kind: ParseErrorKind::ExpectedNumber
        })
    );
    assert_eq!(
        parse("Record 1: 3 purple").err(),
        Some(ParseError {
            position: 10,
            kind: ParseErrorKind::ExpectedLineEnd
        })
    );
}

#[test]
fn record_example_is_possible_within_its_bounds() {
    let text = "Record 1: 3 blue, 4 red; 1 red, 2 green, 6 blue; 2 green";
    let (rest, game) = parse_game(text).unwrap();
    assert_eq!(rest, "");
    assert_eq!(
        game,
        Game {
            id: 1,
            observations: vec![
                seen(Some(4), None, Some(3)),
                seen(Some(1), Some(2), Some(6)),
                seen(None, Some(2), None)
            ]
        }
    );
    assert!(possible(&game, 4, 2, 6));
    assert!(!possible(&game, 4, 1, 6));
}

#[test]
fn possible_stays_possible_under_larger_bounds() {
    let game = Game {
        id: 7,
        observations: vec![seen(Some(4), None, Some(3)), seen(None, Some(2), None)],
    };
    assert!(possible(&game, 4, 2, 3));
    assert!(possible(&game, 5, 2, 3));
    assert!(possible(&game, 4, 9, 3));
    assert!(possible(&game, 4, 2, usize::MAX));
    assert!(!possible(&game, 3, 2, 3));
    assert!(!possible(&game, 4, 2, 2));
}

#[test]
fn unset_counts_never_exceed_a_bound() {
    let game = Game {
        id: 1,
        observations: vec![seen(None, None, None)],
    };
    assert!(possible(&game, 0, 0, 0));
    let empty = Game {
        id: 2,
        observations: vec![],
    };
    assert!(possible(&empty, 0, 0, 0));
}

#[test]
fn min_possible_takes_the_largest_of_each_colour() {
    let game = Game {
        id: 1,
        observations: vec![
            seen(Some(10), None, None),
            seen(Some(30), Some(20), Some(5)),
            seen(None, None, Some(30)),
        ],
    };
    assert_eq!(min_possible(&game), seen(Some(30), Some(20), Some(30)));
}

#[test]
fn min_possible_leaves_unseen_colours_unset() {
    let game = Game {
        id: 1,
        observations: vec![seen(Some(0), None, None), seen(Some(0), None, None)],
    };
    assert_eq!(min_possible(&game), seen(Some(0), None, None));
    let empty = Game {
        id: 2,
        observations: vec![],
    };
    assert_eq!(min_possible(&empty), seen(None, None, None));
}

#[test]
fn min_possible_is_the_least_bound() {
    let game = parse_game("Record 5: 6 red, 1 blue; 2 green, 9 blue; 3 red")
        .unwrap()
        .1;
    let least = min_possible(&game);
    assert_eq!(least, seen(Some(6), Some(2), Some(9)));
    assert!(possible(&game, 6, 2, 9));
    assert!(!possible(&game, 5, 2, 9));
    assert!(!possible(&game, 6, 1, 9));
    assert!(!possible(&game, 6, 2, 8));
}

#[test]
fn colour_names() {
    assert_eq!(Color::Red.name(), "red");
    assert_eq!(Color::Green.name(), "green");
    assert_eq!(Color::Blue.name(), "blue");
}

#[test]
fn groups_are_built_count_by_count() {
    let group = Observation::new()
        .set_count(4, Color::Blue)
        .set_count(1, Color::Red);
    assert_eq!(group, seen(Some(1), None, Some(4)));
}

/// The group as it is written: the counts with a comma and a space between.
fn written(counts: &[(usize, Color)]) -> String {
    let parts: Vec<String> = counts
        .iter()
        .map(|(n, color)| format!("{} {}", n, color.name()))
        .collect();
    parts.join(", ")
}

#[test]
fn written_groups_are_read_back() {
    let groups: Vec<Vec<(usize, Color)>> = vec![
        vec![(10, Color::Red), (20, Color::Green)],
        vec![(0, Color::Blue)],
        vec![(7, Color::Green), (usize::MAX, Color::Red), (1, Color::Blue)],
        vec![(3, Color::Blue), (4, Color::Blue)],
    ];
    for counts in groups {
        let text = written(&counts);
        let mut expected = Observation::new();
        for (n, color) in &counts {
            expected = expected.set_count(*n, *color);
        }
        assert_eq!(parse_observation(&text), Ok(("", expected)));
    }
    assert_eq!(written(&[(10, Color::Red), (20, Color::Green)]), "10 red, 20 green");
}

#[test]
fn power_is_the_product_of_the_three_counts() {
    assert_eq!(seen(Some(4), Some(2), Some(6)).power(), Some(48));
    assert_eq!(seen(Some(4), Some(0), Some(6)).power(), Some(0));
    assert_eq!(seen(Some(4), None, Some(6)).power(), None);
    assert_eq!(seen(None, None, None).power(), None);
    assert_eq!(seen(Some(usize::MAX), Some(1), Some(1)).power(), Some(usize::MAX));
    assert_eq!(seen(Some(usize::MAX), Some(2), Some(1)).power(), None);
    assert_eq!(seen(Some(usize::MAX), Some(2), Some(0)).power(), Some(0));
    assert_eq!(seen(Some(1), Some(usize::MAX), Some(2)).power(), None);
}

const FIVE_RECORDS: &str = "Record 1: 3 blue, 4 red; 1 red, 2 green, 6 blue; 2 green\nRecord 2: 1 blue, 2 green; 3 green, 4 blue, 1 red; 1 green, 1 blue\nRecord 3: 8 green, 6 blue, 20 red; 5 blue, 4 red, 13 green; 5 green, 1 red\nRecord 4: 1 green, 3 red, 6 blue; 3 green, 6 red; 3 green, 15 blue, 14 red\nRecord 5: 6 red, 1 blue, 3 green; 2 blue, 1 red, 2 green\n";

#[test]
fn ids_of_possible_records_are_summed() {
    let games = parse(FIVE_RECORDS).unwrap();
    assert_eq!(games.len(), 5);
    assert_eq!(sum_of_possible_ids(&games, 12, 13, 14), Some(8));
    assert_eq!(sum_of_possible_ids(&games, 0, 0, 0), Some(0));
    assert_eq!(sum_of_possible_ids(&games, 20, 13, 15), Some(15));
    assert_eq!(sum_of_possible_ids(&[], 1, 1, 1), Some(0));
}

#[test]
fn sum_of_ids_above_usize_is_none() {
    let games = vec![
        Game {
            id: usize::MAX,
            observations: vec![],
        },
        Game {
            id: 1,
            observations: vec![seen(Some(5), None, None)],
        },
    ];
    assert_eq!(sum_of_possible_ids(&games, 0, 0, 0), Some(usize::MAX));
    assert_eq!(sum_of_possible_ids(&games, 5, 0, 0), None);
}

#[test]
fn powers_of_the_least_bounds_are_summed() {
    let games = parse(FIVE_RECORDS).unwrap();
    assert_eq!(sum_of_powers(&games), Some(2286));
    assert_eq!(sum_of_powers(&[]), Some(0));
}

#[test]
fn no_sum_of_powers_where_a_colour_is_never_seen() {
    let games = parse("Record 1: 3 blue, 4 red; 1 red\n").unwrap();
    assert_eq!(sum_of_powers(&games), None);
    let too_large = vec![
        Game {
            id: 1,
            observations: vec![seen(Some(usize::MAX), Some(1), Some(1))],
        },
        Game {
            id: 2,
            observations: vec![seen(Some(1), Some(1), Some(1))],
        },
    ];
    assert_eq!(sum_of_powers(&too_large), None);
}
