use puzzle_solvers::grid::{Grid, SchematicError};
use puzzle_solvers::parts::{Part, PartMap};
use puzzle_solvers::schematic::{bounding_box, detect_adjacent_symbols, Bounds, Schematic};

const ENGINE: &str = "467..114..\n...*......\n..35..633.\n......#...\n617*......\n.....+.58.\n..592.....\n......755.\n...$.*....\n.664.598..\n";

fn symbol(value: char, adjacent_numbers: Vec<u32>) -> Part {
    Part::Symbol {
        value,
        adjacent_numbers,
    }
}

/// Every part of the schematic with its coordinate, row by row.
fn parts_of(schematic: &Schematic) -> Vec<((usize, usize), &Part)> {
    let mut parts = Vec::new();
    for y in 0..schematic.height() {
        for x in 0..schematic.width() {
            if let Some(part) = schematic.get(x, y) {
                parts.push(((x, y), part));
            }
        }
    }
    parts
}

#[test]
fn engine_example_sums() {
    let schematic = Schematic::new(ENGINE).unwrap();
    assert_eq!(schematic.sum_of_part_numbers(), Some(4361));
    assert_eq!(schematic.sum_of_gear_ratios(), Some(467835));
}

#[test]
fn engine_example_without_last_line_feed() {
    let schematic = Schematic::new(ENGINE.trim_end()).unwrap();
    assert_eq!(schematic.width(), 10);
    assert_eq!(schematic.height(), 10);
    assert_eq!(schematic.sum_of_part_numbers(), Some(4361));
    assert_eq!(schematic.sum_of_gear_ratios(), Some(467835));
}

#[test]
fn engine_example_parts() {
    let schematic = Schematic::new(ENGINE).unwrap();
    let number = Part::Number;
    assert_eq!(
        parts_of(&schematic),
        vec![
            ((0, 0), &number(467)),
            ((3, 1), &symbol('*', vec![467, 35])),
            ((2, 2), &number(35)),
            ((6, 2), &number(633)),
            ((6, 3), &symbol('#', vec![633])),
            ((0, 4), &number(617)),
            ((3, 4), &symbol('*', vec![617])),
            ((5, 5), &symbol('+', vec![592])),
            ((2, 6), &number(592)),
            ((6, 7), &number(755)),
            ((3, 8), &symbol('$', vec![664])),
            ((5, 8), &symbol('*', vec![755, 598])),
            ((1, 9), &number(664)),
            ((5, 9), &number(598)),
        ]
    );
}

#[test]
fn empty_text_is_refused() {
    assert_eq!(Schematic::new("").err(), Some(SchematicError::Empty));
    assert_eq!(Grid::parse("").err(), Some(SchematicError::Empty));
}

#[test]
fn ragged_text_is_refused() {
    assert_eq!(Schematic::new("12.\n1.\n").err(), Some(SchematicError::Ragged));
    assert_eq!(Schematic::new("1.\n12.\n").err(), Some(SchematicError::Ragged));
    assert_eq!(Schematic::new("..\n\n..\n").err(), Some(SchematicError::Ragged));
    assert_eq!(Schematic::new("..\n..\n.").err(), Some(SchematicError::Ragged));
    assert_eq!(Grid::parse("ab\nc").err(), Some(SchematicError::Ragged));
}

#[test]
fn number_above_u32_is_refused() {
    assert_eq!(
        Schematic::new("4294967296\n").err(),
        Some(SchematicError::NumberTooLarge)
    );
    assert_eq!(
        Schematic::new("..........\n4294967296\n").err(),
        Some(SchematicError::NumberTooLarge)
    );
    let largest = Schematic::new("4294967295*\n").unwrap();
    assert_eq!(largest.get(0, 0), Some(&Part::Number(4294967295)));
    assert_eq!(largest.sum_of_part_numbers(), Some(4294967295));
}

#[test]
fn one_line_feed_is_one_empty_row() {
    let schematic = Schematic::new("\n").unwrap();
    assert_eq!(schematic.width(), 0);
    assert_eq!(schematic.height(), 1);
    assert_eq!(schematic.sum_of_part_numbers(), Some(0));
    assert_eq!(schematic.sum_of_gear_ratios(), Some(0));
}

#[test]
fn symbol_left_of_number_is_found_through_the_number() {
    let schematic = Schematic::new("*12\n").unwrap();
    assert_eq!(
        parts_of(&schematic),
        vec![((0, 0), &symbol('*', vec![12])), ((1, 0), &Part::Number(12))]
    );
}

#[test]
fn symbol_in_a_later_row_is_found_through_the_number_above() {
    let schematic = Schematic::new("12.\n..#\n7..\n").unwrap();
    assert_eq!(
        parts_of(&schematic),
        vec![((0, 0), &Part::Number(12)), ((2, 1), &symbol('#', vec![12]))]
    );
}

#[test]
fn symbol_without_number_has_an_empty_list() {
    let schematic = Schematic::new("1.#\n...\n").unwrap();
    assert_eq!(parts_of(&schematic), vec![((2, 0), &symbol('#', vec![]))]);
    assert_eq!(schematic.sum_of_part_numbers(), Some(0));
}

#[test]
fn number_without_symbol_is_left_out() {
    let schematic = Schematic::new("12..\n....\n..34\n").unwrap();
    assert_eq!(parts_of(&schematic), vec![]);
}

#[test]
fn number_is_kept_at_its_first_cell_only() {
    let schematic = Schematic::new(".123.\n..%..\n").unwrap();
    assert_eq!(schematic.get(0, 0), None);
    assert_eq!(schematic.get(1, 0), Some(&Part::Number(123)));
    assert_eq!(schematic.get(2, 0), None);
    assert_eq!(schematic.get(3, 0), None);
    assert_eq!(schematic.get(2, 1), Some(&symbol('%', vec![123])));
}

#[test]
fn numbers_at_the_edges_look_no_further_than_the_grid() {
    let schematic = Schematic::new("12*34\n").unwrap();
    assert_eq!(
        parts_of(&schematic),
        vec![
            ((0, 0), &Part::Number(12)),
            ((2, 0), &symbol('*', vec![12, 34])),
            ((3, 0), &Part::Number(34)),
        ]
    );
    let corners = Schematic::new("1.2\n.*.\n3.4\n").unwrap();
    assert_eq!(corners.get(1, 1), Some(&symbol('*', vec![1, 2, 3, 4])));
    assert_eq!(corners.sum_of_part_numbers(), Some(10));
    let apart = Schematic::new("1..\n..#\n").unwrap();
    assert_eq!(parts_of(&apart), vec![((2, 1), &symbol('#', vec![]))]);
    let whole_row = Schematic::new("123\n..+\n").unwrap();
    assert_eq!(whole_row.get(0, 0), Some(&Part::Number(123)));
}

#[test]
fn end_of_a_row_does_not_touch_the_start_of_the_next() {
    let schematic = Schematic::new("..12\n#...\n....\n").unwrap();
    assert_eq!(parts_of(&schematic), vec![((0, 1), &symbol('#', vec![]))]);
}

#[test]
fn symbol_counts_every_run_beside_it() {
    let schematic = Schematic::new("11.22\n..*..\n33.44\n.5...\n").unwrap();
    assert_eq!(schematic.get(2, 1), Some(&symbol('*', vec![11, 22, 33, 44])));
    assert_eq!(schematic.sum_of_gear_ratios(), Some(0));
    assert_eq!(schematic.sum_of_part_numbers(), Some(110));
}

#[test]
fn adjacent_numbers_come_in_the_order_of_the_scan() {
    let schematic = Schematic::new("..7\n5*.\n3..\n").unwrap();
    assert_eq!(schematic.get(1, 1), Some(&symbol('*', vec![7, 5, 3])));
}

#[test]
fn equal_numbers_beside_one_symbol_both_count() {
    let schematic = Schematic::new("3*3\n").unwrap();
    assert_eq!(schematic.get(1, 0), Some(&symbol('*', vec![3, 3])));
    assert_eq!(schematic.sum_of_gear_ratios(), Some(9));
    assert_eq!(schematic.sum_of_part_numbers(), Some(6));
}

#[test]
fn any_symbol_with_two_numbers_is_a_gear() {
    let schematic = Schematic::new("2#3.4*\n").unwrap();
    assert_eq!(schematic.sum_of_gear_ratios(), Some(6));
}

#[test]
fn letters_and_blanks_are_neither_symbols_nor_numbers() {
    let schematic = Schematic::new("1a2 3\t\u{e9}4\n").unwrap();
    assert_eq!(parts_of(&schematic), vec![]);
    assert_eq!(schematic.width(), 8);
}

#[test]
fn every_punctuation_mark_but_the_full_stop_is_a_symbol() {
    let marks = "!\"#$%&'()*+,-/:;<=>?@[\\]^_`{|}~";
    let schematic = Schematic::new(marks).unwrap();
    for (x, c) in marks.chars().enumerate() {
        assert_eq!(schematic.get(x, 0), Some(&symbol(c, vec![])));
    }
    assert_eq!(Schematic::new("...").unwrap().get(1, 0), None);
}

#[test]
fn gear_ratio_is_the_product_of_exactly_two_numbers() {
    assert_eq!(symbol('*', vec![]).gear_ratio(), Some(0));
    assert_eq!(symbol('*', vec![7]).gear_ratio(), Some(0));
    assert_eq!(symbol('*', vec![7, 6]).gear_ratio(), Some(42));
    assert_eq!(symbol('*', vec![7, 6, 5]).gear_ratio(), Some(0));
    assert_eq!(symbol('#', vec![467, 35]).gear_ratio(), Some(16345));
    assert_eq!(Part::Number(9).gear_ratio(), Some(0));
    assert_eq!(symbol('*', vec![65536, 65536]).gear_ratio(), None);
    assert_eq!(symbol('*', vec![65535, 65537]).gear_ratio(), Some(4294967295));
}

#[test]
fn part_number_is_the_number() {
    assert_eq!(Part::Number(9).number(), 9);
    assert_eq!(symbol('*', vec![7, 6]).number(), 0);
}

#[test]
fn sums_above_u32_are_none() {
    let schematic = Schematic::new("4294967295*1\n").unwrap();
    assert_eq!(schematic.sum_of_part_numbers(), None);
    assert_eq!(schematic.sum_of_gear_ratios(), Some(4294967295));
    let gears = Schematic::new("65536*65536\n").unwrap();
    assert_eq!(gears.sum_of_part_numbers(), Some(131072));
    assert_eq!(gears.sum_of_gear_ratios(), None);
    let sum = Schematic::new("65535*65537.\n............\n1*1.........\n").unwrap();
    assert_eq!(sum.sum_of_gear_ratios(), None);
}

#[test]
fn grid_cells() {
    let grid = Grid::parse("ab\ncd\nef").unwrap();
    assert_eq!(grid.width(), 2);
    assert_eq!(grid.height(), 3);
    assert_eq!(grid.cell(0, 0), 'a');
    assert_eq!(grid.cell(1, 0), 'b');
    assert_eq!(grid.cell(0, 2), 'e');
    assert_eq!(grid.cell(1, 2), 'f');
}

#[test]
fn carriage_return_is_a_cell_like_any_other() {
    let grid = Grid::parse("ab\r\ncd\r\n").unwrap();
    assert_eq!(grid.width(), 3);
    assert_eq!(grid.cell(2, 1), '\r');
}

#[test]
fn part_map_holds_parts_by_coordinate() {
    let mut parts = PartMap::new(3, 2);
    assert_eq!(parts.get(0, 0), None);
    parts.insert(2, 1, Part::Number(5));
    parts.insert(0, 1, Part::Number(6));
    assert_eq!(parts.get(2, 1), Some(&Part::Number(5)));
    assert_eq!(parts.get(0, 1), Some(&Part::Number(6)));
    assert_eq!(parts.get(2, 0), None);
    assert_eq!(parts.get(3, 0), None);
    assert_eq!(parts.get(0, 2), None);
    parts.insert(2, 1, Part::Number(7));
    assert_eq!(parts.get(2, 1), Some(&Part::Number(7)));
}

#[test]
fn recording_an_adjacent_number() {
    let mut parts = PartMap::new(2, 2);
    parts.record_adjacent(1, 0, '*', 4);
    assert_eq!(parts.get(1, 0), Some(&symbol('*', vec![4])));
    parts.record_adjacent(1, 0, '#', 5);
    assert_eq!(parts.get(1, 0), Some(&symbol('*', vec![4, 5])));
    parts.insert(0, 1, Part::Number(1));
    parts.record_adjacent(0, 1, '*', 9);
    assert_eq!(parts.get(0, 1), Some(&Part::Number(1)));
}

#[test]
fn detecting_the_symbols_around_a_run() {
    let grid = Grid::parse("+....\n.12.#\n...*.\n").unwrap();
    let mut parts = PartMap::new(5, 3);
    detect_adjacent_symbols(&mut parts, &grid, (1, 1), 2, 12);
    assert_eq!(parts.get(0, 0), Some(&symbol('+', vec![12])));
    assert_eq!(parts.get(3, 2), Some(&symbol('*', vec![12])));
    assert_eq!(parts.get(4, 1), None);
    assert_eq!(parts.get(1, 1), Some(&Part::Number(12)));
    assert_eq!(parts.get(2, 1), None);
    detect_adjacent_symbols(&mut parts, &grid, (1, 1), 3, 8);
    assert_eq!(parts.get(0, 0), Some(&symbol('+', vec![12, 8])));
    assert_eq!(parts.get(4, 1), Some(&symbol('#', vec![8])));
    assert_eq!(parts.get(1, 1), Some(&Part::Number(8)));
}

#[test]
fn detecting_no_symbol_leaves_the_map_as_it_is() {
    let grid = Grid::parse("12...\n....#\n").unwrap();
    let mut parts = PartMap::new(5, 2);
    detect_adjacent_symbols(&mut parts, &grid, (0, 0), 2, 12);
    assert_eq!(parts.get(0, 0), None);
    assert_eq!(parts.get(4, 1), None);
    detect_adjacent_symbols(&mut parts, &grid, (3, 0), 2, 1);
    assert_eq!(parts.get(3, 0), Some(&Part::Number(1)));
    assert_eq!(parts.get(4, 1), Some(&symbol('#', vec![1])));
}

#[test]
fn box_around_a_run_is_cut_off_at_the_edges() {
    let grid = Grid::parse(".....\n.....\n.....\n").unwrap();
    let bounds = |left, right, top, bottom| Bounds {
        left,
        right,
        top,
        bottom,
    };
    assert_eq!(bounding_box(&grid, (1, 1), 2), bounds(0, 3, 0, 2));
    assert_eq!(bounding_box(&grid, (0, 1), 2), bounds(0, 2, 0, 2));
    assert_eq!(bounding_box(&grid, (3, 1), 2), bounds(2, 4, 0, 2));
    assert_eq!(bounding_box(&grid, (4, 1), 1), bounds(3, 4, 0, 2));
    assert_eq!(bounding_box(&grid, (0, 0), 5), bounds(0, 4, 0, 1));
    assert_eq!(bounding_box(&grid, (2, 2), 1), bounds(1, 3, 1, 2));
    assert_eq!(bounding_box(&grid, (2, 0), 0), bounds(1, 2, 0, 1));
    let line = Grid::parse("12").unwrap();
    assert_eq!(bounding_box(&line, (0, 0), 2), bounds(0, 1, 0, 0));
}
