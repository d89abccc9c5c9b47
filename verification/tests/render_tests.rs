use drunken_bishop::step::Step;
use drunken_bishop::{
    coordinates_to_position, frame, position_to_coordinates, DrunkenBishop, STANDARD_COLUMNS,
    STANDARD_ROWS, STANDARD_STEPS,
};

fn board(data: &str, rows: usize, columns: usize, steps: usize, cycle: bool) -> DrunkenBishop {
    DrunkenBishop::new(data.bytes().collect(), rows, columns, steps, cycle)
}

fn cells_string(b: &DrunkenBishop) -> String {
    b.render().into_iter().collect()
}

#[test]
fn coordinates_round_trip() {
    assert_eq!(coordinates_to_position(17, 3, 2), 37);
    assert_eq!(position_to_coordinates(17, 37), (3, 2));
    assert_eq!(position_to_coordinates(3, 4), (1, 1));
}

#[test]
fn standard_constants() {
    assert_eq!(STANDARD_COLUMNS, 17);
    assert_eq!(STANDARD_ROWS, 9);
    assert_eq!(STANDARD_STEPS, 64);
}

#[test]
fn empty_grid_renders_nothing() {
    let b = board("abc", 0, 3, 0, false);
    assert_eq!(b.render(), Vec::<char>::new());
    assert_eq!(b.framed(), "+---+\n+---+");
    let z = board("abc", 5, 0, 0, false);
    assert_eq!(z.render(), Vec::<char>::new());
    assert_eq!(z.framed(), "++\n++");
}

#[test]
fn single_cell_renders_start_marker() {
    let b = board("abc", 1, 1, 0, false);
    assert_eq!(b.render(), vec!['S']);
    assert_eq!(b.framed(), "+-+\n|S|\n+-+");
}

#[test]
fn zero_byte_walk_clamps_into_corner() {
    // One 0x00 byte decodes to four northwest steps. On a 3x3 grid the walk
    // starts at the center, reaches the corner after one step and stays
    // there, so the corner is the end cell and the center keeps its mark.
    let b = board("\x00", 3, 3, 0, false);
    assert_eq!(b.trace(4), vec![0, 0, 0, 0]);
    assert_eq!(cells_string(&b), "E   S    ");
    assert_eq!(b.framed(), "+---+\n|E  |\n| S |\n|   |\n+---+");
}

#[test]
fn render_is_deterministic() {
    let b = board("abcdefgh", STANDARD_ROWS, STANDARD_COLUMNS, STANDARD_STEPS, false);
    assert_eq!(b.render(), b.render());
    assert_eq!(b.framed(), b.framed());
}

#[test]
fn render_length_is_cell_count() {
    let b = board("abcdefgh", STANDARD_ROWS, STANDARD_COLUMNS, STANDARD_STEPS, false);
    assert_eq!(b.render().len(), STANDARD_ROWS * STANDARD_COLUMNS);
}

#[test]
fn saturating_palette_stops_at_last_symbol() {
    // 'D' is 0x44, which decodes to northwest, northeast, northwest,
    // northeast: on a one-row board the walk swings between the first two
    // cells. Ten such bytes visit the first cell twenty times, past the
    // fifteen palette symbols, so without cycling it is drawn with the
    // last, densest symbol.
    let b = board("DDDDDDDDDD", 1, 3, 0, false);
    assert_eq!(cells_string(&b), "^E ");
}

#[test]
fn cycling_palette_wraps_around() {
    // The same walk with cycling wraps the twenty visits around the
    // fifteen-symbol palette to symbol five.
    let b = board("DDDDDDDDDD", 1, 3, 0, true);
    assert_eq!(cells_string(&b), "*E ");
}

#[test]
fn end_marker_wins_where_walk_returns_to_start() {
    // The swinging walk above ends on its starting cell; a walk that moved
    // marks that cell as its end, not as its start.
    let b = board("DDDDDDDDDD", 1, 3, 0, false);
    assert!(cells_string(&b).contains('E'));
    assert!(!cells_string(&b).contains('S'));
}

#[test]
fn framed_output_shape() {
    let b = board("abcdefgh", STANDARD_ROWS, STANDARD_COLUMNS, STANDARD_STEPS, false);
    let framed = b.framed();
    let lines: Vec<&str> = framed.split('\n').collect();
    assert_eq!(lines.len(), STANDARD_ROWS + 2);
    for line in lines {
        assert_eq!(line.chars().count(), STANDARD_COLUMNS + 2);
    }
}

#[test]
fn frame_wraps_rows_in_borders() {
    assert_eq!(frame(&vec!['a', 'b'], 2), "+--+\n|ab|\n+--+");
    assert_eq!(frame(&vec!['a', 'b', 'c', 'd'], 2), "+--+\n|ab|\n|cd|\n+--+");
    assert_eq!(frame(&Vec::new(), 0), "++\n++");
}

#[test]
fn custom_home_is_respected() {
    // Starting in the top-left corner, four northwest steps stay there, so
    // the corner is the end cell and no start marker remains.
    let mut b = board("\x00", 3, 3, 0, false);
    b.home = Some(0);
    assert_eq!(b.trace(0), vec![0, 0, 0, 0]);
    assert_eq!(cells_string(&b), "E        ");
}

#[test]
fn test_digest() {
    let tables: Vec<(usize, usize, usize, bool, &str, Vec<&str>)> = vec![
        (
            9,
            17,
            64,
            false,
            "abcdefgh",
            vec![
                "+-----------------+",
                "|      o.=.o      |",
                "|     o +Eo       |",
                "|      =.o        |",
                "|     o + .       |",
                "|        S        |",
                "|                 |",
                "|                 |",
                "|                 |",
                "|                 |",
                "+-----------------+",
            ],
        ),
        (
            9,
            17,
            0,
            false,
            "The quick brown fox",
            vec![
                "+-----------------+",
                "|      o.o== ..   |",
                "|    . +o+o..=    |",
                "|     + +.. + o   |",
                "|       .* o +    |",
                "|       +S= =     |",
                "|        . E o    |",
                "|         o .     |",
                "|                 |",
                "|                 |",
                "+-----------------+",
            ],
        ),
        (
            9,
            17,
            10,
            false,
            "abcdefgh",
            vec![
                "+-----------------+",
                "|                 |",
                "|                 |",
                "|      E o        |",
                "|     . + .       |",
                "|        S        |",
                "|                 |",
                "|                 |",
                "|                 |",
                "|                 |",
                "+-----------------+",
            ],
        ),
        (1, 3, 0, false, "DDDDDDDDDD", vec!["+---+", "|^E |", "+---+"]),
        (1, 3, 0, true, "DDDDDDDDDD", vec!["+---+", "|*E |", "+---+"]),
        (3, 3, 0, false, "\x00", vec!["+---+", "|E  |", "| S |", "|   |", "+---+"]),
    ];

    for (rows, cols, limit, cycle, input, output) in tables {
        let expected = output.join("\n");
        let out = board(input, rows, cols, limit, cycle).framed();
        assert_eq!(out, expected);
    }
}
