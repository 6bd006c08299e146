use samegame::color::Color;
use samegame::grid::Grid;
use samegame::parser::parse_moves;

#[test]
fn test_parse() {
    let input = "OPG\nOPB\nOPG";
    let grid = Grid::try_from(input).unwrap();

    assert_eq!(grid.colors[0][0], Some(Color::Orange));
    assert_eq!(grid.colors[0][1], Some(Color::Pink));
    assert_eq!(grid.colors[0][2], Some(Color::Green));
    assert_eq!(grid.colors[1][0], Some(Color::Orange));
    assert_eq!(grid.colors[1][1], Some(Color::Pink));
    assert_eq!(grid.colors[1][2], Some(Color::Blue));
    assert_eq!(grid.colors[2][0], Some(Color::Orange));
    assert_eq!(grid.colors[2][1], Some(Color::Pink));
    assert_eq!(grid.colors[2][2], Some(Color::Green));
}

#[test]
fn test_parse_invalid_character() {
    let input = "OPG\nOPX\nOPG";
    let result = Grid::try_from(input);

    assert!(result.is_err());
    assert_eq!(result.unwrap_err(), "Invalid character at (1, 2): X");
}

#[test]
fn test_parse_moves() {
    let input = "0,0\n1,1\n2,2".to_string();
    let moves = parse_moves(&input).unwrap();

    assert_eq!(moves[0], (0, 0));
    assert_eq!(moves[1], (1, 1));
    assert_eq!(moves[2], (2, 2));
}

#[test]
fn parse_reports_first_bad_character_with_wide_position() {
    // row and column of the offense are written in decimal
    let input = "OOOOOOOOOOOO\nOOOOOOOOOOOZ";
    assert_eq!(
        Grid::try_from(input).unwrap_err(),
        "Invalid character at (1, 11): Z"
    );
}

#[test]
fn parse_rejects_ragged_shapes() {
    assert_eq!(Grid::try_from("OP\nO").unwrap_err(), "Non-rectangular grid");
}

#[test]
fn parse_empty_input_is_an_empty_board() {
    let grid = Grid::try_from("").unwrap();
    assert!(grid.colors.is_empty());
    assert!(grid.is_solved());
}

#[test]
fn parse_accepts_crlf_line_endings() {
    let grid = Grid::try_from("OP\r\nGB\r\n").unwrap();
    assert_eq!(grid.colors.len(), 2);
    assert_eq!(grid.colors[1][1], Some(Color::Blue));
    let moves = parse_moves("0,0\r\n1,1").unwrap();
    assert_eq!(moves, vec![(0, 0), (1, 1)]);
}

#[test]
fn parse_moves_accepts_a_leading_plus() {
    assert_eq!(parse_moves("+1,0").unwrap(), vec![(1, 0)]);
    assert_eq!(parse_moves("1,+2").unwrap(), vec![(1, 2)]);
    assert_eq!(parse_moves("+,1").unwrap_err(), "Invalid row");
    assert_eq!(parse_moves("++1,1").unwrap_err(), "Invalid row");
}

#[test]
fn color_try_from_reports_the_character() {
    assert_eq!(Color::try_from('B').unwrap(), Color::Blue);
    assert_eq!(Color::try_from('X').unwrap_err(), "Invalid character: X");
}

#[test]
fn parse_moves_rejects_bad_lines() {
    assert_eq!(parse_moves("12").unwrap_err(), "Invalid move format");
    assert_eq!(parse_moves("1,2,3").unwrap_err(), "Invalid move format");
    assert_eq!(parse_moves("a,1").unwrap_err(), "Invalid row");
    assert_eq!(parse_moves("1,b").unwrap_err(), "Invalid col");
    assert_eq!(parse_moves(",1").unwrap_err(), "Invalid row");
    assert_eq!(
        parse_moves("99999999999999999999999999,1").unwrap_err(),
        "Invalid row"
    );
    assert_eq!(parse_moves("0,0\nbad").unwrap_err(), "Invalid move format");
}

#[test]
fn parse_moves_empty_input_is_empty_list() {
    assert_eq!(parse_moves("").unwrap(), vec![]);
}
