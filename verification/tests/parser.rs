use gridist::grid::{Belief, Point};
use gridist::parser::{chars_of, grid_from_chars, grid_from_str, Fault, Parser};

const GOOD_MAP: &str = "type octile
height 2
width 2
map
T.
.T";

const BAD_MAP: &str = "type octile
height 2
width 2
map
Tf
.T";

#[test]
fn read_grid_from_chars() {
    let grid = grid_from_chars(GOOD_MAP.chars().collect()).unwrap();
    println!("Grid:\n{:?}", grid);
}

#[test]
#[should_panic]
fn read_unreadable_map_from_chars() {
    grid_from_chars(BAD_MAP.chars().collect()).unwrap();
}

#[test]
fn good_map_terrain() {
    let grid = grid_from_str(GOOD_MAP).unwrap();
    assert_eq!((grid.height(), grid.width()), (2, 2));
    let symbols: Vec<char> = [(0, 0), (0, 1), (1, 0), (1, 1)]
        .iter()
        .map(|&(y, x)| grid.get(&Point::new(y, x)).unwrap().symbol())
        .collect();
    assert_eq!(symbols, vec!['T', '.', '.', 'T']);
    assert_eq!(*grid.get(&Point::new(0, 1)).unwrap().belief(), Belief::Unknown);
}

#[test]
fn every_symbol() {
    let grid = grid_from_str("type octile\nheight 1\nwidth 7\nmap\n.G@OTSW").unwrap();
    let symbols: Vec<char> = (0..7).map(|x| grid.get(&Point::new(0, x)).unwrap().symbol()).collect();
    assert_eq!(symbols, vec!['.', '.', '@', '@', 'T', 'S', 'W']);
}

#[test]
fn bad_symbol_is_reported_with_its_place() {
    let error = grid_from_str(BAD_MAP).unwrap_err();
    assert_eq!((error.line, error.column), (4, 1));
    assert!(matches!(error.fault, Fault::Symbol('f')));
}

#[test]
fn short_row_is_reported() {
    let error = grid_from_str("type octile\nheight 2\nwidth 3\nmap\n..\n...").unwrap_err();
    assert_eq!((error.line, error.column), (4, 2));
    assert!(matches!(error.fault, Fault::EndOfLine));
}

#[test]
fn short_map_is_reported() {
    let error = grid_from_str("type octile\nheight 2\nwidth 2\nmap\n..\n.").unwrap_err();
    assert_eq!((error.line, error.column), (5, 1));
    assert!(matches!(error.fault, Fault::EndOfInput));
    let error = grid_from_str("type octile\nheight 2\nwidth 2\nmap\n..\n").unwrap_err();
    assert!(matches!(error.fault, Fault::EndOfInput));
}

#[test]
fn wrong_word_is_reported() {
    let error = grid_from_str("type hexagonal\nheight 2").unwrap_err();
    assert_eq!((error.line, error.column), (0, 14));
    match error.fault {
        Fault::Expected { word, found } => {
            assert_eq!(word, chars_of("octile"));
            assert_eq!(found, chars_of("hexagonal"));
        }
        other => panic!("{:?}", other),
    }
    let error = grid_from_str("").unwrap_err();
    match error.fault {
        Fault::Expected { word, found } => {
            assert_eq!(word, chars_of("type"));
            assert!(found.is_empty());
        }
        other => panic!("{:?}", other),
    }
}

#[test]
fn bad_number_is_reported() {
    for text in ["type octile height two", "type octile height -2", "type octile height", "type octile height 2x", "type octile height 99999999999999999999999999", "type octile height +"] {
        let error = grid_from_str(text).unwrap_err();
        assert!(matches!(error.fault, Fault::ExpectedInteger { .. }), "{}", text);
    }
    let error = grid_from_str("type octile height 2 width 1e3 map").unwrap_err();
    match error.fault {
        Fault::ExpectedInteger { found } => assert_eq!(found, chars_of("1e3")),
        other => panic!("{:?}", other),
    }
}

#[test]
fn numbers_as_the_standard_library_reads_them() {
    for word in ["0", "7", "+7", "007", "18446744073709551615", "18446744073709551616", "", "+", "-1", "1_0", "٣", "12a", "++1"] {
        let mut parser = Parser::new(word.chars().collect());
        let expected = usize::from_str_radix(word, 10).ok();
        assert_eq!(parser.parse_int().ok(), expected, "{:?}", word);
    }
}

#[test]
fn header_may_be_spread_out() {
    let grid = grid_from_str("  type\toctile\n\nheight   1 width +3\n map \n\n  .T.").unwrap();
    assert_eq!((grid.height(), grid.width()), (1, 3));
}

#[test]
fn map_without_tiles_is_rejected() {
    for text in [
        "type octile height 0 width 5 map",
        "type octile\nheight 3\nwidth 0\nmap\n\n\n",
        "type octile height 0 width 0 map",
        "type octile height 0 width 2 map\n..",
        "type octile height 0 width 0",
    ] {
        let error = grid_from_str(text).unwrap_err();
        assert!(matches!(error.fault, Fault::NoTiles), "{:?}", text);
    }
    let error = grid_from_str("type octile\nheight 2\nwidth 0\nmap").unwrap_err();
    assert_eq!((error.line, error.column), (2, 7));
    // the smallest map there is
    let grid = grid_from_str("type octile height 1 width 1 map .").unwrap();
    assert_eq!((grid.height(), grid.width()), (1, 1));
}

#[test]
fn white_space_of_every_kind_parts_the_words() {
    let grid = grid_from_str("type\u{a0}octile\u{2003}height\r\n1\u{b}width\u{c}2\u{3000}map\u{85}.T").unwrap();
    assert_eq!((grid.height(), grid.width()), (1, 2));
    // a zero-width space is no white space
    assert!(grid_from_str("type\u{200b}octile height 1 width 1 map .").is_err());
}

#[test]
fn parser_steps() {
    let mut parser = Parser::new("ab \n cd 12".chars().collect());
    assert!(parser.consume_word("ab").is_ok());
    parser.consume_ws();
    let error = parser.consume_word("ce").unwrap_err();
    assert_eq!((error.line, error.column), (1, 3));
    assert_eq!(parser.parse_constant("x").unwrap_err().line, 1);
    let mut parser = Parser::new("size 12 rest".chars().collect());
    assert_eq!(parser.parse_constant("size").ok(), Some(12));
    parser.shift();
    assert!(parser.consume_word("rest").is_ok());
    parser.shift();
    parser.shift();
    assert!(parser.parse_int().is_err());
}
