use std::io::Write;
use toggle_solver::button::ButtonFunction;
use toggle_solver::grid::Grid;
use toggle_solver::level::{parse, parse_toggle, ParseError, ToggleLevel};

fn wire_text(raw: &[u8]) -> String {
    let mut encoder = flate2::write::DeflateEncoder::new(Vec::new(), flate2::Compression::default());
    encoder.write_all(raw).unwrap();
    base64::encode(encoder.finish().unwrap())
}

#[test]
fn new_level_is_empty() {
    let level = ToggleLevel::new();
    assert_eq!(level.width, 0);
    assert_eq!(level.height, 0);
    assert_eq!(level.min_clicks, 0);
    assert!(level.subtypes.is_empty());
    assert_eq!(level.states.len(), 0);
    assert!(level.is_valid());
}

#[test]
fn decode_one_cell_level() {
    let level = parse_toggle(&vec![0x00, 0x01, 1, 0x02, 1, 0x03, 11, 0x04, 0x01]).unwrap();
    assert_eq!(level.width, 1);
    assert_eq!(level.height, 1);
    assert_eq!(level.subtypes, vec![11]);
    let grid = Grid::from_level(&level);
    assert_eq!(grid.width(), 1);
    assert_eq!(grid.height(), 1);
    assert!(grid.at(0, 0).unwrap().is_on);
    assert_eq!(grid.at(0, 0).unwrap().func, ButtonFunction::FourArrow);
}

#[test]
fn version_byte_is_skipped() {
    let level = parse_toggle(&vec![0x01, 0x01, 2, 0x02, 1, 0x03, 0, 0, 0x04, 0]).unwrap();
    assert_eq!(level.width, 2);
    assert_eq!(level.height, 1);
}

#[test]
fn selectors_and_states_use_different_orders() {
    let raw = vec![0, 0x01, 2, 0x02, 3, 0x03, 0, 11, 4, 0, 0, 0, 0x04, 0b0000_0010];
    let level = parse_toggle(&raw).unwrap();
    let grid = Grid::from_level(&level);
    assert_eq!(grid.at(1, 0).unwrap().func, ButtonFunction::FourArrow);
    assert_eq!(
        grid.at(0, 1).unwrap().func,
        ButtonFunction::OneArrow(toggle_solver::button::OneArrow::Right)
    );
    for x in 0..2 {
        for y in 0..3 {
            assert_eq!(grid.at(x, y).unwrap().is_on, (x, y) == (0, 1));
        }
    }
}

#[test]
fn states_payload_is_rounded_up_to_bytes() {
    let raw = vec![0, 1, 3, 2, 3, 3, 0, 0, 0, 0, 0, 0, 0, 0, 0, 4, 0x00, 0x01, 6];
    let level = parse_toggle(&raw).unwrap();
    assert_eq!(level.states.len(), 16);
    let grid = Grid::from_level(&level);
    assert!(grid.at(2, 2).unwrap().is_on);
    assert!(!grid.at(0, 0).unwrap().is_on);
}

#[test]
fn minimum_clicks_are_little_endian() {
    let level = parse_toggle(&vec![0, 5, 0x2a, 0x01, 0, 0, 3, 0, 4, 0]).unwrap();
    assert_eq!(level.min_clicks, 298);
    let level = parse_toggle(&vec![0, 3, 0, 4, 0, 5, 0xff, 0xff, 0xff, 0xff]).unwrap();
    assert_eq!(level.min_clicks, 4294967295);
}

#[test]
fn creator_tag_ends_the_stream() {
    let level = parse_toggle(&vec![0, 3, 7, 4, 1, 6, 1, 9, 2]).unwrap();
    assert_eq!(level.width, 1);
    assert_eq!(level.height, 1);
    assert_eq!(level.subtypes, vec![7]);
}

#[test]
fn unknown_tags_are_skipped() {
    let level = parse_toggle(&vec![0, 9, 200, 3, 7, 0, 4, 1, 77]).unwrap();
    assert_eq!(level.subtypes, vec![7]);
    assert!(level.states.get(0));
}

#[test]
fn truncated_payload_is_an_error() {
    assert_eq!(parse_toggle(&vec![0, 1]).unwrap_err(), ParseError::Truncated);
    assert_eq!(parse_toggle(&vec![0, 1, 2, 2]).unwrap_err(), ParseError::Truncated);
    assert_eq!(parse_toggle(&vec![0, 1, 2, 2, 2, 3, 0, 0, 0]).unwrap_err(), ParseError::Truncated);
    assert_eq!(parse_toggle(&vec![0, 1, 3, 2, 3, 4, 0]).unwrap_err(), ParseError::Truncated);
    assert_eq!(parse_toggle(&vec![0, 5, 1, 2, 3]).unwrap_err(), ParseError::Truncated);
}

#[test]
fn stream_without_records_gives_the_blank_level() {
    for raw in [vec![], vec![0], vec![7]] {
        let level = parse_toggle(&raw).unwrap();
        assert_eq!(level.width, 1);
        assert_eq!(level.height, 1);
        assert!(level.subtypes.is_empty());
        assert_eq!(level.states.len(), 0);
        assert_eq!(level.min_clicks, 0);
        assert!(!level.is_valid());
    }
}

#[test]
fn first_byte_is_never_a_tag() {
    let level = parse_toggle(&vec![0x01, 0x01, 5]).unwrap();
    assert_eq!(level.width, 5);
    assert_eq!(level.height, 1);
    assert!(!level.is_valid());
}

#[test]
fn records_after_the_creator_tag_are_not_read() {
    let level = parse_toggle(&vec![0x00, 0x01, 3, 0x06, 0x01, 9]).unwrap();
    assert_eq!(level.width, 3);
    assert_eq!(level.height, 1);
}

#[test]
fn minimum_clicks_alone_are_a_level() {
    let level = parse_toggle(&vec![0x00, 0x05, 0xff, 0xff, 0xff, 0xff]).unwrap();
    assert_eq!(level.min_clicks, 4294967295);
    assert_eq!(level.width, 1);
    assert!(level.subtypes.is_empty());
}

#[test]
fn records_in_an_unexpected_order_give_a_level_that_is_not_valid() {
    let level = parse_toggle(&vec![0, 3, 11, 4, 1, 1, 2, 2, 2]).unwrap();
    assert_eq!(level.width, 2);
    assert_eq!(level.height, 2);
    assert_eq!(level.subtypes, vec![11]);
    assert_eq!(level.states.len(), 8);
    assert!(!level.is_valid());
    let level = parse_toggle(&vec![0, 1, 2, 2, 2]).unwrap();
    assert!(!level.is_valid());
    let level = parse_toggle(&vec![0, 1, 2, 3, 0, 0]).unwrap();
    assert_eq!(level.subtypes, vec![0, 0]);
    assert!(!level.is_valid());
}

#[test]
fn repeated_selector_records_are_appended() {
    let level = parse_toggle(&vec![0, 3, 4, 3, 5, 4, 1]).unwrap();
    assert_eq!(level.subtypes, vec![4, 5]);
    assert!(level.is_valid());
}

#[test]
fn level_with_an_empty_grid() {
    let level = parse_toggle(&vec![0, 1, 0, 2, 5, 3, 4]).unwrap();
    assert_eq!(level.width, 0);
    assert_eq!(level.height, 5);
    let grid = Grid::from_level(&level);
    assert_eq!(grid.get_states().len(), 0);
}

#[test]
fn widest_level_decodes() {
    let mut raw = vec![0, 1, 255, 2, 255, 3];
    raw.extend(std::iter::repeat(20u8).take(255 * 255));
    raw.push(4);
    raw.extend(std::iter::repeat(0xffu8).take((255 * 255 + 7) / 8));
    let level = parse_toggle(&raw).unwrap();
    assert_eq!(level.subtypes.len(), 65025);
    let grid = Grid::from_level(&level);
    assert!(grid.at(254, 254).unwrap().is_on);
    assert_eq!(grid.at(254, 254).unwrap().func, ButtonFunction::AroundEight);
}

#[test]
fn parse_reverses_base64_and_deflate() {
    let raw = vec![0x00, 0x01, 1, 0x02, 1, 0x03, 11, 0x04, 0x01];
    let text = format!("  {}\n", wire_text(&raw));
    let level = parse(text).unwrap();
    assert_eq!(level.width, 1);
    assert_eq!(level.height, 1);
    assert_eq!(level.subtypes, vec![11]);
    assert!(level.states.get(0));
}

#[test]
fn parse_rejects_text_that_is_not_base64() {
    assert_eq!(parse(String::from("not base64 !!")).unwrap_err(), ParseError::Base64);
}

#[test]
fn parse_rejects_bytes_that_are_not_deflate() {
    assert_eq!(parse(base64::encode([0xffu8, 0xff, 0xff])).unwrap_err(), ParseError::Deflate);
}

#[test]
fn parse_reports_the_errors_of_the_stream() {
    assert_eq!(parse(wire_text(&[0, 1])).unwrap_err(), ParseError::Truncated);
    assert_eq!(parse(wire_text(&[0, 5, 1, 2])).unwrap_err(), ParseError::Truncated);
    let level = parse(wire_text(&[1, 1, 5])).unwrap();
    assert_eq!(level.width, 5);
    assert!(!level.is_valid());
}

#[test]
fn validity_of_a_level() {
    let mut level = ToggleLevel::new();
    level.width = 2;
    level.height = 2;
    assert!(!level.is_valid());
    level.subtypes = vec![0, 0, 0, 0];
    assert!(!level.is_valid());
    level.states = toggle_solver::bit_array::BitArray::new(4);
    assert!(level.is_valid());
}
