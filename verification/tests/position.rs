use bitterasm_lsp::position::{line_starts, offset_to_position, position_to_offset, Position};

fn pos(line: u32, character: u32) -> Position {
    Position { line, character }
}

#[test]
fn line_starts_end_one_past_the_text() {
    assert_eq!(line_starts(""), vec![0, 1]);
    assert_eq!(line_starts("ab"), vec![0, 3]);
    assert_eq!(line_starts("ab\ncd"), vec![0, 3, 6]);
    assert_eq!(line_starts("ab\n"), vec![0, 3, 4]);
    assert_eq!(line_starts("\n\n"), vec![0, 1, 2, 3]);
}

#[test]
fn offsets_become_line_and_utf16_column() {
    let text = "ab\ncd";
    assert_eq!(offset_to_position(text, 0), pos(0, 0));
    assert_eq!(offset_to_position(text, 2), pos(0, 2));
    assert_eq!(offset_to_position(text, 3), pos(1, 0));
    assert_eq!(offset_to_position(text, 4), pos(1, 1));
    assert_eq!(offset_to_position(text, 5), pos(1, 2));
}

#[test]
fn offsets_past_the_end_clamp_to_the_end() {
    assert_eq!(offset_to_position("ab\ncd", 99), pos(1, 2));
    assert_eq!(offset_to_position("", 7), pos(0, 0));
}

#[test]
fn columns_count_utf16_units_not_bytes() {
    // 'é' is 2 bytes and 1 unit; '😀' is 4 bytes and 2 units.
    let text = "é😀x\n😀";
    assert_eq!(offset_to_position(text, 2), pos(0, 1));
    assert_eq!(offset_to_position(text, 6), pos(0, 3));
    assert_eq!(offset_to_position(text, 7), pos(0, 4));
    assert_eq!(offset_to_position(text, 8), pos(1, 0));
    assert_eq!(offset_to_position(text, 12), pos(1, 2));
}

#[test]
fn positions_become_byte_offsets() {
    let text = "é😀x\n😀";
    assert_eq!(position_to_offset(text, pos(0, 0)), 0);
    assert_eq!(position_to_offset(text, pos(0, 1)), 2);
    assert_eq!(position_to_offset(text, pos(0, 3)), 6);
    assert_eq!(position_to_offset(text, pos(1, 0)), 8);
    assert_eq!(position_to_offset(text, pos(1, 2)), 12);
}

#[test]
fn a_column_inside_a_surrogate_pair_moves_to_the_next_character() {
    assert_eq!(position_to_offset("😀a", pos(0, 1)), 4);
}

#[test]
fn columns_past_the_line_end_stop_at_the_line_end() {
    assert_eq!(position_to_offset("ab\ncd", pos(0, 40)), 2);
    assert_eq!(position_to_offset("ab\ncd", pos(1, 40)), 5);
}

#[test]
fn lines_past_the_last_one_give_the_text_length() {
    // "ab\ncd" has lines 0 and 1; line 2 is outside what the function accepts.
    assert_eq!(position_to_offset("ab\ncd", pos(3, 0)), 5);
    assert_eq!(position_to_offset("ab\ncd", pos(100, 3)), 5);
}

#[test]
fn offset_position_round_trip_on_every_boundary() {
    let text = "é😀x\n\nab 😀\n";
    let mut boundaries: Vec<usize> = text.char_indices().map(|(i, _)| i).collect();
    boundaries.push(text.len());
    for offset in boundaries {
        let position = offset_to_position(text, offset);
        assert_eq!(position_to_offset(text, position), offset);
    }
}

#[test]
fn later_offsets_never_get_earlier_positions() {
    let text = "é😀x\n\nab 😀\n";
    let mut boundaries: Vec<usize> = text.char_indices().map(|(i, _)| i).collect();
    boundaries.push(text.len());
    boundaries.push(text.len() + 5);
    for pair in boundaries.windows(2) {
        let earlier = offset_to_position(text, pair[0]);
        let later = offset_to_position(text, pair[1]);
        assert!((earlier.line, earlier.character) <= (later.line, later.character));
    }
}
