use rewriter::interface::Span as _;
use rewriter::offset_calculator::impls::{
    advance_chars, CachingOffsetCalculator, StatelessOffsetCalculator,
};
use rewriter::offset_calculator::Interface;
use rewriter::{LineColumn, OffsetCalculator, Span};

const TEXT: &str = "ab\ncé€\n\n😀 z\nlast";

fn at(line: usize, column: usize) -> LineColumn {
    LineColumn { line, column }
}

/// The offset and the flag as a reading of the whole text gives them, for a
/// line that the text has.
fn by_reading(text: &str, line: usize, column: usize) -> (usize, bool) {
    let mut lines = text.split('\n');
    let mut offset = 0;
    let mut ascii = true;
    for _ in 1..line {
        let line = lines.next().unwrap();
        offset += line.len() + 1;
        ascii &= line.is_ascii();
    }
    let prefix = lines.next().unwrap().chars().take(column).collect::<String>();
    (offset + prefix.len(), ascii && prefix.is_ascii())
}

#[test]
fn offsets_of_a_text_with_multi_byte_characters() {
    let mut calculator = CachingOffsetCalculator::<Span>::without_line_history(TEXT);
    assert_eq!(calculator.offset_from_line_column(at(1, 0)), (0, true));
    assert_eq!(calculator.offset_from_line_column(at(1, 2)), (2, true));
    assert_eq!(calculator.offset_from_line_column(at(2, 0)), (3, true));
    assert_eq!(calculator.offset_from_line_column(at(2, 1)), (4, true));
    // 'é' takes two bytes and '€' three.
    assert_eq!(calculator.offset_from_line_column(at(2, 2)), (6, false));
    assert_eq!(calculator.offset_from_line_column(at(2, 3)), (9, false));
    assert_eq!(calculator.offset_from_line_column(at(3, 0)), (10, false));
    assert_eq!(calculator.offset_from_line_column(at(4, 0)), (11, false));
    // '😀' takes four bytes.
    assert_eq!(calculator.offset_from_line_column(at(4, 1)), (15, false));
    assert_eq!(calculator.offset_from_line_column(at(5, 4)), (22, false));
    assert_eq!(TEXT.len(), 22);
}

#[test]
fn forward_queries_agree_with_a_reading_of_the_whole_text() {
    let mut caching = CachingOffsetCalculator::<Span>::without_line_history(TEXT);
    let mut with_history = CachingOffsetCalculator::<Span>::new(TEXT);
    let mut stateless = StatelessOffsetCalculator::<Span>::new(TEXT);
    let mut calculator = OffsetCalculator::<Span>::new(TEXT);
    for line in 1..=5 {
        for column in 0..7 {
            let expected = by_reading(TEXT, line, column);
            assert!(caching.answers(at(line, column)));
            assert_eq!(caching.offset_from_line_column(at(line, column)), expected);
            assert_eq!(with_history.offset_from_line_column(at(line, column)), expected);
            assert_eq!(stateless.offset_from_line_column(at(line, column)), expected);
            assert_eq!(calculator.offset_from_line_column(at(line, column)), expected);
            assert!(TEXT.is_char_boundary(expected.0));
        }
    }
}

#[test]
fn history_answers_in_any_order() {
    let mut with_history = CachingOffsetCalculator::<Span>::new(TEXT);
    let mut stateless = StatelessOffsetCalculator::<Span>::new(TEXT);
    let order = [(3, 0), (1, 1), (5, 2), (2, 2), (2, 9), (4, 1), (1, 0), (5, 9), (4, 3), (3, 5)];
    for _ in 0..2 {
        for (line, column) in order {
            let expected = by_reading(TEXT, line, column);
            assert!(with_history.answers(at(line, column)));
            assert_eq!(with_history.offset_from_line_column(at(line, column)), expected);
            assert_eq!(stateless.offset_from_line_column(at(line, column)), expected);
        }
    }
}

#[test]
fn without_history_positions_read_past_are_not_answered() {
    let mut calculator = CachingOffsetCalculator::<Span>::without_line_history(TEXT);
    assert!(calculator.answers(at(1, 0)));
    assert!(!calculator.answers(at(0, 5)));
    let _ = calculator.offset_from_line_column(at(2, 2));
    assert!(!calculator.answers(at(1, 9)));
    assert!(!calculator.answers(at(2, 1)));
    assert!(calculator.answers(at(2, 2)));
    assert!(calculator.answers(at(2, 3)));
    assert!(calculator.answers(at(4, 0)));

    let mut with_history = OffsetCalculator::<Span>::new(TEXT);
    let _ = with_history.offset_from_line_column(at(2, 2));
    assert!(with_history.answers(at(1, 9)));
    assert!(!with_history.answers(at(0, 0)));
}

#[test]
fn column_past_the_end_of_a_line_is_the_end_of_the_line() {
    let mut calculator = CachingOffsetCalculator::<Span>::new("ab\ncd");
    assert_eq!(calculator.offset_from_line_column(at(1, 2)), (2, true));
    assert_eq!(calculator.offset_from_line_column(at(1, 3)), (2, true));
    assert_eq!(calculator.offset_from_line_column(at(1, 100)), (2, true));
    assert_eq!(calculator.offset_from_line_column(at(2, 0)), (3, true));
    assert_eq!(calculator.offset_from_line_column(at(1, 50)), (2, true));
    assert_eq!(calculator.offset_from_line_column(at(2, usize::MAX)), (5, true));
}

#[test]
fn line_past_the_last_is_the_end_of_the_text() {
    for text in ["", "X", "ab\ncd", "é\n", "a\n\n"] {
        let mut caching = CachingOffsetCalculator::<Span>::without_line_history(text);
        let mut with_history = CachingOffsetCalculator::<Span>::new(text);
        let mut stateless = StatelessOffsetCalculator::<Span>::new(text);
        let end = (text.len(), text.is_ascii());
        let lines = text.split('\n').count();
        for (line, column) in [(lines + 1, 0), (lines + 1, 3), (lines + 5, 0), (usize::MAX, 7)] {
            assert_eq!(caching.offset_from_line_column(at(line, column)), end);
            assert_eq!(with_history.offset_from_line_column(at(line, column)), end);
            assert_eq!(stateless.offset_from_line_column(at(line, column)), end);
        }
        // Back to a line past the last one, and to the last one.
        assert_eq!(with_history.offset_from_line_column(at(lines + 2, 1)), end);
        assert_eq!(
            with_history.offset_from_line_column(at(lines, 0)),
            by_reading(text, lines, 0)
        );
    }
}

#[test]
fn empty_last_line_after_a_line_break() {
    let mut calculator = CachingOffsetCalculator::<Span>::new("a\n");
    assert_eq!(calculator.offset_from_line_column(at(2, 0)), (2, true));
    assert_eq!(calculator.offset_from_line_column(at(2, 1)), (2, true));
    assert_eq!(calculator.offset_from_line_column(at(1, 1)), (1, true));
    assert_eq!(calculator.offset_from_line_column(at(1, 2)), (1, true));
}

#[test]
fn ascii_flag_falls_at_the_first_multi_byte_character() {
    let mut calculator = OffsetCalculator::<Span>::new("ab\ncé\nef");
    assert_eq!(calculator.offset_from_line_column(at(2, 1)), (4, true));
    assert_eq!(calculator.offset_from_line_column(at(2, 2)), (6, false));
    assert_eq!(calculator.offset_from_line_column(at(3, 1)), (8, false));
    assert_eq!(calculator.offset_from_line_column(at(1, 2)), (2, true));
}

#[test]
fn offsets_from_span_gives_both_ends() {
    let mut calculator = OffsetCalculator::<Span>::new(TEXT);
    let span = Span::new(at(2, 1), at(4, 1));
    assert_eq!(calculator.offsets_from_span(&span), (4, 15));
    let earlier = Span::new(at(1, 1), at(1, 2));
    assert_eq!(calculator.offsets_from_span(&earlier), (1, 2));
    let empty = Span::new(at(5, 2), at(5, 2));
    assert_eq!(calculator.offsets_from_span(&empty), (20, 20));
    assert_eq!(empty.start(), empty.end());
}

#[test]
fn ascii_before_the_end_means_ascii_before_the_start() {
    let mut stateless = StatelessOffsetCalculator::<Span>::new(TEXT);
    let positions: Vec<(usize, usize)> =
        (1..=6).flat_map(|line| (0..6).map(move |column| (line, column))).collect();
    for &start in &positions {
        for &end in &positions {
            if start <= end {
                let (start_offset, start_ascii) =
                    stateless.offset_from_line_column(at(start.0, start.1));
                let (end_offset, end_ascii) = stateless.offset_from_line_column(at(end.0, end.1));
                assert!(start_offset <= end_offset);
                assert!(!end_ascii || start_ascii);
            }
        }
    }
}

#[test]
fn advance_chars_stops_at_the_end_of_the_line() {
    assert_eq!(advance_chars("aé€😀\nb", 0, 0), (0, true));
    assert_eq!(advance_chars("aé€😀\nb", 0, 1), (1, true));
    assert_eq!(advance_chars("aé€😀\nb", 0, 2), (3, false));
    assert_eq!(advance_chars("aé€😀\nb", 0, 3), (6, false));
    assert_eq!(advance_chars("aé€😀\nb", 0, 4), (10, false));
    assert_eq!(advance_chars("aé€😀\nb", 0, 5), (10, false));
    assert_eq!(advance_chars("aé€😀\nb", 0, usize::MAX), (10, false));
    assert_eq!(advance_chars("aé€😀\nb", 1, 1), (2, false));
    assert_eq!(advance_chars("aé€😀\nb", 10, 3), (0, true));
    assert_eq!(advance_chars("aé€😀\nb", 11, 3), (1, true));
    assert_eq!(advance_chars("aé€😀\nb", 12, 3), (0, true));
    assert_eq!(advance_chars("", 0, 3), (0, true));
}
