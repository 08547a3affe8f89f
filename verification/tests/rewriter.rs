use rewriter::interface::Span as _;
use rewriter::{LineColumn, OffsetCalculator, Rewriter, Span};

fn span(start: (usize, usize), end: (usize, usize)) -> Span {
    Span::new(
        LineColumn { line: start.0, column: start.1 },
        LineColumn { line: end.0, column: end.1 },
    )
}

#[test]
fn no_edit_gives_the_original() {
    for text in ["", "X", "ab\ncd", "a\n", "\n\n", "día\nnoche\n", "😀"] {
        let rewriter: Rewriter<'_, Span> = Rewriter::new(text);
        assert_eq!(rewriter.contents(), text);
    }
}

#[test]
fn replaces_the_only_character() {
    let mut rewriter = Rewriter::new("X");
    let replaced = rewriter.rewrite(&span((1, 0), (1, 1)), "Y");
    assert_eq!(replaced, "X");
    assert_eq!(rewriter.contents(), "Y");
}

#[test]
fn replaces_across_a_line_break() {
    let mut rewriter = Rewriter::new("ab\ncd");
    let replaced = rewriter.rewrite(&span((1, 1), (2, 1)), "Z");
    assert_eq!(replaced, "b\nc");
    assert_eq!(rewriter.contents(), "aZd");
}

#[test]
fn spans_at_the_edges_of_a_one_line_text() {
    let cases: [((usize, usize), (usize, usize), &str, &str); 4] = [
        ((1, 1), (1, 2), "", "XY"),
        ((2, 0), (2, 1), "", "XY"),
        ((1, 0), (1, 2), "X", "Y"),
        ((1, 0), (2, 1), "X", "Y"),
    ];
    for (start, end, replaced, contents) in cases {
        let mut rewriter = Rewriter::new("X");
        assert_eq!(rewriter.rewrite(&span(start, end), "Y"), replaced);
        assert_eq!(rewriter.contents(), contents);
    }
}

#[test]
fn single_edit_is_prefix_replacement_suffix() {
    let text = "one two\nthree four\nfive";
    // Characters 4..13 of the text: "two\nthree".
    let mut rewriter = Rewriter::new(text);
    let replaced = rewriter.rewrite(&span((1, 4), (2, 5)), "2\n3");
    assert_eq!(replaced, &text[4..13]);
    assert_eq!(rewriter.contents(), format!("{}{}{}", &text[..4], "2\n3", &text[13..]));
}

#[test]
fn edits_in_order_compose() {
    let text = "fn main() {\n    let x = 1;\n    let y = 2;\n}\n";
    let mut rewriter = Rewriter::new(text);
    assert_eq!(rewriter.rewrite(&span((1, 3), (1, 7)), "start"), "main");
    assert_eq!(rewriter.rewrite(&span((2, 8), (2, 9)), "first"), "x");
    assert_eq!(rewriter.rewrite(&span((2, 12), (2, 13)), "10"), "1");
    assert_eq!(rewriter.rewrite(&span((3, 4), (3, 14)), ""), "let y = 2;");
    assert_eq!(rewriter.rewrite(&span((4, 1), (4, 1)), " // end"), "");
    assert_eq!(
        rewriter.contents(),
        "fn start() {\n    let first = 10;\n    \n} // end\n"
    );
}

#[test]
fn edits_in_order_equal_edits_from_the_last() {
    let text = "alpha beta\ngamma delta\nepsilon";
    let edits: [((usize, usize), (usize, usize), &str); 3] = [
        ((1, 0), (1, 5), "A"),
        ((1, 6), (2, 5), "<>"),
        ((3, 2), (3, 7), "!"),
    ];
    let mut rewriter = Rewriter::new(text);
    for (start, end, replacement) in edits {
        let _ = rewriter.rewrite(&span(start, end), replacement);
    }
    // The same edits as ranges of characters, made from the last to the first.
    let mut expected = String::from(text);
    for (from, to, replacement) in [(25, 30, "!"), (6, 16, "<>"), (0, 5, "A")] {
        expected.replace_range(from..to, replacement);
    }
    assert_eq!(rewriter.contents(), expected);
    assert_eq!(expected, "A <> delta\nep!");
}

#[test]
fn adjacent_and_empty_spans() {
    let mut rewriter = Rewriter::new("abc");
    assert_eq!(rewriter.rewrite(&span((1, 0), (1, 0)), "<"), "");
    assert_eq!(rewriter.rewrite(&span((1, 0), (1, 1)), "A"), "a");
    assert_eq!(rewriter.rewrite(&span((1, 1), (1, 2)), "B"), "b");
    assert_eq!(rewriter.rewrite(&span((1, 3), (1, 3)), ">"), "");
    assert_eq!(rewriter.contents(), "<ABc>");
}

#[test]
fn column_after_a_multi_byte_character() {
    // 'é' takes two bytes, '€' three and '😀' four.
    let text = "é€😀x\nyé";
    let mut rewriter = Rewriter::new(text);
    assert_eq!(rewriter.rewrite(&span((1, 1), (1, 2)), "E"), "€");
    assert_eq!(rewriter.rewrite(&span((1, 3), (1, 4)), "X"), "x");
    assert_eq!(rewriter.rewrite(&span((2, 1), (2, 2)), "e"), "é");
    assert_eq!(rewriter.contents(), "éE😀X\nye");
}

#[test]
fn out_of_order_span_is_not_accepted() {
    let mut rewriter = Rewriter::new("ab\ncd\nef");
    let second = span((2, 0), (2, 1));
    assert!(rewriter.can_rewrite(&second));
    let _ = rewriter.rewrite(&second, "C");
    // Starts before the end of the span before.
    assert!(!rewriter.can_rewrite(&span((1, 0), (1, 1))));
    assert!(!rewriter.can_rewrite(&span((2, 0), (2, 2))));
    // Ends before it starts.
    assert!(!rewriter.can_rewrite(&span((3, 1), (3, 0))));
    // Line 0 does not exist.
    assert!(!Rewriter::new("ab").can_rewrite(&span((0, 0), (1, 1))));
    // Starts where the span before ended.
    let next = span((2, 1), (3, 0));
    assert!(rewriter.can_rewrite(&next));
    assert_eq!(rewriter.rewrite(&next, "-"), "d\n");
    assert_eq!(rewriter.contents(), "ab\nC-ef");
}

#[test]
fn calculator_is_handed_from_one_rewriter_to_the_next() {
    let text = "ab\ncd\nef";
    let calculator: OffsetCalculator<'_, Span> = OffsetCalculator::new(text);
    let mut first = Rewriter::with_offset_calculator(text, calculator);
    assert_eq!(first.rewrite(&span((3, 0), (3, 1)), "E"), "e");
    let (contents, calculator) = first.into_parts();
    assert_eq!(contents, "ab\ncd\nEf");

    // The calculator has read to line 3, and its history answers for line 1.
    let mut second = Rewriter::with_offset_calculator(text, calculator);
    let early = span((1, 1), (2, 1));
    assert!(second.can_rewrite(&early));
    assert_eq!(second.rewrite(&early, "-"), "b\nc");
    assert_eq!(second.contents(), "a-d\nef");
}

#[test]
fn rewriter_without_history_cannot_go_back_on_a_used_calculator() {
    let text = "ab\ncd";
    let mut first: Rewriter<'_, Span> = Rewriter::new(text);
    let _ = first.rewrite(&span((2, 0), (2, 1)), "C");
    let (_, calculator) = first.into_parts();
    let second = Rewriter::with_offset_calculator(text, calculator);
    assert!(!second.can_rewrite(&span((1, 0), (1, 1))));
    assert!(second.can_rewrite(&span((2, 1), (2, 2))));
}

#[test]
fn span_reports_its_ends() {
    let span = span((3, 4), (5, 6));
    assert_eq!(span.start(), LineColumn { line: 3, column: 4 });
    assert_eq!(span.end(), LineColumn { line: 5, column: 6 });
    assert_eq!(Span::line_column(7, 8), LineColumn { line: 7, column: 8 });
}
