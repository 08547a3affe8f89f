use rewriter::offset_based_rewriter::impls::{EagerRewriter, LazyRewriter};
use rewriter::offset_based_rewriter::{Interface, OffsetBasedRewriter};

#[test]
fn lazy_rewriter_without_edits() {
    assert_eq!(LazyRewriter::new("día\n").contents(), "día\n");
    assert_eq!(EagerRewriter::new("día\n").contents(), "día\n");
    assert_eq!(OffsetBasedRewriter::new("día\n").contents(), "día\n");
    assert_eq!(OffsetBasedRewriter::new("").contents(), "");
}

#[test]
fn lazy_rewriter_splices_by_byte_offsets() {
    // "é" takes the bytes 1..3 of "aéb".
    let mut rewriter = LazyRewriter::new("aéb\ncd");
    assert_eq!(rewriter.rewrite(1, 3, "E"), "é");
    assert_eq!(rewriter.rewrite(4, 6, "…"), "\nc");
    assert_eq!(rewriter.contents(), "aEb…d");
}

#[test]
fn eager_rewriter_moves_later_offsets() {
    let mut rewriter = EagerRewriter::new("aéb\ncd");
    // Longer than what it replaces: later offsets move to the right.
    assert_eq!(rewriter.rewrite(0, 1, "AAAA"), "a");
    // Shorter: they move back to the left.
    assert_eq!(rewriter.rewrite(1, 4, ""), "éb");
    assert_eq!(rewriter.rewrite(5, 6, "ç"), "c");
    assert_eq!(rewriter.rewrite(7, 7, "!"), "");
    assert_eq!(rewriter.contents(), "AAAA\nçd!");
}

#[test]
fn offset_based_rewriter_returns_what_it_replaced() {
    let mut rewriter = OffsetBasedRewriter::new("hello world");
    assert_eq!(rewriter.rewrite(0, 5, "goodbye"), "hello");
    assert_eq!(rewriter.rewrite(5, 5, ","), "");
    assert_eq!(rewriter.rewrite(6, 11, "all"), "world");
    assert_eq!(rewriter.contents(), "goodbye, all");
}

fn all_three(text: &str, edits: &[(usize, usize, &str)]) -> String {
    let mut lazy = LazyRewriter::new(text);
    let mut eager = EagerRewriter::new(text);
    let mut both = OffsetBasedRewriter::new(text);
    for &(start, end, replacement) in edits {
        let replaced = lazy.rewrite(start, end, replacement);
        assert_eq!(replaced, &text[start..end]);
        assert_eq!(eager.rewrite(start, end, replacement), replaced);
        assert_eq!(both.rewrite(start, end, replacement), replaced);
    }
    let contents = lazy.contents();
    assert_eq!(eager.contents(), contents);
    assert_eq!(both.contents(), contents);
    contents
}

#[test]
fn lazy_and_eager_rewriters_agree() {
    let text = "αβγ one\ntwo 😀 three\n\nfour";
    assert_eq!(all_three(text, &[]), text);
    assert_eq!(all_three(text, &[(0, 0, "")]), text);
    assert_eq!(all_three(text, &[(0, text.len(), "")]), "");
    assert_eq!(all_three(text, &[(text.len(), text.len(), "end")]), format!("{text}end"));
    assert_eq!(
        all_three(text, &[(0, 6, "abc"), (6, 7, ""), (11, 14, "2"), (15, 19, ":-)"), (27, 31, "4")]),
        "abcone\n2 :-) three\n\n4"
    );
}

#[test]
fn offset_edits_in_order_equal_edits_from_the_last() {
    let text = "0123456789";
    let edits = [(1, 3, "a"), (3, 3, "bcd"), (5, 9, ""), (9, 10, "z")];
    let mut expected = String::from(text);
    for &(start, end, replacement) in edits.iter().rev() {
        expected.replace_range(start..end, replacement);
    }
    assert_eq!(all_three(text, &edits), expected);
    assert_eq!(expected, "0abcd34z");
}
