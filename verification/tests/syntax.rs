use washtank::editor::{OpenFile, Size};
use washtank::tree_sitter::calculate_highlights;
use washtank::Editor;

fn spans(text: &str) -> Vec<(usize, usize, usize)> {
    calculate_highlights(text)
        .iter()
        .map(|h| (h.range.start, h.range.end, h.highlight_type_index))
        .collect()
}

#[test]
fn highlights_block_comment_and_string() {
    assert_eq!(spans("fn f() { /* a */ \"b\" }"), vec![(9, 16, 1), (17, 20, 2)]);
}

#[test]
fn highlights_line_comment_first() {
    let found = spans("// hi\nfn f() {}");
    assert_eq!(found.len(), 1);
    assert_eq!(found[0].0, 0);
    assert_eq!(found[0].2, 0);
}

#[test]
fn highlights_nothing_in_plain_code() {
    assert_eq!(spans("fn f() {}"), vec![]);
}

#[test]
fn editor_opens_with_highlights_of_its_text() {
    let text = "fn f() { /* a */ \"b\" }";
    let editor = Editor::with_syntax_highlights(
        OpenFile::from_contents(text, None),
        Size { height: 26, width: 80 },
        false,
        false,
    )
    .expect("every highlight has a color");
    assert_eq!(editor.current_tree_sitter_highlights, calculate_highlights(text));
    assert_eq!(editor.current_highlight_ranges.len(), 2);
}

#[test]
fn editor_recomputes_highlights_after_insert() {
    let mut editor = Editor::with_syntax_highlights(
        OpenFile::from_contents("fn f() {}", None),
        Size { height: 26, width: 80 },
        false,
        false,
    )
    .expect("every highlight has a color");
    assert!(editor.current_tree_sitter_highlights.is_empty());
    editor.cursor_position.column = 8;
    assert!(editor.insert_char('"'));
    assert!(editor.insert_char('"'));
    assert_eq!(
        editor.current_tree_sitter_highlights,
        calculate_highlights("fn f() {\"\"}")
    );
    assert_eq!(editor.current_highlight_ranges.len(), 1);
    assert!(editor.recompute_tree_sitter_highlights());
    assert_eq!(
        editor.current_tree_sitter_highlights,
        calculate_highlights("fn f() {\"\"}")
    );
    assert_eq!(editor.current_tree_sitter_highlights.len(), 1);
}
