use ropey::Rope;

use washtank::editor::fold_line::FoldLine;
use washtank::editor::view::{RelativeLineNumber, RelativeOrCurrentLineNum, StatusLine};
use washtank::editor::{OpenFile, Size};
use washtank::fold::Range;
use washtank::{Editor, Fold, TreeSitterHighlight};

fn foo_rs() -> String {
    let mut text = String::from("fn foo() {\n");
    text.push_str("    let foo = \"foo\";\n");
    for i in 0..10 {
        text.push_str(&format!("    foo({i});\n"));
    }
    text.push_str("}\n\nfn bar() {\n");
    text.push_str("    let bar = \"bar\";\n");
    for i in 0..10 {
        text.push_str(&format!("    bar({i});\n"));
    }
    text.push_str("}\n");
    text
}

fn editor_for(text: &str) -> Editor {
    let highlights: Vec<TreeSitterHighlight> = vec![];
    Editor::new(
        OpenFile::from_contents(text, None),
        highlights,
        Size { height: 26, width: 80 },
        false,
        false,
    )
}

fn fold(start: usize, end: usize, num_closes: usize, full_num_indents: usize) -> Fold {
    Fold {
        range: Range { start, end },
        num_closes,
        full_num_indents,
        nested: vec![],
    }
}

#[test]
fn fold_lines_show_the_first_line_of_each_fold() {
    let editor = editor_for(&foo_rs());
    let rope = editor.current_file.rope();
    assert_eq!(
        FoldLine::new(&editor.folds[0], rope).text(80),
        "+-- 11 lines: let foo = \"foo\";"
    );
    assert_eq!(
        FoldLine::new(&editor.folds[1], rope).text(80),
        "+-- 11 lines: let bar = \"bar\";"
    );
}

#[test]
fn fold_line_is_cut_at_the_width() {
    let rope = Rope::from_str("a\n    let foo = \"foo\";\nb\n");
    let f = fold(1, 2, 1, 1);
    assert_eq!(FoldLine::new(&f, &rope).text(20), "+-- 1 lines: let foo");
    assert_eq!(FoldLine::new(&f, &rope).text(13), "+-- 1 lines: ");
}

#[test]
fn fold_line_dashes_count_open_levels_and_long_counts_are_not_padded() {
    let mut text = String::from("x\n");
    for _ in 0..150 {
        text.push_str("        y\n");
    }
    let rope = Rope::from_str(&text);
    let f = fold(1, 151, 1, 3);
    assert_eq!(FoldLine::new(&f, &rope).text(80), "+----150 lines: y");
}

#[test]
fn fold_line_of_a_blank_line_shows_only_the_header() {
    let rope = Rope::from_str("a\n      \nb\n");
    let f = fold(1, 2, 1, 1);
    assert_eq!(FoldLine::new(&f, &rope).text(80), "+-- 1 lines: ");
    // Nothing of the line is shown, so a narrow width is no trouble.
    assert_eq!(FoldLine::new(&f, &rope).text(5), "+-- 1 lines: ");
}

#[test]
fn fold_line_cuts_between_multibyte_chars() {
    let rope = Rope::from_str("a\n  héllo\n");
    let f = fold(1, 2, 1, 1);
    // 13 bytes of header, then `h` (1 byte) and `é` (2 bytes).
    assert_eq!(FoldLine::new(&f, &rope).text(16), "+-- 1 lines: hé");
}

#[test]
fn relative_line_numbers_are_right_aligned_and_current_one_left_aligned() {
    let current = RelativeLineNumber::new(4, RelativeOrCurrentLineNum::Current(6));
    assert_eq!(current.text(), "7   ");
    let relative = RelativeLineNumber::new(4, RelativeOrCurrentLineNum::Relative(12));
    assert_eq!(relative.text(), "  12");
}

#[test]
fn status_line_names_the_file_or_says_no_name() {
    let named = StatusLine::new(50, Some("foo.rs"), 27, 3);
    assert_eq!(named.text(), "foo.rs [50%] 27 lines |3");
    let anonymous = StatusLine::new(0, None, 1, 0);
    assert_eq!(anonymous.text(), "[No Name] [0%] 1 lines |0");
    assert_eq!(StatusLine::height(), 1);
}

#[test]
fn number_column_is_at_least_three_wide() {
    let editor = editor_for(&foo_rs());
    assert_eq!(editor.num_relative_line_number_columns(), 3);
    assert_eq!(editor.cursor_screen_position(), (4, 0));
}
