use washtank::editor::aggregate::KeyPress;
use washtank::editor::fold_line::FoldLine;
use washtank::editor::{OpenFile, Size};
use washtank::fold::Range;
use washtank::{Editor, EventAggregator, PrintedLine, TreeSitterHighlight};

fn foo_rs() -> String {
    let mut text = String::from("fn foo() {\n");
    text.push_str("    let foo = \"foo\";\n");
    for i in 0..10 {
        text.push_str(&format!("    foo({i});\n"));
    }
    text.push_str("}\n\nfn bar() {\n");
    text.push_str("    let bar = \"bar\";\n");
    for i in 0..10 {
        text.push_str(&format!("    bar({i});\n"));
    }
    text.push_str("}\n");
    text
}

fn editor_for(text: &str) -> Editor {
    let highlights: Vec<TreeSitterHighlight> = vec![];
    Editor::new(
        OpenFile::from_contents(text, None),
        highlights,
        Size { height: 26, width: 80 },
        false,
        false,
    )
}

fn run(text: &str, keys: &str) -> Editor {
    let mut editor = editor_for(text);
    let mut aggregator = EventAggregator::new(false, false);
    for ch in keys.chars() {
        if let Some(event) = aggregator.receive(KeyPress::Char(ch)) {
            editor.receive(event);
        }
    }
    editor
}

fn rows(editor: &Editor) -> Vec<String> {
    editor
        .printed_lines
        .iter()
        .map(|row| match row {
            PrintedLine::Line(l) => format!("L{l}"),
            PrintedLine::Fold(f) => format!("F{f}"),
        })
        .collect()
}

/// The text of each row as the screen shows it after the number column:
/// a fold line for a fold, the line itself otherwise.
fn row_texts(editor: &Editor) -> Vec<String> {
    let rope = editor.current_file.rope();
    editor
        .printed_lines
        .iter()
        .map(|row| match row {
            PrintedLine::Line(l) => rope.line(*l).to_string().trim_end_matches('\n').to_string(),
            PrintedLine::Fold(f) => FoldLine::new(&editor.folds[*f], rope).text(76),
        })
        .collect()
}

fn foo_rs_screen() -> Vec<String> {
    vec![
        "fn foo() {",
        "+-- 11 lines: let foo = \"foo\";",
        "}",
        "",
        "fn bar() {",
        "+-- 11 lines: let bar = \"bar\";",
        "}",
    ]
    .into_iter()
    .map(String::from)
    .collect()
}

#[test]
fn test_fold_text() {
    let editor = editor_for(&foo_rs());
    assert_eq!(rows(&editor), vec!["L0", "F0", "L12", "L13", "L14", "F1", "L26"]);
    assert_eq!(editor.folds.len(), 2);
    assert_eq!(editor.folds[0].range, Range { start: 1, end: 12 });
    assert_eq!(editor.folds[1].range, Range { start: 15, end: 26 });
    assert_eq!(row_texts(&editor), foo_rs_screen());
    assert_eq!(editor.cursor_position.row, 0);
}

#[test]
fn test_cursor_on_fold() {
    let editor = run(&foo_rs(), "jjjjj");
    assert_eq!(editor.cursor_position.row, 5);
    assert!(matches!(editor.printed_lines[5], PrintedLine::Fold(1)));
    assert_eq!(row_texts(&editor), foo_rs_screen());
}

#[test]
fn test_move_cursor_down_multiple_last_line_above_bottom_line() {
    let editor = run(&foo_rs(), "8j");
    assert_eq!((editor.cursor_position.row, editor.cursor_position.column), (6, 0));
}

#[test]
fn test_move_cursor_down_multiple_already_on_last_line() {
    let editor = run(&foo_rs(), "jjjjjj3j");
    assert_eq!((editor.cursor_position.row, editor.cursor_position.column), (6, 0));
}

#[test]
fn test_cursor_in_unfolded_moves_to_fold_line_when_folding_one_level() {
    let editor = run(&foo_rs(), "jzojjjj");
    assert_eq!(editor.cursor_position.row, 5);
    assert_eq!(editor.folds.len(), 1);
    let editor = run(&foo_rs(), "jzojjjjzc");
    assert_eq!(editor.cursor_position.row, 1);
    assert_eq!(rows(&editor), vec!["L0", "F0", "L12", "L13", "L14", "F1", "L26"]);
    assert_eq!(row_texts(&editor), foo_rs_screen());
}

#[test]
fn test_cursor_in_unfolded_moves_to_fold_line_when_folding_fully() {
    let editor = run(&foo_rs(), "jzojjjjzC");
    assert_eq!(editor.cursor_position.row, 1);
    assert_eq!(rows(&editor), vec!["L0", "F0", "L12", "L13", "L14", "F1", "L26"]);
    assert_eq!(row_texts(&editor), foo_rs_screen());
}

#[test]
fn fully_opening_a_fold_shows_its_lines() {
    let editor = run(&foo_rs(), "jzO");
    assert_eq!(editor.folds.len(), 1);
    assert_eq!(editor.printed_lines.len(), 17);
    assert_eq!(editor.cursor_position.row, 1);
    assert!(matches!(editor.printed_lines[1], PrintedLine::Line(1)));
}

#[test]
fn closing_a_fully_closed_fold_changes_nothing() {
    let editor = run(&foo_rs(), "jzc");
    assert_eq!(editor.folds[0].num_closes, 1);
    assert_eq!(rows(&editor), vec!["L0", "F0", "L12", "L13", "L14", "F1", "L26"]);
}

#[test]
fn opening_one_level_lifts_nested_folds() {
    let text = "fn foo() {\n    a\n    b\n        c\n        d\n    e\n}\n";
    let editor = editor_for(text);
    assert_eq!(editor.folds.len(), 1);
    assert_eq!(editor.folds[0].nested.len(), 1);
    let editor = run(text, "jzo");
    assert_eq!(editor.folds.len(), 1);
    assert_eq!(editor.folds[0].range, Range { start: 3, end: 5 });
    assert_eq!(editor.folds[0].num_closes, 1);
    assert_eq!(editor.folds[0].full_num_indents, 2);
    assert_eq!(rows(&editor), vec!["L0", "L1", "L2", "F0", "L5", "L6"]);
}

#[test]
fn closing_one_level_inside_a_nested_fold_closes_the_innermost() {
    let text = "fn foo() {\n    a\n    b\n        c\n        d\n    e\n}\n";
    let editor = run(text, "jzOjjj");
    assert_eq!(editor.cursor_position.row, 4);
    let editor = run(text, "jzOjjjzc");
    assert_eq!(editor.folds.len(), 1);
    assert_eq!(editor.folds[0].range, Range { start: 3, end: 5 });
    assert_eq!(editor.folds[0].full_num_indents, 2);
    assert_eq!(editor.cursor_position.row, 3);
    assert_eq!(rows(&editor), vec!["L0", "L1", "L2", "F0", "L5", "L6"]);
}
