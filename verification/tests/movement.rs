use washtank::editor::aggregate::KeyPress;
use washtank::editor::{Event, Happened, Mode, OpenFile, Position, Size};
use washtank::{Editor, EventAggregator, PrintedLine, TreeSitterHighlight};

const NO_INDENTATION: &str = "Hello world\nWhat a great day\n\nHello world\nWhat a great day\n\nGoodbye\n\nHello world\nWhat a great day\n\nHello world\nWhat a great day\n\nHello world\nWhat a great day\n\nHello world\nWhat a great day\n\nGoodbye\n\nHello world\nWhat a great day\n";

fn editor_for(text: &str) -> Editor {
    let highlights: Vec<TreeSitterHighlight> = vec![];
    Editor::new(
        OpenFile::from_contents(text, None),
        highlights,
        Size { height: 26, width: 80 },
        false,
        false,
    )
}

fn press(editor: &mut Editor, aggregator: &mut EventAggregator, keys: &str) -> Vec<Happened> {
    let mut happened = vec![];
    for ch in keys.chars() {
        let key = KeyPress::Char(ch);
        assert!(aggregator.accepts(key));
        if let Some(event) = aggregator.receive(key) {
            if let Some(h) = editor.receive(event) {
                happened.push(h);
            }
        }
    }
    happened
}

fn run(text: &str, keys: &str) -> Editor {
    let mut editor = editor_for(text);
    let mut aggregator = EventAggregator::new(false, false);
    press(&mut editor, &mut aggregator, keys);
    editor
}

fn cursor(editor: &Editor) -> (u16, u16) {
    (editor.cursor_position.row, editor.cursor_position.column)
}

#[test]
fn test_initial_screen() {
    let editor = editor_for(NO_INDENTATION);
    assert_eq!(cursor(&editor), (0, 0));
    assert_eq!(editor.printed_lines.len(), 24);
    for (i, row) in editor.printed_lines.iter().enumerate() {
        assert!(matches!(row, PrintedLine::Line(l) if *l == i));
    }
    assert_eq!(editor.mode, Mode::Normal);
}

#[test]
fn test_move_cursor_down() {
    assert_eq!(cursor(&run(NO_INDENTATION, "j")), (1, 0));
}

#[test]
fn test_move_cursor_right() {
    assert_eq!(cursor(&run(NO_INDENTATION, "ll")), (0, 2));
}

#[test]
fn test_move_cursor_left() {
    assert_eq!(cursor(&run(NO_INDENTATION, "lllh")), (0, 2));
}

#[test]
fn test_remembers_column_when_moving_to_a_new_line() {
    assert_eq!(cursor(&run(NO_INDENTATION, "llj")), (1, 2));
}

#[test]
fn test_disallows_cursoring_past_end_of_line() {
    let keys = "l".repeat(71);
    assert_eq!(cursor(&run(NO_INDENTATION, &keys)), (0, 10));
}

#[test]
fn test_disallows_cursoring_past_beginning_of_line() {
    assert_eq!(cursor(&run(NO_INDENTATION, "lhhhhhhhh")), (0, 0));
}

#[test]
fn test_0_brings_to_beginning_of_line() {
    assert_eq!(cursor(&run(NO_INDENTATION, "lllll0")), (0, 0));
}

#[test]
fn test_dollar_brings_to_end_of_line() {
    assert_eq!(cursor(&run(NO_INDENTATION, "$")), (0, 10));
}

#[test]
fn test_move_cursor_down_multiple() {
    assert_eq!(cursor(&run(NO_INDENTATION, "3j")), (3, 0));
}

#[test]
fn column_is_clamped_on_a_shorter_line_and_restored_on_a_longer_one() {
    let editor = run(NO_INDENTATION, "$jj");
    assert_eq!(cursor(&editor), (2, 0));
    let editor = run(NO_INDENTATION, "$jjj");
    assert_eq!(cursor(&editor), (3, 10));
}

#[test]
fn moving_up_at_the_top_of_the_file_does_nothing() {
    assert_eq!(cursor(&run(NO_INDENTATION, "k")), (0, 0));
    assert_eq!(cursor(&run(NO_INDENTATION, "jjk")), (1, 0));
}

#[test]
fn scrolling_down_past_the_bottom_row() {
    let mut text = String::new();
    for i in 0..40 {
        text.push_str(&format!("line {i}\n"));
    }
    let mut editor = editor_for(&text);
    let mut aggregator = EventAggregator::new(false, false);
    press(&mut editor, &mut aggregator, "30j");
    assert_eq!(cursor(&editor), (23, 0));
    assert!(matches!(editor.top_line, PrintedLine::Line(7)));
    assert!(matches!(editor.printed_lines[0], PrintedLine::Line(7)));
    assert_eq!(editor.printed_lines.len(), 24);
    press(&mut editor, &mut aggregator, "k");
    assert_eq!(cursor(&editor), (22, 0));
}

#[test]
fn scrolling_stops_at_the_end_of_the_file() {
    let mut text = String::new();
    for i in 0..30 {
        text.push_str(&format!("line {i}\n"));
    }
    let mut editor = editor_for(&text);
    let mut aggregator = EventAggregator::new(false, false);
    press(&mut editor, &mut aggregator, "40j");
    assert_eq!(cursor(&editor), (23, 0));
    assert!(matches!(editor.printed_lines[23], PrintedLine::Line(29)));
    assert!(matches!(editor.printed_lines[0], PrintedLine::Line(6)));
}

#[test]
fn scrolling_up_from_the_top_row() {
    let mut text = String::new();
    for i in 0..40 {
        text.push_str(&format!("line {i}\n"));
    }
    let mut editor = editor_for(&text);
    let mut aggregator = EventAggregator::new(false, false);
    press(&mut editor, &mut aggregator, "30j");
    for _ in 0..24 {
        press(&mut editor, &mut aggregator, "k");
    }
    assert_eq!(cursor(&editor), (0, 0));
    assert!(matches!(editor.printed_lines[0], PrintedLine::Line(6)));
}

#[test]
fn test_insert() {
    let mut editor = editor_for(NO_INDENTATION);
    let mut aggregator = EventAggregator::new(false, false);
    press(&mut editor, &mut aggregator, "lie");
    let event = aggregator.receive(KeyPress::Esc).unwrap();
    assert_eq!(event, Event::GoIntoNormalMode);
    assert_eq!(editor.receive(event), None);
    assert_eq!(cursor(&editor), (0, 1));
    assert_eq!(editor.current_file.rope().line(0).to_string(), "Heello world\n");
    assert_eq!(editor.mode, Mode::Normal);
}

#[test]
fn colon_q_enter_quits() {
    let mut editor = editor_for(NO_INDENTATION);
    let mut aggregator = EventAggregator::new(false, false);
    assert!(press(&mut editor, &mut aggregator, ":q").is_empty());
    assert!(matches!(&editor.mode, Mode::ExCommand(c) if c.as_str() == "q"));
    let event = aggregator.receive(KeyPress::Enter).unwrap();
    assert_eq!(event, Event::FinishExCommand);
    assert_eq!(editor.receive(event), Some(Happened::Quit));
    assert_eq!(editor.mode, Mode::Normal);
}

#[test]
fn cursor_position_is_kept_across_mode_changes() {
    let editor = run(NO_INDENTATION, "jl");
    assert_eq!(editor.cursor_position, Position { row: 1, column: 1 });
}
