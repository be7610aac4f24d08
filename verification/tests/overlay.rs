use ropey::Rope;
use washtank::editor::chunks::{compute_printed_line_chunks, LineChunk, PrintedLineChunks};
use washtank::editor::highlight::compute_highlight_ranges;
use washtank::editor::{Color, HighlightRange, Range, Style};
use washtank::{PrintedLine, TreeSitterHighlight};

fn red() -> Color {
    Color::Rgb { r: 255, g: 0, b: 0 }
}

fn green() -> Color {
    Color::Rgb { r: 0, g: 255, b: 0 }
}

fn highlight(start: usize, end: usize, highlight_type_index: usize) -> TreeSitterHighlight {
    TreeSitterHighlight { range: Range { start, end }, highlight_type_index }
}

#[test]
fn selection_over_two_highlights_splits_at_every_boundary() {
    let ranges = compute_highlight_ranges(
        &[highlight(2, 4, 0), highlight(6, 8, 1)],
        Some(Range { start: 3, end: 10 }),
        &[red(), green()],
    );
    let got: Vec<(usize, usize, Option<Color>, Option<Color>)> = ranges
        .iter()
        .map(|h| (h.range.start, h.range.end, h.style.foreground_color, h.style.background_color))
        .collect();
    let marked = Some(Color::AnsiValue(94));
    assert_eq!(
        got,
        vec![
            (2, 3, Some(red()), None),
            (3, 4, Some(red()), marked),
            (4, 6, None, marked),
            (6, 8, Some(green()), marked),
            (8, 10, None, marked),
        ]
    );
}

#[test]
fn selection_before_all_highlights_stays_whole() {
    let ranges = compute_highlight_ranges(
        &[highlight(5, 7, 0)],
        Some(Range { start: 1, end: 3 }),
        &[red()],
    );
    let got: Vec<(usize, usize)> = ranges.iter().map(|h| (h.range.start, h.range.end)).collect();
    assert_eq!(got, vec![(1, 3), (5, 7)]);
}

#[test]
fn a_row_is_cut_only_where_a_highlight_range_starts_or_ends() {
    let style = Style { foreground_color: Some(red()), background_color: None };
    let rope = Rope::from_str("ab cd");
    let rows = compute_printed_line_chunks(
        &vec![PrintedLine::Line(0)],
        &rope,
        &vec![HighlightRange { range: Range { start: 1, end: 3 }, style }],
    );
    assert_eq!(rows.len(), 1);
    match &rows[0] {
        PrintedLineChunks::Line(line, chunks) => {
            assert_eq!(*line, 0);
            assert_eq!(
                chunks.to_vec(),
                vec![
                    LineChunk { chunk_index: 0, chunk_start_byte: 0, chunk_end_byte: 1, style: None },
                    LineChunk { chunk_index: 0, chunk_start_byte: 1, chunk_end_byte: 3, style: Some(style) },
                    LineChunk { chunk_index: 0, chunk_start_byte: 3, chunk_end_byte: 5, style: None },
                ]
            );
        }
        PrintedLineChunks::Fold(_) => panic!("expected a line row"),
    }
}
