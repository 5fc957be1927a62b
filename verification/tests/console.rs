use std::collections::HashSet;

use minedesign::ui::elements::console::{
    append_console_entry, apply_pending_toggle, build_presentation_rows, console_entry_text,
    console_severity_label, console_text, expand_tabs, wrapped_row_ranges, ConsoleEntry,
    ConsoleEntryState, ConsoleSeverity, ConsoleUiState, PresentationRow,
};

fn entry(id: u64, severity: ConsoleSeverity, state: ConsoleEntryState, details: &[&str]) -> ConsoleEntry {
    ConsoleEntry {
        id,
        timestamp: "12:00:01".to_string(),
        severity,
        state,
        title: "Import".to_string(),
        summary: "3 files".to_string(),
        details: details.iter().map(|d| d.to_string()).collect(),
    }
}

fn slices<'a>(text: &'a str, ranges: &[(usize, usize)]) -> Vec<&'a str> {
    ranges.iter().map(|&(a, b)| &text[a..b]).collect()
}

#[test]
fn wrap_splits_at_newlines() {
    let text = "ab\ncd";
    let ranges = wrapped_row_ranges(text, 80);
    assert_eq!(ranges, vec![(0, 2), (3, 5)]);
    assert_eq!(slices(text, &ranges), vec!["ab", "cd"]);
}

#[test]
fn wrap_breaks_long_rows() {
    let text = "abcdefg";
    let ranges = wrapped_row_ranges(text, 3);
    assert_eq!(slices(text, &ranges), vec!["abc", "def", "g"]);
}

#[test]
fn wrap_zero_columns_acts_as_one() {
    let ranges = wrapped_row_ranges("abc", 0);
    assert_eq!(ranges, vec![(0, 1), (1, 2), (2, 3)]);
}

#[test]
fn wrap_empty_and_trailing_newline() {
    assert_eq!(wrapped_row_ranges("", 10), vec![(0, 0)]);
    assert_eq!(wrapped_row_ranges("a\n", 10), vec![(0, 1), (2, 2)]);
}

#[test]
fn wrap_counts_wide_glyphs_as_two_cells() {
    let text = "éé";
    let ranges = wrapped_row_ranges(text, 3);
    assert_eq!(ranges, vec![(0, 2), (2, 4)]);
    assert_eq!(slices(text, &ranges), vec!["é", "é"]);
}

#[test]
fn wrap_tab_stops() {
    // "ab" uses two cells, the tab advances to column four.
    let text = "ab\tc";
    assert_eq!(wrapped_row_ranges(text, 5), vec![(0, 4)]);
    assert_eq!(wrapped_row_ranges(text, 4), vec![(0, 3), (3, 4)]);
}

#[test]
fn wide_glyph_alone_in_narrow_row() {
    let text = "日本";
    let ranges = wrapped_row_ranges(text, 1);
    assert_eq!(slices(text, &ranges), vec!["日", "本"]);
}

#[test]
fn expand_tabs_to_stops() {
    assert_eq!(expand_tabs("a\tb", 4), "a   b");
    assert_eq!(expand_tabs("\t", 4), "    ");
    assert_eq!(expand_tabs("abcd\te", 4), "abcd    e");
    assert_eq!(expand_tabs("no tabs", 0), "no tabs");
    assert_eq!(expand_tabs("é\tx", 4), "é  x");
    assert_eq!(expand_tabs("no tabs", 8), "no tabs");
}

#[test]
fn severity_labels() {
    assert_eq!(console_severity_label(&entry(1, ConsoleSeverity::Info, ConsoleEntryState::Finished, &[])), "INFO");
    assert_eq!(console_severity_label(&entry(1, ConsoleSeverity::Success, ConsoleEntryState::Finished, &[])), "SUCCESS");
    assert_eq!(console_severity_label(&entry(1, ConsoleSeverity::Warn, ConsoleEntryState::Finished, &[])), "WARN");
    assert_eq!(console_severity_label(&entry(1, ConsoleSeverity::Error, ConsoleEntryState::Finished, &[])), "ERROR");
    assert_eq!(console_severity_label(&entry(1, ConsoleSeverity::Error, ConsoleEntryState::Pending, &[])), "PENDING");
}

#[test]
fn entry_text_layout() {
    let e = entry(7, ConsoleSeverity::Warn, ConsoleEntryState::Finished, &["first\r\nsecond\n", "third"]);
    assert_eq!(
        console_entry_text(&e),
        "[12:00:01] [WARN] Import: 3 files\n  first\n  second\n  third\n"
    );
}

#[test]
fn entry_text_without_details() {
    let e = entry(7, ConsoleSeverity::Info, ConsoleEntryState::Pending, &[]);
    assert_eq!(console_entry_text(&e), "[12:00:01] [PENDING] Import: 3 files\n");
}

#[test]
fn detail_lines_keep_empty_lines_and_lone_carriage_returns() {
    let e = entry(1, ConsoleSeverity::Info, ConsoleEntryState::Finished, &["a\n\nb\r", ""]);
    assert_eq!(console_entry_text(&e), "[12:00:01] [INFO] Import: 3 files\n  a\n  \n  b\r\n");
}

#[test]
fn console_text_concatenates_entries() {
    let entries = vec![
        entry(1, ConsoleSeverity::Info, ConsoleEntryState::Finished, &[]),
        entry(2, ConsoleSeverity::Error, ConsoleEntryState::Finished, &["boom"]),
    ];
    let mut expected = console_entry_text(&entries[0]);
    expected.push_str(&console_entry_text(&entries[1]));
    assert_eq!(console_text(&entries), expected);
    assert_eq!(console_text(&[]), "");
    let mut appended = String::from("> ");
    append_console_entry(&mut appended, &entries[1]);
    assert_eq!(appended, format!("> {}", console_entry_text(&entries[1])));
}

#[test]
fn pending_toggle_waits_for_its_frame() {
    let mut state = ConsoleUiState::default();
    state.pending_toggle = Some((5, 10));
    assert_eq!(apply_pending_toggle(&mut state, 10), None);
    assert_eq!(state.pending_toggle, Some((5, 10)));
    assert_eq!(state.presentation_revision, 0);
    assert_eq!(apply_pending_toggle(&mut state, 11), Some(true));
    assert!(state.expanded.contains(&5));
    assert_eq!(state.pending_toggle, None);
    assert_eq!(state.presentation_revision, 1);
}

#[test]
fn toggling_twice_closes_again() {
    let mut state = ConsoleUiState::default();
    state.pending_toggle = Some((5, 1));
    assert_eq!(apply_pending_toggle(&mut state, 2), Some(true));
    state.pending_toggle = Some((5, 2));
    assert_eq!(apply_pending_toggle(&mut state, 3), Some(false));
    assert!(state.expanded.is_empty());
    assert_eq!(state.presentation_revision, 2);
}

#[test]
fn nothing_pending_changes_nothing() {
    let mut state = ConsoleUiState::default();
    assert_eq!(apply_pending_toggle(&mut state, 100), None);
    assert_eq!(state.presentation_revision, 0);
}

#[test]
fn revision_wraps() {
    let mut state = ConsoleUiState { expanded: HashSet::new(), pending_toggle: Some((1, 0)), presentation_revision: u64::MAX };
    assert_eq!(apply_pending_toggle(&mut state, 1), Some(true));
    assert_eq!(state.presentation_revision, 0);
}

#[test]
fn rows_for_collapsed_and_expanded_entries() {
    let entries = vec![
        entry(1, ConsoleSeverity::Info, ConsoleEntryState::Finished, &["abcdef"]),
        entry(2, ConsoleSeverity::Info, ConsoleEntryState::Finished, &["xy", "z\nw"]),
    ];
    let mut state = ConsoleUiState::default();
    assert_eq!(
        build_presentation_rows(&entries, &state, 4),
        vec![PresentationRow::Header { entry_index: 0 }, PresentationRow::Header { entry_index: 1 }]
    );
    state.expanded.insert(2);
    assert_eq!(
        build_presentation_rows(&entries, &state, 4),
        vec![
            PresentationRow::Header { entry_index: 0 },
            PresentationRow::Header { entry_index: 1 },
            PresentationRow::Detail { entry_index: 1, detail_index: 0, byte_range: (0, 2) },
            PresentationRow::Detail { entry_index: 1, detail_index: 1, byte_range: (0, 1) },
            PresentationRow::Detail { entry_index: 1, detail_index: 1, byte_range: (2, 3) },
        ]
    );
    state.expanded.insert(1);
    let rows = build_presentation_rows(&entries, &state, 4);
    assert_eq!(rows[1], PresentationRow::Detail { entry_index: 0, detail_index: 0, byte_range: (0, 4) });
    assert_eq!(rows[2], PresentationRow::Detail { entry_index: 0, detail_index: 0, byte_range: (4, 6) });
    assert_eq!(rows.len(), 7);
}

#[test]
fn wrapped_rows_hold_no_newline_and_fill_greedily() {
    // "ab" fills two columns; "c" would overflow, so it opens the next row;
    // the newline ends "c" and belongs to no row; the wide "é" is alone on
    // a one-column row.
    assert_eq!(wrapped_row_ranges("abc\nd", 2), vec![(0, 2), (2, 3), (4, 5)]);
    assert_eq!(wrapped_row_ranges("éa", 1), vec![(0, 2), (2, 3)]);
}
