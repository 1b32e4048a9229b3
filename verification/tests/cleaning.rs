use docx_cleaner::cleaner::clean_text;
use docx_cleaner::counters::CounterStore;
use docx_cleaner::document::{clean_document, Document, Paragraph};
use docx_cleaner::report::{
    cleaned_file_name, render_report, report_rows, sort_rows_desc, total_count, ReportRow,
};
use docx_cleaner::rules::{ConfigError, RuleTable, FALLBACK_MARKER};

fn table_and_counters(config: &str) -> (RuleTable, CounterStore) {
    let table = RuleTable::load(config).expect("config should parse");
    let counters = CounterStore::new(&table.disallowed_chars());
    (table, counters)
}

fn count_of(counters: &CounterStore, c: char) -> usize {
    counters
        .snapshot()
        .into_iter()
        .find(|p| p.0 == c)
        .map(|p| p.1)
        .unwrap_or(0)
}

#[test]
fn accented_e_is_replaced_and_spaces_collapse() {
    let (table, mut counters) = table_and_counters(r#"{"é": ["Accented e","e"]}"#);
    let (cleaned, _) = clean_text(&table, &mut counters, "café  bar");
    assert_eq!(cleaned, "cafe bar");
    assert_eq!(count_of(&counters, 'é'), 1);
}

#[test]
fn missing_replacement_falls_back_to_marker() {
    let (table, mut counters) = table_and_counters(r#"{"★": ["Star", ""]}"#);
    let (cleaned, _) = clean_text(&table, &mut counters, "win★");
    assert_eq!(cleaned, format!("win{}", FALLBACK_MARKER));
    assert_eq!(count_of(&counters, '★'), 1);
}

#[test]
fn empty_fragment_stays_empty_and_counts_nothing() {
    let (table, mut counters) = table_and_counters(r#"{"é": ["Accented e","e"]}"#);
    let (cleaned, runs) = clean_text(&table, &mut counters, "");
    assert_eq!(cleaned, "");
    assert_eq!(runs, 0);
    assert_eq!(count_of(&counters, 'é'), 0);
}

#[test]
fn space_runs_are_collapsed_and_counted() {
    let (table, mut counters) = table_and_counters(r#"{"é": ["Accented e","e"]}"#);
    let (cleaned, runs) = clean_text(&table, &mut counters, "a   b  c d");
    assert_eq!(cleaned, "a b c d");
    assert_eq!(runs, 2);
}

#[test]
fn cleaning_is_idempotent() {
    let (table, mut counters) = table_and_counters(r#"{"é": ["Accented e","e"]}"#);
    let (once, _) = clean_text(&table, &mut counters, "café  bar é  é");
    let (twice, _) = clean_text(&table, &mut counters, once.as_str());
    assert_eq!(once, twice);
}

#[test]
fn replacement_with_space_can_create_then_collapse_runs() {
    let (table, mut counters) = table_and_counters(r#"{"_": ["Underscore"," "]}"#);
    let (cleaned, _) = clean_text(&table, &mut counters, "a__b _c");
    assert_eq!(cleaned, "a b c");
    assert_eq!(count_of(&counters, '_'), 3);
}

#[test]
fn document_pass_counts_every_occurrence() {
    let (table, mut counters) = table_and_counters(r#"{"é": ["Accented e","e"], "★": ["Star",""]}"#);
    let mut doc = Document {
        paragraphs: vec![
            Paragraph {
                runs: vec!["é and ★".to_string(), "more é".to_string()],
            },
            Paragraph {
                runs: vec!["★★".to_string()],
            },
        ],
    };
    clean_document(&table, &mut counters, &mut doc);
    assert_eq!(count_of(&counters, 'é'), 2);
    assert_eq!(count_of(&counters, '★'), 3);
    assert_eq!(doc.paragraphs[0].runs[0], format!("e and {}", FALLBACK_MARKER));
    assert_eq!(doc.paragraphs[0].runs[1], "more e");
    assert_eq!(
        doc.paragraphs[1].runs[0],
        format!("{}{}", FALLBACK_MARKER, FALLBACK_MARKER)
    );
}

#[test]
fn counters_reset_to_zero() {
    let (table, mut counters) = table_and_counters(r#"{"é": ["Accented e","e"]}"#);
    let _ = clean_text(&table, &mut counters, "ééé");
    assert_eq!(count_of(&counters, 'é'), 3);
    counters.reset();
    assert_eq!(count_of(&counters, 'é'), 0);
}

#[test]
fn rows_are_sorted_descending_and_zero_counts_omitted() {
    let (table, _) = table_and_counters(r#"{"A": ["Letter A","a"], "B": ["Letter B","b"], "C": ["Letter C","c"]}"#);
    let snapshot = vec![('A', 3usize), ('B', 5usize), ('C', 0usize)];
    let rows = sort_rows_desc(report_rows(&snapshot, &table));
    let pairs: Vec<(char, usize)> = rows.iter().map(|r| (r.ch, r.count)).collect();
    assert_eq!(pairs, vec![('B', 5), ('A', 3)]);
}

#[test]
fn clean_document_with_no_disallowed_chars_gives_empty_report() {
    let (table, mut counters) = table_and_counters(r#"{"é": ["Accented e","e"]}"#);
    let mut doc = Document {
        paragraphs: vec![Paragraph {
            runs: vec!["plain text".to_string()],
        }],
    };
    clean_document(&table, &mut counters, &mut doc);
    let rows = sort_rows_desc(report_rows(&counters.snapshot(), &table));
    assert!(rows.is_empty());
    assert_eq!(total_count(&rows), 0);
    let report = render_report(&rows, 0);
    assert!(report.contains("Total characters removed: 0"));
}

#[test]
fn report_line_shows_name_codepoint_char_and_count() {
    let rows = vec![ReportRow {
        name: "Accented e".to_string(),
        ch: 'é',
        count: 12,
    }];
    let report = render_report(&rows, 12);
    assert!(report.starts_with(
        "Character Removal Statistics:\n============================\n"
    ));
    assert!(report.contains("Accented e (U+00E9) - é: 12\n"));
    assert!(report.ends_with("\nTotal characters removed: 12\n"));
}

#[test]
fn codepoints_above_four_hex_digits_are_not_truncated() {
    let rows = vec![ReportRow {
        name: "Grinning face".to_string(),
        ch: '\u{1F600}',
        count: 1,
    }];
    let report = render_report(&rows, 1);
    assert!(report.contains("(U+1F600)"));
}

#[test]
fn unknown_characters_in_snapshot_get_placeholder_name() {
    let (table, _) = table_and_counters(r#"{"é": ["Accented e","e"]}"#);
    let snapshot = vec![('Z', 2usize)];
    let rows = report_rows(&snapshot, &table);
    assert_eq!(rows.len(), 1);
    assert_eq!(rows[0].name, "UNKNOWN");
}

#[test]
fn total_sums_all_row_counts() {
    let rows = vec![
        ReportRow {
            name: "A".to_string(),
            ch: 'a',
            count: 2,
        },
        ReportRow {
            name: "B".to_string(),
            ch: 'b',
            count: 40,
        },
    ];
    assert_eq!(total_count(&rows), 42);
}

#[test]
fn invalid_json_is_rejected() {
    assert!(matches!(
        RuleTable::load("not json"),
        Err(ConfigError::NotParseable)
    ));
    assert!(matches!(
        RuleTable::load(r#"{"é": "oops"}"#),
        Err(ConfigError::NotParseable)
    ));
}

#[test]
fn empty_key_is_rejected() {
    assert!(matches!(
        RuleTable::load(r#"{"": ["Empty",""]}"#),
        Err(ConfigError::EmptyKey)
    ));
}

#[test]
fn multi_character_keys_are_truncated_to_first_scalar() {
    let table = RuleTable::load(r#"{"abc": ["Letters","x"]}"#).unwrap();
    assert!(table.is_disallowed('a'));
    assert!(!table.is_disallowed('b'));
    assert_eq!(table.replacement_for('a'), Some('x'));
}

#[test]
fn missing_name_defaults_to_unknown() {
    let pairs = vec![("é".to_string(), Vec::<String>::new())];
    let table = RuleTable::load_from_pairs(&pairs).unwrap();
    assert_eq!(table.display_name_for('é'), Some("UNKNOWN".to_string()));
    assert_eq!(table.replacement_for('é'), Some(FALLBACK_MARKER));
}

#[test]
fn later_pairs_override_earlier_ones() {
    let pairs = vec![
        ("é".to_string(), vec!["First".to_string(), "x".to_string()]),
        ("é".to_string(), vec!["Second".to_string(), "y".to_string()]),
    ];
    let table = RuleTable::load_from_pairs(&pairs).unwrap();
    assert_eq!(table.display_name_for('é'), Some("Second".to_string()));
    assert_eq!(table.replacement_for('é'), Some('y'));
}

#[test]
fn cleaned_file_name_appends_suffix_before_extension() {
    assert_eq!(cleaned_file_name("report", "docx"), "report_cleaned.docx");
}

#[test]
fn disallowed_character_not_in_output_even_when_marker_configured() {
    let (table, mut counters) =
        table_and_counters(r#"{"é": ["Accented e","e"], "★": ["Star",""]}"#);
    let (cleaned, _) = clean_text(&table, &mut counters, "é★é★");
    assert!(!cleaned.contains('é'));
    assert!(!cleaned.contains('★'));
    assert_eq!(cleaned, "e✗e✗");
}

#[test]
fn clean_run_replaces_text_in_place() {
    let table = RuleTable::load(r#"{"é": ["Accented e","e"]}"#).unwrap();
    let mut counters = CounterStore::new(&table.disallowed_chars());
    let mut text = "café  bar".to_string();
    docx_cleaner::document::clean_run(&table, &mut counters, &mut text);
    assert_eq!(text, "cafe bar");
}
