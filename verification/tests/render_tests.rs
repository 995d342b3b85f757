use line_tally::decimal::usize_to_decimal;
use line_tally::rank::ranked_entries;
use line_tally::render::{render_delimited, render_table};
use line_tally::tally::{character_count_in_buf_reader, word_count_in_buf_reader};

#[test]
fn decimal_rendering_exact_values() {
    assert_eq!(usize_to_decimal(0), "0");
    assert_eq!(usize_to_decimal(7), "7");
    assert_eq!(usize_to_decimal(10), "10");
    assert_eq!(usize_to_decimal(12345), "12345");
    assert_eq!(usize_to_decimal(1000000), "1000000");
}

#[test]
fn word_mode_scenario_delimited() {
    let lines: Vec<String> = ["word1", "word2", "word1", "word3", "word2", "word2"]
        .iter()
        .map(|l| l.to_string())
        .collect();
    let table = word_count_in_buf_reader(&lines);
    assert_eq!(table.get(&"word1".to_string()), Some(2));
    assert_eq!(table.get(&"word2".to_string()), Some(3));
    assert_eq!(table.get(&"word3".to_string()), Some(1));
    let ranked = ranked_entries(table);
    let out = render_delimited(&ranked, ',');
    assert_eq!(out, "word,count\nword2,3\nword1,2\nword3,1\n");
}

#[test]
fn character_mode_scenario_counts() {
    let lines: Vec<String> = ["w;o;r;d;1", "w;o;r;d;2", "w;o;;;rd1", "wo;r;d;3", "w;o;;rd2", "w;o;r;d;2;"]
        .iter()
        .map(|l| l.to_string())
        .collect();
    let table = character_count_in_buf_reader(&lines, ';');
    assert_eq!(table.len(), 3);
    assert_eq!(table.get(&"4".to_string()), Some(3));
    assert_eq!(table.get(&"3".to_string()), Some(2));
    assert_eq!(table.get(&"5".to_string()), Some(1));
}

#[test]
fn empty_input_renders_header_only() {
    let lines: Vec<String> = Vec::new();
    let table = word_count_in_buf_reader(&lines);
    let ranked = ranked_entries(table);
    assert_eq!(render_delimited(&ranked, ';'), "word;count\n");
    assert_eq!(render_table(&ranked, false), "Word Count\n----------\n");
    assert_eq!(render_table(&ranked, true), "Occurrences Count\n-----------------\n");
}

#[test]
fn table_rendering_aligns_columns() {
    let lines: Vec<String> = ["word1", "word2", "word1", "word3", "word2", "word2"]
        .iter()
        .map(|l| l.to_string())
        .collect();
    let table = word_count_in_buf_reader(&lines);
    let ranked = ranked_entries(table);
    let out = render_table(&ranked, false);
    assert_eq!(out, "Word  Count\n-----------\nword2     3\nword1     2\nword3     1\n");
}

#[test]
fn ranked_entries_counts_never_increase() {
    let lines: Vec<String> = ["a", "b", "b", "c", "c", "c", "d", "d"]
        .iter()
        .map(|l| l.to_string())
        .collect();
    let table = word_count_in_buf_reader(&lines);
    let ranked = ranked_entries(table);
    assert_eq!(ranked.len(), 4);
    for pair in ranked.windows(2) {
        assert!(pair[0].1 >= pair[1].1);
    }
    let total: usize = ranked.iter().map(|e| e.1).sum();
    assert_eq!(total, lines.len());
}

#[test]
fn delimited_output_round_trips() {
    let lines: Vec<String> = ["alpha", "beta", "alpha", "gamma", "beta", "alpha"]
        .iter()
        .map(|l| l.to_string())
        .collect();
    let table = word_count_in_buf_reader(&lines);
    let ranked = ranked_entries(table);
    let expected: Vec<(String, usize)> = ranked.clone();
    let out = render_delimited(&ranked, ';');
    let mut parsed: Vec<(String, usize)> = Vec::new();
    let mut output_lines = out.lines();
    assert_eq!(output_lines.next(), Some("word;count"));
    for line in output_lines {
        let fields: Vec<&str> = line.split(';').collect();
        assert_eq!(fields.len(), 2);
        parsed.push((fields[0].to_string(), fields[1].parse().unwrap()));
    }
    assert_eq!(parsed, expected);
}
