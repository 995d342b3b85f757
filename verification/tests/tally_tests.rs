use line_tally::tally::{character_count_in_buf_reader, word_count_in_buf_reader};
use std::collections::HashMap;

#[test]
fn test_word_count_in_buf_reader() {
    let data = "word1\nword2\nword1\nword3\nword2\nword2";
    let lines: Vec<String> = data.lines().map(|l| l.to_string()).collect();
    let result = word_count_in_buf_reader(&lines);

    let mut expected = HashMap::new();
    expected.insert("word1".to_string(), 2);
    expected.insert("word2".to_string(), 3);
    expected.insert("word3".to_string(), 1);

    assert_eq!(result.len(), expected.len());
    for (word, count) in expected {
        assert_eq!(result.get(&word), Some(count));
    }
}

#[test]
fn test_character_count_in_buf_reader() {
    let data = "w;o;r;d;1\nw;o;r;d;2\nw;o;;;rd1\nwo;r;d;3\nw;o;;rd2\nw;o;r;d;2;";
    let lines: Vec<String> = data.lines().map(|l| l.to_string()).collect();
    let result = character_count_in_buf_reader(&lines, ';');

    let mut expected = HashMap::new();
    expected.insert("4".to_string(), 3);
    expected.insert("3".to_string(), 2);
    expected.insert("5".to_string(), 1);

    assert_eq!(result.len(), expected.len());
    for (record, count) in expected {
        assert_eq!(result.get(&record), Some(count));
    }
}

#[test]
fn word_count_of_empty_input_is_empty() {
    let lines: Vec<String> = Vec::new();
    let result = word_count_in_buf_reader(&lines);
    assert_eq!(result.len(), 0);
}

#[test]
fn word_count_missing_key_is_none() {
    let lines = vec!["a".to_string(), "b".to_string(), "a".to_string()];
    let result = word_count_in_buf_reader(&lines);
    assert_eq!(result.get(&"c".to_string()), None);
    assert_eq!(result.get(&"a".to_string()), Some(2));
    assert_eq!(result.get(&"b".to_string()), Some(1));
}

#[test]
fn character_count_lines_without_target_tally_zero() {
    let lines = vec!["abc".to_string(), "def".to_string()];
    let result = character_count_in_buf_reader(&lines, 'x');
    assert_eq!(result.len(), 1);
    assert_eq!(result.get(&"0".to_string()), Some(2));
}

#[test]
fn character_count_handles_multibyte_lines() {
    let lines = vec!["ääxä".to_string(), "xä".to_string()];
    let result = character_count_in_buf_reader(&lines, 'ä');
    assert_eq!(result.get(&"3".to_string()), Some(1));
    assert_eq!(result.get(&"1".to_string()), Some(1));
}
