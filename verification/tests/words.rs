use wordserver::{parse_word_list, read_failure_message, resolve_path, trim_line, words_from_read};

#[test]
fn splits_trims_and_drops_blank_lines() {
    let words = parse_word_list("cat\n\n  dog  \nfish");
    assert_eq!(words, vec!["cat".to_string(), "dog".to_string(), "fish".to_string()]);
}

#[test]
fn keeps_nonblank_lines_in_original_order() {
    let words = parse_word_list("  \tapple\t \n \n\u{a0}banana\u{a0}\ncherry");
    assert_eq!(words, vec!["apple".to_string(), "banana".to_string(), "cherry".to_string()]);
}

#[test]
fn empty_text_gives_no_words() {
    let words = parse_word_list("");
    assert!(words.is_empty());
}

#[test]
fn whitespace_only_text_gives_no_words() {
    let words = parse_word_list("\n   \n\t\n");
    assert!(words.is_empty());
}

#[test]
fn carriage_returns_are_trimmed_away() {
    let words = parse_word_list("alpha\r\nbeta\r\n");
    assert_eq!(words, vec!["alpha".to_string(), "beta".to_string()]);
}

#[test]
fn trailing_newline_adds_no_entry() {
    let words = parse_word_list("last\n");
    assert_eq!(words, vec!["last".to_string()]);
}

#[test]
fn interior_whitespace_is_preserved() {
    let words = parse_word_list("  big dog  \n");
    assert_eq!(words, vec!["big dog".to_string()]);
}

#[test]
fn repeated_parses_of_the_same_text_agree() {
    let text = "cat\n\n  dog  \nfish";
    let first = parse_word_list(text);
    let second = parse_word_list(text);
    assert_eq!(first, second);
}

#[test]
fn missing_path_argument_falls_back_to_default() {
    let resolved = resolve_path(None);
    assert_eq!(resolved, "./wordserver.txt".to_string());
}

#[test]
fn given_path_argument_is_kept() {
    let resolved = resolve_path(Some("lists/animals.txt".to_string()));
    assert_eq!(resolved, "lists/animals.txt".to_string());
}

#[test]
fn failure_message_names_path_and_cause() {
    let message = read_failure_message("./missing.txt", "no such file");
    assert_eq!(message, "failed to read ./missing.txt: no such file".to_string());
    assert!(message.contains("./missing.txt"));
}

#[test]
fn successful_read_yields_the_parsed_words() {
    let outcome = words_from_read("./wordserver.txt", Ok("ant\nbee\n".to_string()));
    assert_eq!(outcome, Ok(vec!["ant".to_string(), "bee".to_string()]));
}

#[test]
fn failed_read_yields_a_message_with_the_path() {
    let outcome = words_from_read("./gone.txt", Err("permission denied".to_string()));
    let message = outcome.unwrap_err();
    assert!(message.contains("./gone.txt"));
    assert_eq!(message, "failed to read ./gone.txt: permission denied".to_string());
}

#[test]
fn trim_line_strips_surrounding_whitespace() {
    assert_eq!(trim_line("  dog  "), "dog".to_string());
    assert_eq!(trim_line("\u{3000}wide\u{3000}"), "wide".to_string());
    assert_eq!(trim_line(" \t \r"), "".to_string());
}
