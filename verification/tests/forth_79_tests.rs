use forth::forth_79::{tokenize, Forth79};

#[test]
fn test_forth_79_creation() {
    let forth = Forth79::new();
    assert_eq!(forth.get_stack_state(), vec![]);
    assert_eq!(forth.get_stack_output(), "");
    assert_eq!(forth.has_no_words(), true);
    assert_eq!(forth.has_no_pending_output(), true);
    assert_eq!(forth.pending_definition().is_empty(), true);
}

#[test]
fn test_definition_add_word() {
    let mut forth = Forth79::new();
    forth.interpret_line(": A 1 ;".to_string(), &mut Vec::new());
    assert_eq!(forth.get_stack_state(), vec![]);
    assert_eq!(forth.has_no_words(), false);
    assert_eq!(forth.word_definition("A"), Some(vec!["1".to_string()]));
    assert_eq!(forth.has_no_pending_output(), true);
}

#[test]
fn test_redefine_word() {
    let mut forth = Forth79::new();
    forth.interpret_line(": A 1 ;".to_string(), &mut Vec::new());
    forth.interpret_line(": A 2 ;".to_string(), &mut Vec::new());
    assert_eq!(forth.word_definition("A"), Some(vec!["2".to_string()]));
}

#[test]
fn test_setting_stack_size() {
    let mut forth = Forth79::new();
    forth.set_stack_size(1024); // Bytes -> i16 -> Se divide en 2.
    assert_eq!(forth.stack_size(), 1024 / 2);
}

#[test]
fn test_output_buffer_added_correctly() {
    let mut forth = Forth79::new();
    let mut buffer = Vec::new();

    forth.interpret_line("1 2 3 . .".to_string(), &mut buffer);
    assert_eq!(String::from_utf8(buffer).unwrap(), String::from("3 2"));
}

#[test]
fn test_if_buffer_adding_correctly() {
    let mut forth = Forth79::new();
    let mut buffer = Vec::new();

    forth.interpret_line(": a 1 2 3 ".to_string(), &mut buffer);
    assert_eq!(forth.pending_definition(), ": a 1 2 3 ".to_string());
}

#[test]
fn test_if_buffer_clearing_correctly_after_end_of_statement() {
    let mut forth = Forth79::new();
    let mut buffer = Vec::new();

    forth.interpret_line(": a 1 ".to_string(), &mut buffer);
    forth.interpret_line(" 2 3 4 ;".to_string(), &mut buffer);
    assert_eq!(forth.pending_definition().is_empty(), true);
    assert_eq!(
        forth.word_definition("A"),
        Some(vec![
            "1".to_string(),
            "2".to_string(),
            "3".to_string(),
            "4".to_string()
        ])
    );
}

#[test]
fn test_tokenize_tokenizes_correctly() {
    let line = String::from(": A 1 2 3 ;");
    let tokens = tokenize(&line);

    assert_eq!(tokens, vec![":", "A", "1", "2", "3", ";"]);
}

#[test]
fn test_tokenize_tokenizes_correctly_single_line() {
    let line = String::from("A");
    let tokens = tokenize(&line);

    assert_eq!(tokens, vec!["A"]);
}

#[test]
fn test_tokenize_tokenizes_correctly_lots_of_whitespaces() {
    let line = String::from(": A   1    2 3    ;                  ");
    let tokens = tokenize(&line);

    assert_eq!(tokens, vec![":", "A", "1", "2", "3", ";"]);
}
