use forth::forth_79::{tokenize, Forth79};

fn run_lines(forth: &mut Forth79, lines: &[&str]) -> (String, Vec<bool>) {
    let mut buffer = Vec::new();
    let mut results = Vec::new();
    for line in lines {
        results.push(forth.interpret_line(line.to_string(), &mut buffer));
    }
    (String::from_utf8(buffer).unwrap(), results)
}

#[test]
fn swap_twice_restores_the_stack() {
    let mut forth = Forth79::new();
    run_lines(&mut forth, &["1 2 swap swap"]);
    assert_eq!(forth.get_stack_state(), [1, 2]);
}

#[test]
fn drop_undoes_dup() {
    let mut forth = Forth79::new();
    run_lines(&mut forth, &["4 5 dup drop"]);
    assert_eq!(forth.get_stack_state(), [4, 5]);
}

#[test]
fn stack_never_grows_beyond_its_size() {
    let mut forth = Forth79::new();
    forth.set_stack_size(4);
    let (out, ok) = run_lines(&mut forth, &["1 2 3"]);
    assert_eq!(forth.get_stack_state(), [1, 2]);
    assert_eq!(out, "stack-overflow\n");
    assert_eq!(ok, vec![false]);
}

#[test]
fn underflow_is_reported_and_leaves_the_stack() {
    let mut forth = Forth79::new();
    let (out, ok) = run_lines(&mut forth, &["7 +"]);
    assert_eq!(out, "stack-underflow\n");
    assert_eq!(ok, vec![false]);
    assert_eq!(forth.get_stack_state(), [7]);
}

#[test]
fn division_by_zero_is_reported() {
    let mut forth = Forth79::new();
    let (out, ok) = run_lines(&mut forth, &["1 0 /"]);
    assert_eq!(out, "division-by-zero\n");
    assert_eq!(ok, vec![false]);
    assert_eq!(forth.get_stack_state(), [1, 0]);
}

#[test]
fn defining_a_number_is_an_invalid_word() {
    let mut forth = Forth79::new();
    let (out, ok) = run_lines(&mut forth, &[": 1 2 ;"]);
    assert_eq!(out, "invalid-word\n");
    assert_eq!(ok, vec![false]);
    assert!(forth.has_no_words());
}

#[test]
fn unknown_word_is_reported() {
    let mut forth = Forth79::new();
    let (out, ok) = run_lines(&mut forth, &["1 foo 2"]);
    assert_eq!(out, "?\n");
    assert_eq!(ok, vec![false]);
    assert_eq!(forth.get_stack_state(), [1]);
}

#[test]
fn output_after_an_error_is_set_off_by_a_space() {
    let mut forth = Forth79::new();
    let (out, _) = run_lines(&mut forth, &["+", "5 ."]);
    assert_eq!(out, "stack-underflow\n 5");
}

#[test]
fn arithmetic_wraps_around() {
    let mut forth = Forth79::new();
    run_lines(&mut forth, &["32767 1 +", "-32768 -1 /", "-32768 1 -", "300 300 *"]);
    assert_eq!(forth.get_stack_state(), [-32768, -32768, 32767, 24464]);
}

#[test]
fn division_rounds_toward_zero() {
    let mut forth = Forth79::new();
    run_lines(&mut forth, &["-7 2 /", "7 -2 /"]);
    assert_eq!(forth.get_stack_state(), [-3, -3]);
}

#[test]
fn comparisons_and_logic() {
    let mut forth = Forth79::new();
    run_lines(&mut forth, &["1 2 <", "1 2 >", "3 3 =", "12 10 and", "12 3 or", "0 not", "5 not"]);
    assert_eq!(forth.get_stack_state(), [-1, 0, -1, 8, 15, -1, 0]);
}

#[test]
fn emit_prints_the_low_byte() {
    let mut forth = Forth79::new();
    let (out, _) = run_lines(&mut forth, &["-191 emit"]);
    assert_eq!(out, "A");
}

#[test]
fn stack_output_is_space_separated() {
    let mut forth = Forth79::new();
    run_lines(&mut forth, &["1 -2 30"]);
    assert_eq!(forth.get_stack_output(), "1 -2 30");
}

#[test]
fn definition_across_lines_equals_one_line() {
    let mut one = Forth79::new();
    let mut two = Forth79::new();
    let (_, first) = run_lines(&mut two, &[": twice dup +"]);
    assert_eq!(first, vec![true]);
    assert_eq!(two.pending_definition(), ": twice dup +");
    run_lines(&mut two, &["twice ;", "3 twice"]);
    run_lines(&mut one, &[": twice dup + twice ;", "3 twice"]);
    assert_eq!(one.get_stack_state(), two.get_stack_state());
    assert_eq!(two.get_stack_state(), [6]);
}

#[test]
fn redefinition_keeps_earlier_meaning_one_level_down() {
    let mut forth = Forth79::new();
    run_lines(&mut forth, &[": foo 5 ;", ": bar foo ;", ": foo 6 ;"]);
    assert_eq!(forth.word_definition("BAR"), Some(vec!["5".to_string()]));
    assert_eq!(forth.word_definition("FOO"), Some(vec!["6".to_string()]));
}

#[test]
fn tokens_are_upper_cased_and_strings_kept() {
    let line = String::from("dup .\" Hi there\" swap");
    assert_eq!(tokenize(&line), vec!["DUP", ".\" Hi there\"", "SWAP"]);
}

#[test]
fn printed_text_is_trimmed() {
    let mut forth = Forth79::new();
    let (out, _) = run_lines(&mut forth, &[".\"   x  \""]);
    assert_eq!(out, "x");
}

#[test]
fn cr_ends_a_run_of_output() {
    let mut forth = Forth79::new();
    let (out, _) = run_lines(&mut forth, &["1 . cr 2 ."]);
    assert_eq!(out, "1\n2");
    assert!(!forth.has_no_pending_output());
}

#[test]
fn lines_that_would_not_finish_are_refused() {
    let mut forth = Forth79::new();
    let mut buffer = Vec::new();
    assert_eq!(forth.try_interpret_line(": a b ;".to_string(), &mut buffer), Some(true));
    assert_eq!(forth.try_interpret_line(": b a ;".to_string(), &mut buffer), Some(true));
    assert!(!forth.can_interpret(&"1 a".to_string()));
    assert_eq!(forth.try_interpret_line("1 a".to_string(), &mut buffer), None);
    assert_eq!(forth.get_stack_state(), Vec::<i16>::new());
    assert_eq!(forth.try_interpret_line("".to_string(), &mut buffer), None);
    assert_eq!(forth.try_interpret_line(".\" open".to_string(), &mut buffer), None);
    assert_eq!(forth.try_interpret_line(".\"a".to_string(), &mut buffer), None);
    assert_eq!(forth.try_interpret_line(": ;".to_string(), &mut buffer), None);
    assert_eq!(forth.try_interpret_line("1 2 +".to_string(), &mut buffer), Some(true));
    assert_eq!(forth.get_stack_state(), [3]);
    assert!(buffer.is_empty());
}

#[test]
fn a_word_with_a_bad_string_only_fails_when_used() {
    let mut forth = Forth79::new();
    let mut buffer = Vec::new();
    assert_eq!(forth.try_interpret_line(": w .\"a ;".to_string(), &mut buffer), Some(true));
    assert!(forth.can_interpret(&"1 2".to_string()));
    assert!(!forth.can_interpret(&"w".to_string()));
}

#[test]
fn words_after_a_printed_string_are_kept() {
    let line = String::from("1 .\" Hi  there\" 2");
    assert_eq!(tokenize(&line), vec!["1", ".\" Hi  there\"", "2"]);
    let mut forth = Forth79::new();
    let (out, _) = run_lines(&mut forth, &["1 .\" Hi\" 2"]);
    assert_eq!(out, "Hi");
    assert_eq!(forth.get_stack_state(), [1, 2]);
}

#[test]
fn printed_text_loses_tabs_at_its_ends() {
    let mut forth = Forth79::new();
    let (out, _) = run_lines(&mut forth, &[".\" \thi \""]);
    assert_eq!(out, "hi");
}

#[test]
fn redefinition_reaches_one_level_down_only() {
    let mut forth = Forth79::new();
    run_lines(&mut forth, &[": a 1 ;", ": b a ;", ": c b ;", ": a 2 ;", "c"]);
    assert_eq!(forth.word_definition("C"), Some(vec!["A".to_string()]));
    assert_eq!(forth.get_stack_state(), [2]);
}
