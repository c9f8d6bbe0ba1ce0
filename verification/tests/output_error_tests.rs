use forth::output_error::Error;

#[test]
fn test_underflow_description() {
    let error = Error::Underflow;
    assert_eq!(error.description(), "stack-underflow\n".to_string());
}

#[test]
fn test_overflow_description() {
    let error = Error::Overflow;
    assert_eq!(error.description(), "stack-overflow\n".to_string());
}

#[test]
fn test_division_by_zero_description() {
    let error = Error::DivisionByZero;
    assert_eq!(error.description(), "division-by-zero\n".to_string());
}

#[test]
fn test_invalid_word_description() {
    let error = Error::InvalidWord;
    assert_eq!(error.description(), "invalid-word\n".to_string());
}

#[test]
fn test_unknown_word_description() {
    let error = Error::UnknownWord;
    assert_eq!(error.description(), "?\n".to_string());
}

#[test]
fn test_underflow_correctly_pushes_on_buffer() {
    let error = Error::Underflow;
    let mut buffer = Vec::new();

    assert_eq!(error.throw_error(&mut buffer), false);
    assert_eq!(buffer.len(), 1);
    assert_eq!(buffer[0], "stack-underflow\n".to_string());
}

#[test]
fn test_overflow_correctly_pushes_on_buffer() {
    let error = Error::Overflow;
    let mut buffer = Vec::new();

    assert_eq!(error.throw_error(&mut buffer), false);
    assert_eq!(buffer.len(), 1);
    assert_eq!(buffer[0], "stack-overflow\n".to_string());
}

#[test]
fn test_division_by_zero_correctly_pushes_on_buffer() {
    let error = Error::DivisionByZero;
    let mut buffer = Vec::new();

    assert_eq!(error.throw_error(&mut buffer), false);
    assert_eq!(buffer.len(), 1);
    assert_eq!(buffer[0], "division-by-zero\n".to_string());
}

#[test]
fn test_invalid_word_correctly_pushes_on_buffer() {
    let error = Error::InvalidWord;
    let mut buffer = Vec::new();

    assert_eq!(error.throw_error(&mut buffer), false);
    assert_eq!(buffer.len(), 1);
    assert_eq!(buffer[0], "invalid-word\n".to_string());
}

#[test]
fn test_unknown_word_correctly_pushes_on_buffer() {
    let error = Error::UnknownWord;
    let mut buffer = Vec::new();

    assert_eq!(error.throw_error(&mut buffer), false);
    assert_eq!(buffer.len(), 1);
    assert_eq!(buffer[0], "?\n".to_string());
}
