use brainfuck::lexer::Lexer;
use brainfuck::lexer::Location;
use brainfuck::lexer::Token;

#[test]
fn lexer_test_lexer() {
    let p = "+[.+]\n>,-.<";
    assert_eq!(
        Lexer::lex(p),
        vec![
            Token::increment(Location { line: 1, col: 1 }),
            Token::jump_forward(Location { line: 1, col: 2 }),
            Token::output(Location { line: 1, col: 3 }),
            Token::increment(Location { line: 1, col: 4 }),
            Token::jump_backward(Location { line: 1, col: 5 }),
            Token::increment_pointer(Location { line: 2, col: 1 }),
            Token::input(Location { line: 2, col: 2 }),
            Token::decrement(Location { line: 2, col: 3 }),
            Token::output(Location { line: 2, col: 4 }),
            Token::decrement_pointer(Location { line: 2, col: 5 }),
        ]
    );
}

#[test]
fn lib_test_lexer() {
    let p = "+[.+]\n>,-.<";
    assert_eq!(
        Lexer::lex(p),
        vec![
            Token::increment(Location { line: 1, col: 1 }),
            Token::jump_forward(Location { line: 1, col: 2 }),
            Token::output(Location { line: 1, col: 3 }),
            Token::increment(Location { line: 1, col: 4 }),
            Token::jump_backward(Location { line: 1, col: 5 }),
            Token::increment_pointer(Location { line: 2, col: 1 }),
            Token::input(Location { line: 2, col: 2 }),
            Token::decrement(Location { line: 2, col: 3 }),
            Token::output(Location { line: 2, col: 4 }),
            Token::decrement_pointer(Location { line: 2, col: 5 }),
        ]
    );
}

#[test]
fn lexer_drops_unrecognized_bytes() {
    // Comment text and whitespace disappear; the surviving tokens keep the
    // positions the raw bytes gave them.
    let p = "a+ b[\nc].";
    assert_eq!(
        Lexer::lex(p),
        vec![
            Token::increment(Location { line: 1, col: 2 }),
            Token::jump_forward(Location { line: 1, col: 5 }),
            Token::jump_backward(Location { line: 2, col: 2 }),
            Token::output(Location { line: 2, col: 3 }),
        ]
    );
}

#[test]
fn lexer_empty_source() {
    assert_eq!(Lexer::lex(""), vec![]);
    assert_eq!(Lexer::lex("no instructions here?!"), vec![]);
}

#[test]
fn lexer_column_resets_after_newline() {
    let p = "\n\n+";
    assert_eq!(Lexer::lex(p), vec![Token::increment(Location { line: 3, col: 1 })]);
}
