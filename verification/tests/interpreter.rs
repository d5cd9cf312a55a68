use brainfuck::Interpreter;
use brainfuck::SimpleInterpreter;
use brainfuck::lexer::Location;
use brainfuck::lexer::Token;

#[test]
fn interpreter_test_interpreter() {
    let mut interpreter = SimpleInterpreter::new();
    let program = vec![
        Token::increment(Location { line: 1, col: 1 }),
        Token::increment(Location { line: 1, col: 2 }),
        Token::increment_pointer(Location { line: 1, col: 3 }),
        Token::increment(Location { line: 1, col: 4 }),
        Token::increment(Location { line: 1, col: 5 }),
        Token::decrement(Location { line: 2, col: 1 }),
        Token::increment_pointer(Location { line: 2, col: 2 }),
        Token::decrement_pointer(Location { line: 2, col: 3 }),
    ];

    assert_eq!(interpreter.cells, vec![0]);
    assert_eq!(interpreter.eval(&program), Ok(0));
    assert_eq!(interpreter.cells, vec![2, 1, 0]);
    assert_eq!(interpreter.pointer, 1);
}

#[test]
fn lib_test_interpreter() {
    let mut interpreter = Interpreter::new();
    let program = vec![
        Token::increment(Location { line: 1, col: 1 }),
        Token::increment(Location { line: 1, col: 2 }),
        Token::increment_pointer(Location { line: 1, col: 3 }),
        Token::increment(Location { line: 1, col: 4 }),
        Token::increment(Location { line: 1, col: 5 }),
        Token::decrement(Location { line: 2, col: 1 }),
        Token::increment_pointer(Location { line: 2, col: 2 }),
        Token::decrement_pointer(Location { line: 2, col: 3 }),
    ];

    assert_eq!(interpreter.cells, vec![0]);
    assert_eq!(interpreter.eval(&program), Ok(0));
    assert_eq!(interpreter.cells, vec![2, 1, 0]);
    assert_eq!(interpreter.pointer, 1);
}
