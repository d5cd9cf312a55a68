use brainfuck::InterpreterErrorKind;
use brainfuck::SimpleInterpreter;
use brainfuck::lexer::Lexer;
use brainfuck::lexer::Location;

#[test]
fn jump_table_is_an_involution() {
    let program = Lexer::lex("[[]]");
    let mut interpreter = SimpleInterpreter::new();
    assert_eq!(interpreter.eval(&program), Ok(0));
    assert_eq!(interpreter.jump_table, vec![3, 2, 1, 0]);
    for (f, b) in interpreter.jump_table.iter().enumerate() {
        assert_eq!(interpreter.jump_table[*b], f);
    }
}

#[test]
fn jump_table_building_is_idempotent() {
    let program = Lexer::lex("+[-][[][]]");
    let mut interpreter = SimpleInterpreter::new();
    assert_eq!(interpreter.eval(&program), Ok(0));
    let first = interpreter.jump_table.clone();
    assert_eq!(interpreter.eval(&program), Ok(0));
    assert_eq!(interpreter.jump_table, first);
}

#[test]
fn extra_forward_bracket_is_rejected() {
    let program = Lexer::lex("+[+\n[-]");
    let mut interpreter = SimpleInterpreter::new();
    let err = interpreter.eval(&program).unwrap_err();
    assert_eq!(err.value, InterpreterErrorKind::UnmatchedJumpForwardError);
    assert_eq!(err.location, Location { line: 1, col: 2 });
}

#[test]
fn extra_backward_bracket_is_rejected() {
    let program = Lexer::lex("+]");
    let mut interpreter = SimpleInterpreter::new();
    let err = interpreter.eval(&program).unwrap_err();
    assert_eq!(err.value, InterpreterErrorKind::UnmatchedJumpBackwardError);
    assert_eq!(err.location, Location { line: 1, col: 2 });
}

#[test]
fn backward_move_from_zero_is_a_pointer_error() {
    let program = Lexer::lex("+\n<");
    let mut interpreter = SimpleInterpreter::new();
    let err = interpreter.eval(&program).unwrap_err();
    assert_eq!(err.value, InterpreterErrorKind::PointerError);
    assert_eq!(err.location, Location { line: 2, col: 1 });
}

#[test]
fn forward_move_grows_tape_by_one_cell() {
    let mut interpreter = SimpleInterpreter::new();
    assert_eq!(interpreter.eval(&Lexer::lex(">")), Ok(0));
    assert_eq!(interpreter.cells, vec![0, 0]);
    assert_eq!(interpreter.pointer, 1);
    assert_eq!(interpreter.eval(&Lexer::lex(">>")), Ok(0));
    assert_eq!(interpreter.cells, vec![0, 0, 0]);
    assert_eq!(interpreter.pointer, 2);
}

#[test]
fn increment_wraps_around_at_255() {
    let source: String = "+".repeat(256);
    let mut interpreter = SimpleInterpreter::new();
    assert_eq!(interpreter.eval(&Lexer::lex(&source)), Ok(0));
    assert_eq!(interpreter.cells, vec![0]);

    let source255: String = "+".repeat(255);
    let mut interpreter255 = SimpleInterpreter::new();
    assert_eq!(interpreter255.eval(&Lexer::lex(&source255)), Ok(0));
    assert_eq!(interpreter255.cells, vec![255]);
}

#[test]
fn decrement_wraps_around_at_zero() {
    let mut interpreter = SimpleInterpreter::new();
    assert_eq!(interpreter.eval(&Lexer::lex("-")), Ok(0));
    assert_eq!(interpreter.cells, vec![255]);
}

#[test]
fn output_collects_cell_bytes_in_order() {
    let mut interpreter = SimpleInterpreter::new();
    assert_eq!(interpreter.eval(&Lexer::lex("+.+.-.")), Ok(0));
    assert_eq!(interpreter.output, vec![1, 2, 1]);
}

#[test]
fn input_consumes_one_byte_per_instruction() {
    let mut interpreter = SimpleInterpreter::new();
    interpreter.setInputStream(String::from("AB"));
    assert_eq!(interpreter.eval(&Lexer::lex(",.,.")), Ok(0));
    assert_eq!(interpreter.output, vec![65, 66]);
}

#[test]
fn input_position_survives_across_runs() {
    let mut interpreter = SimpleInterpreter::new();
    interpreter.setInputStream(String::from("AB"));
    assert_eq!(interpreter.eval(&Lexer::lex(",")), Ok(0));
    assert_eq!(interpreter.cells, vec![65]);
    assert_eq!(interpreter.eval(&Lexer::lex(",")), Ok(0));
    assert_eq!(interpreter.cells, vec![66]);
}

#[test]
fn exhausted_input_is_an_input_error() {
    let mut interpreter = SimpleInterpreter::new();
    let err = interpreter.eval(&Lexer::lex("+,")).unwrap_err();
    assert_eq!(err.value, InterpreterErrorKind::InputError);
    assert_eq!(err.location, Location { line: 1, col: 2 });
}

#[test]
fn unmatched_program_is_rejected_before_running() {
    let program = Lexer::lex("++>+++>+++[");
    let mut interpreter = SimpleInterpreter::new();
    let err = interpreter.eval(&program).unwrap_err();
    assert_eq!(err.value, InterpreterErrorKind::UnmatchedJumpForwardError);
    assert_eq!(err.location, Location { line: 1, col: 11 });
    // The bracket scan failed, so nothing was executed and no output came.
    assert_eq!(interpreter.cells, vec![0]);
    assert_eq!(interpreter.output, vec![]);
}

#[test]
fn loop_drains_first_cell_into_second() {
    let program = Lexer::lex("++[>++<-]");
    let mut interpreter = SimpleInterpreter::new();
    assert_eq!(interpreter.eval(&program), Ok(0));
    assert_eq!(interpreter.cells, vec![0, 4]);
    assert_eq!(interpreter.pointer, 0);
}

#[test]
fn hello_world_program_prints_hello_world() {
    let source = "++++++++[>++++[>++>+++>+++>+<<<<-]>+>+>->>+[<]<-]>>.>---.+++++++..+++.>>.<-.<.+++.------.--------.>>+.>++.";
    let program = Lexer::lex(source);
    let mut interpreter = SimpleInterpreter::new();
    assert_eq!(interpreter.eval(&program), Ok(0));
    assert_eq!(String::from_utf8(interpreter.output.clone()).unwrap(), "Hello World!\n");
}
