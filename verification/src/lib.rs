pub mod interpreter;
pub mod lexer;

pub use crate::interpreter::InterpreterError;
pub use crate::interpreter::InterpreterErrorKind;
pub use crate::interpreter::SimpleInterpreter;
pub use crate::interpreter::SimpleInterpreter as Interpreter;
pub use crate::lexer::Annotation;
pub use crate::lexer::Lexer;
pub use crate::lexer::Location;
pub use crate::lexer::Token;
pub use crate::lexer::TokenKind;
