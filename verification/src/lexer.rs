use vstd::prelude::*;
use vstd::string::StrSliceExecFns;
use vstd::utf8::encode_utf8;

verus! {

/// A place in the source text: 1-indexed line and column.
///
/// The column advances by one for every byte, the newline byte itself
/// included; the byte after a newline lands at column 1 of the next line.
#[derive(Debug, Clone, Copy, PartialEq, Eq, Hash)]
pub struct Location {
    pub line: usize,
    pub col: usize,
}

/// A value paired with the source location it came from; tokens and
/// interpreter errors both carry their location this way.
#[derive(Debug, Clone, Copy, PartialEq, Eq, Hash)]
pub struct Annotation<T> {
    pub value: T,
    pub location: Location,
}

impl<T> Annotation<T> {
    pub fn new(value: T, location: Location) -> (r: Self)
        ensures
            r == (Annotation { value, location }),
    {
        Self { value, location }
    }
}

/// The eight instructions of the language.
#[derive(Debug, Clone, Copy, PartialEq, Eq, Hash)]
pub enum TokenKind {
    IncrementPointer,
    DecrementPointer,
    Increment,
    Decrement,
    Output,
    Input,
    JumpForward,
    JumpBackward,
}

/// An instruction together with the source location it was read from.
pub type Token = Annotation<TokenKind>;

impl Token {
    pub fn increment_pointer(location: Location) -> (t: Self)
        ensures
            t == (Annotation { value: TokenKind::IncrementPointer, location }),
    {
        Self::new(TokenKind::IncrementPointer, location)
    }

    pub fn decrement_pointer(location: Location) -> (t: Self)
        ensures
            t == (Annotation { value: TokenKind::DecrementPointer, location }),
    {
        Self::new(TokenKind::DecrementPointer, location)
    }

    pub fn increment(location: Location) -> (t: Self)
        ensures
            t == (Annotation { value: TokenKind::Increment, location }),
    {
        Self::new(TokenKind::Increment, location)
    }

    pub fn decrement(location: Location) -> (t: Self)
        ensures
            t == (Annotation { value: TokenKind::Decrement, location }),
    {
        Self::new(TokenKind::Decrement, location)
    }

    pub fn output(location: Location) -> (t: Self)
        ensures
            t == (Annotation { value: TokenKind::Output, location }),
    {
        Self::new(TokenKind::Output, location)
    }

    pub fn input(location: Location) -> (t: Self)
        ensures
            t == (Annotation { value: TokenKind::Input, location }),
    {
        Self::new(TokenKind::Input, location)
    }

    pub fn jump_forward(location: Location) -> (t: Self)
        ensures
            t == (Annotation { value: TokenKind::JumpForward, location }),
    {
        Self::new(TokenKind::JumpForward, location)
    }

    pub fn jump_backward(location: Location) -> (t: Self)
        ensures
            t == (Annotation { value: TokenKind::JumpBackward, location }),
    {
        Self::new(TokenKind::JumpBackward, location)
    }
}

/// The byte `>`, which moves the pointer forward.
pub const BYTE_POINTER_FORWARD: u8 = 62;

/// The byte `<`, which moves the pointer backward.
pub const BYTE_POINTER_BACKWARD: u8 = 60;

/// The byte `+`, which increments the current cell.
pub const BYTE_INCREMENT: u8 = 43;

/// The byte `-`, which decrements the current cell.
pub const BYTE_DECREMENT: u8 = 45;

/// The byte `.`, which outputs the current cell.
pub const BYTE_OUTPUT: u8 = 46;

/// The byte `,`, which reads one input byte into the current cell.
pub const BYTE_INPUT: u8 = 44;

/// The byte `[`, the forward bracket.
pub const BYTE_JUMP_FORWARD: u8 = 91;

/// The byte `]`, the backward bracket.
pub const BYTE_JUMP_BACKWARD: u8 = 93;

/// The newline byte, which moves the position to the next line.
pub const BYTE_NEWLINE: u8 = 10;

/// The fixed bijection between recognized bytes and instructions; every
/// other byte carries no instruction.
pub open spec fn token_kind_of(b: u8) -> Option<TokenKind> {
    if b == BYTE_POINTER_FORWARD {
        Some(TokenKind::IncrementPointer)
    } else if b == BYTE_POINTER_BACKWARD {
        Some(TokenKind::DecrementPointer)
    } else if b == BYTE_INCREMENT {
        Some(TokenKind::Increment)
    } else if b == BYTE_DECREMENT {
        Some(TokenKind::Decrement)
    } else if b == BYTE_OUTPUT {
        Some(TokenKind::Output)
    } else if b == BYTE_INPUT {
        Some(TokenKind::Input)
    } else if b == BYTE_JUMP_FORWARD {
        Some(TokenKind::JumpForward)
    } else if b == BYTE_JUMP_BACKWARD {
        Some(TokenKind::JumpBackward)
    } else {
        None
    }
}

/// Whether a byte is one of the eight instruction characters.
pub open spec fn recognized(b: u8) -> bool {
    token_kind_of(b) is Some
}

/// The tokens of the source bytes `s`, scanned left to right starting at
/// the running position (`line`, `col`): a recognized byte emits a token
/// at the current position, every byte advances the column by one, and a
/// newline moves to column 1 of the next line.
pub open spec fn lex_bytes(s: Seq<u8>, line: nat, col: nat) -> Seq<Token>
    decreases s.len(),
{
    if s.len() == 0 {
        Seq::empty()
    } else {
        let b = s[0];
        let here = (Location { line: line as usize, col: col as usize });
        let rest = if b == BYTE_NEWLINE {
            lex_bytes(s.drop_first(), line + 1, 1)
        } else {
            lex_bytes(s.drop_first(), line, col + 1)
        };
        match token_kind_of(b) {
            Some(k) => seq![Annotation { value: k, location: here }] + rest,
            None => rest,
        }
    }
}

/// The tokens of a whole source text, which starts at line 1, column 1.
pub open spec fn spec_lex(s: Seq<u8>) -> Seq<Token> {
    lex_bytes(s, 1, 1)
}

/// The instruction kinds of a token sequence, in order, locations dropped.
pub open spec fn kinds_of(tokens: Seq<Token>) -> Seq<TokenKind> {
    tokens.map_values(|t: Token| t.value)
}

pub struct Lexer;

impl Lexer {
    /// The located tokens of `input`, in source order. Lexing cannot fail:
    /// bytes outside the recognized set are dropped and only advance the
    /// position.
    pub fn lex(input: &str) -> (tokens: Vec<Token>)
        ensures
            tokens@ == spec_lex(encode_utf8(input@)),
    {
        let bytes = input.as_bytes_vec();
        let n = bytes.len();
        let mut tokens: Vec<Token> = Vec::new();
        // The position is kept zero-based (newlines seen, bytes since the
        // last newline), so that the counters stay at or below the byte
        // index and cannot overflow; tokens carry the 1-based position.
        let mut lines_seen: usize = 0;
        let mut line_offset: usize = 0;
        let mut i: usize = 0;
        proof {
            assert(bytes@.skip(0) =~= bytes@);
            assert(tokens@ + lex_bytes(bytes@, 1, 1) =~= lex_bytes(bytes@, 1, 1));
        }
        while i < n
            invariant
                bytes@ == encode_utf8(input@),
                n == bytes@.len(),
                i <= n,
                lines_seen <= i,
                line_offset <= i,
                tokens@ + lex_bytes(
                    bytes@.skip(i as int),
                    (lines_seen + 1) as nat,
                    (line_offset + 1) as nat,
                ) == spec_lex(bytes@),
            decreases n - i,
        {
            let ghost suffix = bytes@.skip(i as int);
            let ghost tokens_before = tokens@;
            let ghost line0 = (lines_seen + 1) as nat;
            let ghost col0 = (line_offset + 1) as nat;
            proof {
                assert(suffix.len() > 0);
                assert(suffix[0] == bytes@[i as int]);
                assert(suffix.drop_first() =~= bytes@.skip(i as int + 1));
            }
            let line = lines_seen + 1;
            let col = line_offset + 1;
            let b = bytes[i];
            if b == BYTE_POINTER_FORWARD {
                tokens.push(Token::increment_pointer(Location { line, col }));
            } else if b == BYTE_POINTER_BACKWARD {
                tokens.push(Token::decrement_pointer(Location { line, col }));
            } else if b == BYTE_INCREMENT {
                tokens.push(Token::increment(Location { line, col }));
            } else if b == BYTE_DECREMENT {
                tokens.push(Token::decrement(Location { line, col }));
            } else if b == BYTE_OUTPUT {
                tokens.push(Token::output(Location { line, col }));
            } else if b == BYTE_INPUT {
                tokens.push(Token::input(Location { line, col }));
            } else if b == BYTE_JUMP_FORWARD {
                tokens.push(Token::jump_forward(Location { line, col }));
            } else if b == BYTE_JUMP_BACKWARD {
                tokens.push(Token::jump_backward(Location { line, col }));
            }
            if b == BYTE_NEWLINE {
                lines_seen = lines_seen + 1;
                line_offset = 0;
            } else {
                line_offset = line_offset + 1;
            }
            i = i + 1;
            proof {
                let rest = lex_bytes(
                    bytes@.skip(i as int),
                    (lines_seen + 1) as nat,
                    (line_offset + 1) as nat,
                );
                match token_kind_of(b) {
                    Some(k) => {
                        let tok = (Annotation {
                            value: k,
                            location: Location { line: line0 as usize, col: col0 as usize },
                        });
                        assert(lex_bytes(suffix, line0, col0) =~= seq![tok] + rest);
                        assert(tokens@ =~= tokens_before + seq![tok]);
                        assert(tokens@ + rest =~= tokens_before + (seq![tok] + rest));
                    }
                    None => {
                        assert(lex_bytes(suffix, line0, col0) == rest);
                    }
                }
            }
        }
        proof {
            assert(bytes@.skip(n as int) =~= Seq::<u8>::empty());
            assert(tokens@ + Seq::<Token>::empty() =~= tokens@);
        }
        tokens
    }
}

/// Law: bytes outside the recognized set are dropped without affecting
/// which tokens appear or their order. The kinds of the lexed tokens are
/// exactly the recognized bytes of the source, in source order, mapped
/// through the fixed bijection — and the running position does not
/// influence them; it only places the tokens.
pub proof fn lemma_lex_kinds(s: Seq<u8>, line: nat, col: nat)
    ensures
        kinds_of(lex_bytes(s, line, col))
            == s.filter(|b: u8| recognized(b)).map_values(|b: u8| token_kind_of(b).unwrap()),
    decreases s.len(),
{
    reveal_with_fuel(Seq::<u8>::filter, 2);
    let pred = |b: u8| recognized(b);
    let f = |b: u8| token_kind_of(b).unwrap();
    if s.len() == 0 {
        assert(s.filter(pred) =~= Seq::<u8>::empty());
        assert(kinds_of(lex_bytes(s, line, col)) =~= Seq::<TokenKind>::empty());
        assert(s.filter(pred).map_values(f) =~= Seq::<TokenKind>::empty());
    } else {
        let b = s[0];
        let rest = s.drop_first();
        let head = seq![b];
        assert(s =~= head + rest);
        Seq::<u8>::filter_distributes_over_add(head, rest, pred);
        assert(head.drop_last() =~= Seq::<u8>::empty());
        if pred(b) {
            assert(head.filter(pred) =~= seq![b]);
        } else {
            assert(head.filter(pred) =~= Seq::<u8>::empty());
        }
        if b == BYTE_NEWLINE {
            lemma_lex_kinds(rest, line + 1, 1);
        } else {
            lemma_lex_kinds(rest, line, col + 1);
        }
        let lexed = lex_bytes(s, line, col);
        let rest_lexed = if b == BYTE_NEWLINE {
            lex_bytes(rest, line + 1, 1)
        } else {
            lex_bytes(rest, line, col + 1)
        };
        match token_kind_of(b) {
            Some(k) => {
                assert(kinds_of(lexed) =~= seq![k] + kinds_of(rest_lexed));
                assert(s.filter(pred).map_values(f) =~= seq![k] + rest.filter(pred).map_values(f));
            }
            None => {
                assert(lexed == rest_lexed);
                assert(s.filter(pred) =~= rest.filter(pred));
            }
        }
    }
}

} // verus!
