//! Precedence-climbing parser from a token stream to a syntax tree.
//!
//! Union binds loosest, then concatenation, then the postfix closures.
//! Inside a character class, union binds looser than range.

use crate::lexer::{token_stream, Lexer, Token, TokenTypes};
use vstd::prelude::*;
use vstd::string::StringExecFns;

verus! {

#[derive(Debug, PartialEq, Eq)]
pub enum Error {
    Syntax(String),
    InvalidRange(String),
}

#[derive(Debug, Clone, Copy, PartialEq, Eq, Structural)]
pub enum BinaryOp {
    /// a|b => a or b
    Union,
    /// ab => a and b
    Concatenation,
}

#[derive(Debug, Clone, Copy, PartialEq, Eq, Structural)]
pub enum UnaryOp {
    /// a+ => One or more a
    ClosurePlus,
    /// a* => Zero or more a
    ClosureStar,
}

#[derive(Debug, Clone, Copy, PartialEq, Eq, Structural)]
pub enum CharacterClassBinaryOp {
    Union,
    Range,
}

#[derive(Debug, PartialEq, Eq)]
pub enum RegexAST {
    Binary(Box<RegexAST>, BinaryOp, Box<RegexAST>),
    Unary(Box<RegexAST>, UnaryOp),
    /// a => matches the symbol a
    Symbol(char),
    /// [abc] or [a-zA-Z] etc
    CharacterClass(CharacterClassType),
    EmptyString,
}

#[derive(PartialEq, Eq, Debug)]
pub enum CharacterClassType {
    Single(char),
    Binary(Box<CharacterClassType>, CharacterClassBinaryOp, Box<CharacterClassType>),
}

impl Clone for CharacterClassType {
    fn clone(&self) -> (copy: Self)
        ensures
            copy == *self,
        decreases self,
    {
        match self {
            CharacterClassType::Single(symbol) => CharacterClassType::Single(*symbol),
            CharacterClassType::Binary(lhs, op, rhs) => {
                let left = (**lhs).clone();
                let right = (**rhs).clone();
                CharacterClassType::Binary(Box::new(left), *op, Box::new(right))
            },
        }
    }
}

impl Clone for RegexAST {
    fn clone(&self) -> (copy: Self)
        ensures
            copy == *self,
        decreases self,
    {
        match self {
            RegexAST::Binary(lhs, op, rhs) => {
                let left = (**lhs).clone();
                let right = (**rhs).clone();
                RegexAST::Binary(Box::new(left), *op, Box::new(right))
            },
            RegexAST::Unary(child, op) => {
                let inner = (**child).clone();
                RegexAST::Unary(Box::new(inner), *op)
            },
            RegexAST::Symbol(symbol) => RegexAST::Symbol(*symbol),
            RegexAST::CharacterClass(class) => RegexAST::CharacterClass(class.clone()),
            RegexAST::EmptyString => RegexAST::EmptyString,
        }
    }
}

/// Why a token stream has no syntax tree.
#[derive(Debug, Clone, Copy, PartialEq, Eq, Structural)]
pub enum ParseFailure {
    /// An opening parenthesis is the last token of the pattern.
    EmptyGroup,
    /// The group opened at this position is not closed.
    UnclosedGroup(usize),
    /// The character class opened at this position is not closed.
    UnclosedClass(usize),
    /// A closure operator has no operand before it.
    StrayClosure(UnaryOp),
    /// A union operator has no operand before it.
    StrayUnion,
    /// A closing parenthesis stands where an operand is expected.
    UnmatchedParenthesis,
    /// A closing bracket stands where an operand is expected.
    UnmatchedBracket,
    /// A closure is followed by a star.
    StackedClosure,
    /// An opening bracket is the last token of the pattern.
    EmptyClass,
    /// The range's upper end lies below its lower end.
    InvalidRange(char, char),
    /// A token stands where the grammar has no place for it.
    Unsupported(TokenTypes),
}

/// The outcome of parsing a prefix of the token stream: the tree or the
/// failure, and the position of the first token that was not read.
pub struct Parsed<T> {
    pub result: Result<T, ParseFailure>,
    pub index: int,
}

/// The type of the token at `index`; past the end of the stream it is `Eof`.
pub open spec fn type_at(tokens: Seq<Token>, index: int) -> TokenTypes {
    if 0 <= index < tokens.len() {
        tokens[index].ty
    } else {
        TokenTypes::Eof
    }
}

/// Left and right binding power of the infix operators.
pub open spec fn infix_power(ty: TokenTypes, in_class: bool) -> Option<(int, int)> {
    match ty {
        TokenTypes::Union => Some((1, 2)),
        TokenTypes::Concatenation => if in_class {
            None
        } else {
            Some((3, 3))
        },
        TokenTypes::Dash => if in_class {
            Some((6, 5))
        } else {
            None
        },
        _ => None,
    }
}

/// Left binding power of the postfix operators.
pub open spec fn postfix_power(ty: TokenTypes) -> Option<int> {
    match ty {
        TokenTypes::ClosureStar => Some(5),
        TokenTypes::ClosurePlus => Some(5),
        _ => None,
    }
}

/// A range is invalid where both ends are single characters and the upper
/// end lies below the lower one.
pub open spec fn range_failure(lhs: CharacterClassType, rhs: CharacterClassType) -> Option<
    ParseFailure,
> {
    match (lhs, rhs) {
        (CharacterClassType::Single(low), CharacterClassType::Single(high)) => if (high as u32)
            < (low as u32) {
            Some(ParseFailure::InvalidRange(low, high))
        } else {
            None
        },
        _ => None,
    }
}

/// Parses the members of a character class from `index` on, as long as the
/// operators bind at least as tightly as `min_bp`.
pub open spec fn parse_class(tokens: Seq<Token>, index: int, min_bp: int) -> Parsed<
    CharacterClassType,
>
    decreases tokens.len() - index, 1int,
{
    match type_at(tokens, index) {
        TokenTypes::Symbol(symbol) => if index < tokens.len() {
            parse_class_operators(tokens, CharacterClassType::Single(symbol), index + 1, min_bp)
        } else {
            Parsed { result: Err(ParseFailure::EmptyClass), index }
        },
        TokenTypes::Eof => Parsed { result: Err(ParseFailure::EmptyClass), index },
        ty => Parsed { result: Err(ParseFailure::Unsupported(ty)), index },
    }
}

/// Extends the class expression `lhs` by the operators that follow at
/// `index`.
pub open spec fn parse_class_operators(
    tokens: Seq<Token>,
    lhs: CharacterClassType,
    index: int,
    min_bp: int,
) -> Parsed<CharacterClassType>
    decreases tokens.len() - index, 0int,
{
    if index < 0 || index >= tokens.len() {
        Parsed { result: Ok(lhs), index }
    } else {
        let ty = tokens[index].ty;
        match ty {
            TokenTypes::Union | TokenTypes::Dash => {
                let (left, right) = infix_power(ty, true)->0;
                if left < min_bp {
                    Parsed { result: Ok(lhs), index }
                } else {
                    let rhs = parse_class(tokens, index + 1, right);
                    match rhs.result {
                        Err(failure) => Parsed { result: Err(failure), index: rhs.index },
                        Ok(tree) => {
                            let op = if ty is Union {
                                CharacterClassBinaryOp::Union
                            } else {
                                CharacterClassBinaryOp::Range
                            };
                            if op is Range && range_failure(lhs, tree) is Some {
                                Parsed {
                                    result: Err(range_failure(lhs, tree)->0),
                                    index: rhs.index,
                                }
                            } else if rhs.index <= index || rhs.index > tokens.len() {
                                // Parsing moves forward: this guard only bounds the recursion.
                                Parsed { result: Ok(lhs), index }
                            } else {
                                parse_class_operators(
                                    tokens,
                                    CharacterClassType::Binary(Box::new(lhs), op, Box::new(tree)),
                                    rhs.index,
                                    min_bp,
                                )
                            }
                        },
                    }
                }
            },
            TokenTypes::CloseBracket | TokenTypes::Eof => Parsed { result: Ok(lhs), index },
            _ => Parsed { result: Err(ParseFailure::Unsupported(ty)), index },
        }
    }
}

/// Parses an expression from `index` on, as long as the operators bind at
/// least as tightly as `min_bp`.
pub open spec fn parse_expr(tokens: Seq<Token>, index: int, min_bp: int) -> Parsed<RegexAST>
    decreases tokens.len() - index, 1int,
{
    if index < 0 || index >= tokens.len() {
        Parsed { result: Ok(RegexAST::EmptyString), index }
    } else {
        match tokens[index].ty {
            TokenTypes::Symbol(symbol) => parse_operators(
                tokens,
                RegexAST::Symbol(symbol),
                index + 1,
                min_bp,
            ),
            TokenTypes::OpenParenthesis => if type_at(tokens, index + 1) is Eof {
                Parsed { result: Err(ParseFailure::EmptyGroup), index: index + 1 }
            } else {
                let inner = parse_expr(tokens, index + 1, 0);
                match inner.result {
                    Err(failure) => Parsed { result: Err(failure), index: inner.index },
                    Ok(tree) => if !(type_at(tokens, inner.index) is CloseParenthesis) {
                        Parsed {
                            result: Err(ParseFailure::UnclosedGroup(tokens[index].start)),
                            index: inner.index,
                        }
                    } else if inner.index <= index {
                        // Parsing moves forward: this guard only bounds the recursion.
                        Parsed { result: Ok(tree), index: inner.index }
                    } else {
                        parse_operators(tokens, tree, inner.index + 1, min_bp)
                    },
                }
            },
            TokenTypes::OpenBracket => {
                let inner = parse_class(tokens, index + 1, 0);
                match inner.result {
                    Err(failure) => Parsed { result: Err(failure), index: inner.index },
                    Ok(class) => if !(type_at(tokens, inner.index) is CloseBracket) {
                        Parsed {
                            result: Err(ParseFailure::UnclosedClass(tokens[index].start)),
                            index: inner.index,
                        }
                    } else if inner.index <= index {
                        // Parsing moves forward: this guard only bounds the recursion.
                        Parsed { result: Ok(RegexAST::CharacterClass(class)), index: inner.index }
                    } else {
                        parse_operators(
                            tokens,
                            RegexAST::CharacterClass(class),
                            inner.index + 1,
                            min_bp,
                        )
                    },
                }
            },
            TokenTypes::ClosureStar => Parsed {
                result: Err(ParseFailure::StrayClosure(UnaryOp::ClosureStar)),
                index: index + 1,
            },
            TokenTypes::ClosurePlus => Parsed {
                result: Err(ParseFailure::StrayClosure(UnaryOp::ClosurePlus)),
                index: index + 1,
            },
            TokenTypes::Union => Parsed { result: Err(ParseFailure::StrayUnion), index: index + 1 },
            TokenTypes::CloseParenthesis => Parsed {
                result: Err(ParseFailure::UnmatchedParenthesis),
                index: index + 1,
            },
            TokenTypes::CloseBracket => Parsed {
                result: Err(ParseFailure::UnmatchedBracket),
                index: index + 1,
            },
            TokenTypes::Eof => Parsed { result: Ok(RegexAST::EmptyString), index: index + 1 },
            ty => Parsed { result: Err(ParseFailure::Unsupported(ty)), index: index + 1 },
        }
    }
}

/// Extends the expression `lhs` by the operators that follow at `index`.
pub open spec fn parse_operators(
    tokens: Seq<Token>,
    lhs: RegexAST,
    index: int,
    min_bp: int,
) -> Parsed<RegexAST>
    decreases tokens.len() - index, 0int,
{
    if index < 0 || index >= tokens.len() {
        Parsed { result: Ok(lhs), index }
    } else {
        let ty = tokens[index].ty;
        match ty {
            TokenTypes::ClosureStar | TokenTypes::ClosurePlus => if postfix_power(ty)->0 < min_bp {
                Parsed { result: Ok(lhs), index }
            } else if type_at(tokens, index + 1) is ClosureStar {
                Parsed { result: Err(ParseFailure::StackedClosure), index: index + 1 }
            } else {
                let op = if ty is ClosureStar {
                    UnaryOp::ClosureStar
                } else {
                    UnaryOp::ClosurePlus
                };
                parse_operators(tokens, RegexAST::Unary(Box::new(lhs), op), index + 1, min_bp)
            },
            TokenTypes::Union | TokenTypes::Concatenation => {
                let (left, right) = infix_power(ty, false)->0;
                if left < min_bp {
                    Parsed { result: Ok(lhs), index }
                } else if ty is Union && index + 1 < tokens.len() && tokens[index + 1].ty is Eof {
                    // A trailing union matches the left operand or the empty string.
                    parse_operators(
                        tokens,
                        RegexAST::Binary(
                            Box::new(lhs),
                            BinaryOp::Union,
                            Box::new(RegexAST::EmptyString),
                        ),
                        index + 1,
                        min_bp,
                    )
                } else {
                    let rhs = parse_expr(tokens, index + 1, right);
                    match rhs.result {
                        Err(failure) => Parsed { result: Err(failure), index: rhs.index },
                        Ok(tree) => if rhs.index <= index || rhs.index > tokens.len() {
                            // Parsing moves forward: this guard only bounds the recursion.
                            Parsed { result: Ok(lhs), index }
                        } else {
                            let op = if ty is Union {
                                BinaryOp::Union
                            } else {
                                BinaryOp::Concatenation
                            };
                            parse_operators(
                                tokens,
                                RegexAST::Binary(Box::new(lhs), op, Box::new(tree)),
                                rhs.index,
                                min_bp,
                            )
                        },
                    }
                }
            },
            TokenTypes::OpenParenthesis | TokenTypes::CloseParenthesis | TokenTypes::Eof => Parsed {
                result: Ok(lhs),
                index,
            },
            _ => Parsed { result: Err(ParseFailure::Unsupported(ty)), index },
        }
    }
}

/// Parsing a character class moves forward and stays inside the stream.
pub proof fn lemma_parse_class_progress(tokens: Seq<Token>, index: int, min_bp: int)
    requires
        0 <= index < tokens.len(),
    ensures
        parse_class(tokens, index, min_bp).result is Ok ==> index < parse_class(
            tokens,
            index,
            min_bp,
        ).index <= tokens.len(),
    decreases tokens.len() - index, 1int,
{
    match type_at(tokens, index) {
        TokenTypes::Symbol(symbol) => {
            lemma_parse_class_operators_progress(
                tokens,
                CharacterClassType::Single(symbol),
                index + 1,
                min_bp,
            );
        },
        _ => {},
    }
}

/// Extending a class expression never moves backward.
pub proof fn lemma_parse_class_operators_progress(
    tokens: Seq<Token>,
    lhs: CharacterClassType,
    index: int,
    min_bp: int,
)
    requires
        0 <= index <= tokens.len(),
    ensures
        parse_class_operators(tokens, lhs, index, min_bp).result is Ok ==> index
            <= parse_class_operators(tokens, lhs, index, min_bp).index <= tokens.len(),
    decreases tokens.len() - index, 0int,
{
    if index < tokens.len() {
        let ty = tokens[index].ty;
        if ty is Union || ty is Dash {
            let (left, right) = infix_power(ty, true)->0;
            if left >= min_bp && index + 1 < tokens.len() {
                lemma_parse_class_progress(tokens, index + 1, right);
                let rhs = parse_class(tokens, index + 1, right);
                if rhs.result is Ok {
                    let op = if ty is Union {
                        CharacterClassBinaryOp::Union
                    } else {
                        CharacterClassBinaryOp::Range
                    };
                    lemma_parse_class_operators_progress(
                        tokens,
                        CharacterClassType::Binary(Box::new(lhs), op, Box::new(rhs.result->Ok_0)),
                        rhs.index,
                        min_bp,
                    );
                }
            }
        }
    }
}

/// Parsing an expression moves forward and stays inside the stream.
pub proof fn lemma_parse_expr_progress(tokens: Seq<Token>, index: int, min_bp: int)
    requires
        0 <= index < tokens.len(),
    ensures
        parse_expr(tokens, index, min_bp).result is Ok ==> index < parse_expr(
            tokens,
            index,
            min_bp,
        ).index <= tokens.len(),
    decreases tokens.len() - index, 1int,
{
    match tokens[index].ty {
        TokenTypes::Symbol(symbol) => {
            lemma_parse_operators_progress(tokens, RegexAST::Symbol(symbol), index + 1, min_bp);
        },
        TokenTypes::OpenParenthesis => {
            if !(type_at(tokens, index + 1) is Eof) {
                lemma_parse_expr_progress(tokens, index + 1, 0);
                let inner = parse_expr(tokens, index + 1, 0);
                if inner.result is Ok && type_at(tokens, inner.index) is CloseParenthesis {
                    lemma_parse_operators_progress(
                        tokens,
                        inner.result->Ok_0,
                        inner.index + 1,
                        min_bp,
                    );
                }
            }
        },
        TokenTypes::OpenBracket => {
            if index + 1 < tokens.len() {
                lemma_parse_class_progress(tokens, index + 1, 0);
                let inner = parse_class(tokens, index + 1, 0);
                if inner.result is Ok && type_at(tokens, inner.index) is CloseBracket {
                    lemma_parse_operators_progress(
                        tokens,
                        RegexAST::CharacterClass(inner.result->Ok_0),
                        inner.index + 1,
                        min_bp,
                    );
                }
            }
        },
        _ => {},
    }
}

/// Extending an expression never moves backward.
pub proof fn lemma_parse_operators_progress(
    tokens: Seq<Token>,
    lhs: RegexAST,
    index: int,
    min_bp: int,
)
    requires
        0 <= index <= tokens.len(),
    ensures
        parse_operators(tokens, lhs, index, min_bp).result is Ok ==> index <= parse_operators(
            tokens,
            lhs,
            index,
            min_bp,
        ).index <= tokens.len(),
    decreases tokens.len() - index, 0int,
{
    if index < tokens.len() {
        let ty = tokens[index].ty;
        if ty is ClosureStar || ty is ClosurePlus {
            if postfix_power(ty)->0 >= min_bp && !(type_at(tokens, index + 1) is ClosureStar) {
                let op = if ty is ClosureStar {
                    UnaryOp::ClosureStar
                } else {
                    UnaryOp::ClosurePlus
                };
                lemma_parse_operators_progress(
                    tokens,
                    RegexAST::Unary(Box::new(lhs), op),
                    index + 1,
                    min_bp,
                );
            }
        } else if ty is Union || ty is Concatenation {
            let (left, right) = infix_power(ty, false)->0;
            if left >= min_bp {
                if ty is Union && index + 1 < tokens.len() && tokens[index + 1].ty is Eof {
                    lemma_parse_operators_progress(
                        tokens,
                        RegexAST::Binary(
                            Box::new(lhs),
                            BinaryOp::Union,
                            Box::new(RegexAST::EmptyString),
                        ),
                        index + 1,
                        min_bp,
                    );
                } else {
                    if index + 1 < tokens.len() {
                        lemma_parse_expr_progress(tokens, index + 1, right);
                    }
                    let rhs = parse_expr(tokens, index + 1, right);
                    if rhs.result is Ok {
                        let op = if ty is Union {
                            BinaryOp::Union
                        } else {
                            BinaryOp::Concatenation
                        };
                        lemma_parse_operators_progress(
                            tokens,
                            RegexAST::Binary(Box::new(lhs), op, Box::new(rhs.result->Ok_0)),
                            rhs.index,
                            min_bp,
                        );
                    }
                }
            }
        }
    }
}

#[derive(PartialEq, Eq, Debug, Clone, Copy, Structural)]
enum Operation {
    CharacterClassBinary(CharacterClassBinaryOp),
    Binary(BinaryOp),
    Unary(UnaryOp),
    Unknow(TokenTypes),
}

impl Operation {
    fn get_character_class_binary_op(&self) -> (op: CharacterClassBinaryOp)
        requires
            self is CharacterClassBinary,
        ensures
            *self == Operation::CharacterClassBinary(op),
    {
        match self {
            Operation::CharacterClassBinary(op) => *op,
            _ => CharacterClassBinaryOp::Union,
        }
    }

    fn get_binary_op(&self) -> (op: BinaryOp)
        requires
            self is Binary,
        ensures
            *self == Operation::Binary(op),
    {
        match self {
            Operation::Binary(op) => *op,
            _ => BinaryOp::Union,
        }
    }

    fn get_unary_op(&self) -> (op: UnaryOp)
        requires
            self is Unary,
        ensures
            *self == Operation::Unary(op),
    {
        match self {
            Operation::Unary(op) => *op,
            _ => UnaryOp::ClosureStar,
        }
    }
}

fn infix_binding_power(op: Operation) -> (power: Option<(u8, u8)>)
    ensures
        power == (match op {
            Operation::Binary(BinaryOp::Union) => Some((1u8, 2u8)),
            Operation::CharacterClassBinary(CharacterClassBinaryOp::Union) => Some((1u8, 2u8)),
            Operation::Binary(BinaryOp::Concatenation) => Some((3u8, 3u8)),
            Operation::CharacterClassBinary(CharacterClassBinaryOp::Range) => Some((6u8, 5u8)),
            _ => None,
        }),
{
    match op {
        Operation::Binary(BinaryOp::Union)
        | Operation::CharacterClassBinary(CharacterClassBinaryOp::Union) => Some((1, 2)),
        Operation::Binary(BinaryOp::Concatenation) => Some((3, 3)),
        Operation::CharacterClassBinary(CharacterClassBinaryOp::Range) => Some((6, 5)),
        _ => None,
    }
}

fn postfix_binding_power(op: Operation) -> (power: Option<(u8, ())>)
    ensures
        power is Some <==> op is Unary,
        power matches Some(found) ==> found.0 == 5,
{
    match op {
        Operation::Unary(_) => Some((5, ())),
        _ => None,
    }
}

fn peeks(lexer: &Lexer, ty: TokenTypes) -> (found: bool)
    ensures
        found == (lexer.index() < lexer.tokens().len() && lexer.tokens()[lexer.index()].ty == ty),
{
    match lexer.peek_token() {
        Some(token) => token.ty == ty,
        None => false,
    }
}

fn parse_regex_expr(lexer: &mut Lexer, min_bp: u8) -> (res: Result<RegexAST, ParseFailure>)
    requires
        old(lexer).wf(),
        old(lexer).index() < old(lexer).tokens().len(),
        old(lexer).tokens().last().ty is Eof,
    ensures
        final(lexer).wf(),
        final(lexer).tokens() == old(lexer).tokens(),
        res == parse_expr(old(lexer).tokens(), old(lexer).index(), min_bp as int).result,
        res is Ok ==> final(lexer).index() == parse_expr(
            old(lexer).tokens(),
            old(lexer).index(),
            min_bp as int,
        ).index,
    decreases old(lexer).tokens().len() - old(lexer).index(),
{
    let ghost tokens = lexer.tokens();
    let ghost start = lexer.index();
    let token = lexer.next_token();
    // Handle literals
    let mut lhs = match token.ty {
        TokenTypes::Symbol(s) => RegexAST::Symbol(s),
        TokenTypes::OpenParenthesis => {
            if peeks(lexer, TokenTypes::Eof) {
                return Err(ParseFailure::EmptyGroup);
            }
            let lhs = match parse_regex_expr(lexer, 0) {
                Ok(lhs) => lhs,
                Err(failure) => {
                    return Err(failure);
                },
            };
            proof {
                lemma_parse_expr_progress(tokens, start + 1, 0);
            }
            if lexer.next_token().ty != TokenTypes::CloseParenthesis {
                return Err(ParseFailure::UnclosedGroup(token.start));
            }
            lhs
        },
        TokenTypes::OpenBracket => {
            let lhs = match parse_character_class(lexer, 0) {
                Ok(lhs) => lhs,
                Err(failure) => {
                    return Err(failure);
                },
            };
            proof {
                lemma_parse_class_progress(tokens, start + 1, 0);
            }
            if lexer.next_token().ty != TokenTypes::CloseBracket {
                return Err(ParseFailure::UnclosedClass(token.start));
            }
            RegexAST::CharacterClass(lhs)
        },
        TokenTypes::ClosureStar => {
            return Err(ParseFailure::StrayClosure(UnaryOp::ClosureStar));
        },
        TokenTypes::ClosurePlus => {
            return Err(ParseFailure::StrayClosure(UnaryOp::ClosurePlus));
        },
        TokenTypes::Union => {
            return Err(ParseFailure::StrayUnion);
        },
        TokenTypes::CloseParenthesis => {
            return Err(ParseFailure::UnmatchedParenthesis);
        },
        TokenTypes::CloseBracket => {
            return Err(ParseFailure::UnmatchedBracket);
        },
        TokenTypes::Eof => {
            return Ok(RegexAST::EmptyString);
        },
        t => {
            return Err(ParseFailure::Unsupported(t));
        },
    };

    let ghost target = parse_expr(tokens, start, min_bp as int);
    loop
        invariant
            lexer.wf(),
            lexer.tokens() == tokens,
            tokens == old(lexer).tokens(),
            start == old(lexer).index(),
            tokens.last().ty is Eof,
            start < lexer.index() <= tokens.len(),
            parse_operators(tokens, lhs, lexer.index(), min_bp as int) == target,
            target == parse_expr(tokens, start, min_bp as int),
        ensures
            lexer.wf(),
            lexer.tokens() == tokens,
            target.result == Ok::<RegexAST, ParseFailure>(lhs),
            target.index == lexer.index(),
        decreases tokens.len() - lexer.index(),
    {
        let ghost at = lexer.index();
        let token = match lexer.peek_token() {
            Some(token) => token,
            None => {
                break ;
            },
        };
        let op = match token.ty {
            TokenTypes::Union => Operation::Binary(BinaryOp::Union),
            TokenTypes::Concatenation => Operation::Binary(BinaryOp::Concatenation),
            TokenTypes::ClosureStar => Operation::Unary(UnaryOp::ClosureStar),
            TokenTypes::ClosurePlus => Operation::Unary(UnaryOp::ClosurePlus),
            TokenTypes::OpenParenthesis | TokenTypes::CloseParenthesis => Operation::Unknow(
                token.ty,
            ),
            TokenTypes::Eof => {
                return Ok(lhs);
            },
            t => {
                return Err(ParseFailure::Unsupported(t));
            },
        };

        // Handle unary operations precedence
        if let Some((l_bp, _)) = postfix_binding_power(op) {
            if l_bp < min_bp {
                break ;
            }
            lexer.next_token();

            if peeks(lexer, TokenTypes::ClosureStar) {
                return Err(ParseFailure::StackedClosure);
            }
            lhs = RegexAST::Unary(Box::new(lhs), op.get_unary_op());
        } else if let Some((l_bp, r_bp)) = infix_binding_power(op) {
            // Handle binary operations precedence
            if l_bp < min_bp {
                break ;
            }
            lexer.next_token();

            let rhs = if op.get_binary_op() == BinaryOp::Union && peeks(lexer, TokenTypes::Eof) {
                // A trailing union, as in "a|", matches "a" or the empty string.
                RegexAST::EmptyString
            } else {
                match parse_regex_expr(lexer, r_bp) {
                    Ok(rhs) => rhs,
                    Err(failure) => {
                        return Err(failure);
                    },
                }
            };
            proof {
                lemma_parse_expr_progress(tokens, at + 1, r_bp as int);
            }
            lhs = RegexAST::Binary(Box::new(lhs), op.get_binary_op(), Box::new(rhs));
        } else {
            break ;
        }
    }

    Ok(lhs)
}

fn parse_character_class(lexer: &mut Lexer, min_bp: u8) -> (res: Result<
    CharacterClassType,
    ParseFailure,
>)
    requires
        old(lexer).wf(),
        old(lexer).index() < old(lexer).tokens().len(),
        old(lexer).tokens().last().ty is Eof,
    ensures
        final(lexer).wf(),
        final(lexer).tokens() == old(lexer).tokens(),
        res == parse_class(old(lexer).tokens(), old(lexer).index(), min_bp as int).result,
        res is Ok ==> final(lexer).index() == parse_class(
            old(lexer).tokens(),
            old(lexer).index(),
            min_bp as int,
        ).index,
    decreases old(lexer).tokens().len() - old(lexer).index(),
{
    let ghost tokens = lexer.tokens();
    let ghost start = lexer.index();
    let token = lexer.next_token();
    let mut lhs = match token.ty {
        TokenTypes::Symbol(s) => CharacterClassType::Single(s),
        TokenTypes::Eof => {
            return Err(ParseFailure::EmptyClass);
        },
        t => {
            return Err(ParseFailure::Unsupported(t));
        },
    };

    let ghost target = parse_class(tokens, start, min_bp as int);
    loop
        invariant
            lexer.wf(),
            lexer.tokens() == tokens,
            tokens == old(lexer).tokens(),
            start == old(lexer).index(),
            tokens.last().ty is Eof,
            start < lexer.index() <= tokens.len(),
            parse_class_operators(tokens, lhs, lexer.index(), min_bp as int) == target,
            target == parse_class(tokens, start, min_bp as int),
        ensures
            lexer.wf(),
            lexer.tokens() == tokens,
            target.result == Ok::<CharacterClassType, ParseFailure>(lhs),
            target.index == lexer.index(),
        decreases tokens.len() - lexer.index(),
    {
        let ghost at = lexer.index();
        let token = match lexer.peek_token() {
            Some(token) => token,
            None => {
                break ;
            },
        };
        let op = match token.ty {
            TokenTypes::Union => Operation::CharacterClassBinary(CharacterClassBinaryOp::Union),
            TokenTypes::Dash => Operation::CharacterClassBinary(CharacterClassBinaryOp::Range),
            TokenTypes::CloseBracket => Operation::Unknow(token.ty),
            TokenTypes::Eof => {
                return Ok(lhs);
            },
            t => {
                return Err(ParseFailure::Unsupported(t));
            },
        };

        if let Some((lhs_bp, rhs_bp)) = infix_binding_power(op) {
            if lhs_bp < min_bp {
                break ;
            }
            lexer.next_token();
            let rhs = match parse_character_class(lexer, rhs_bp) {
                Ok(rhs) => rhs,
                Err(failure) => {
                    return Err(failure);
                },
            };
            proof {
                lemma_parse_class_progress(tokens, at + 1, rhs_bp as int);
            }
            let binary_op = op.get_character_class_binary_op();
            if binary_op == CharacterClassBinaryOp::Range {
                if let (CharacterClassType::Single(low), CharacterClassType::Single(high)) = (
                    &lhs,
                    &rhs,
                ) {
                    if *high < *low {
                        return Err(ParseFailure::InvalidRange(*low, *high));
                    }
                }
            }
            lhs = CharacterClassType::Binary(Box::new(lhs), binary_op, Box::new(rhs));
        } else {
            break ;
        }
    }

    Ok(lhs)
}

/// The decimal digit `value`, for `value` below ten.
pub open spec fn digit(value: nat) -> char {
    if value == 0 {
        '0'
    } else if value == 1 {
        '1'
    } else if value == 2 {
        '2'
    } else if value == 3 {
        '3'
    } else if value == 4 {
        '4'
    } else if value == 5 {
        '5'
    } else if value == 6 {
        '6'
    } else if value == 7 {
        '7'
    } else if value == 8 {
        '8'
    } else {
        '9'
    }
}

/// The decimal numeral of `value`, without leading zeros.
pub open spec fn decimal(value: nat) -> Seq<char>
    decreases value,
{
    if value < 10 {
        seq![digit(value)]
    } else {
        decimal(value / 10).push(digit(value % 10))
    }
}

/// The text that reports a failure. An unsupported token has none.
pub open spec fn failure_message(failure: ParseFailure) -> Seq<char> {
    match failure {
        ParseFailure::EmptyGroup => "Invalid group: missing closing parenthesis!"@,
        ParseFailure::UnclosedGroup(position) => "Parenthesis at position "@ + decimal(
            position as nat,
        ) + " doesn't have a closing parenthesis!"@,
        ParseFailure::UnclosedClass(position) => "Brackets at position "@ + decimal(
            position as nat,
        ) + " doesn't have a closing brackets!"@,
        ParseFailure::StrayClosure(UnaryOp::ClosureStar) =>
            "Invalid Closure: ClosureStar operator needs a preceding literal, e.g. \"a*\", \"(ab)*\", \"(a|c)*\"."@,
        ParseFailure::StrayClosure(UnaryOp::ClosurePlus) =>
            "Invalid Closure: ClosurePlus operator needs a preceding literal, e.g. \"a+\", \"(ab)+\", \"(a|c)+\"."@,
        ParseFailure::StrayUnion =>
            "Invalid Union: the union operator \"|\" needs to be between two literals, e.g. \"ab|cd\", \"a|z\", \"1*|0*\"."@,
        ParseFailure::UnmatchedParenthesis => "Unmatched parenthesis."@,
        ParseFailure::UnmatchedBracket => "Unmatched bracket."@,
        ParseFailure::StackedClosure =>
            "Invalid Closure: ClosureStar operator can't be followed by another Closure Star operator"@,
        ParseFailure::EmptyClass => "Invalid character class: missing closing bracket!"@,
        ParseFailure::InvalidRange(low, high) => "Invalid Range: \""@.push(low) + "\" is bigger than \""@.push(
            high,
        ) + "\"!"@,
        ParseFailure::Unsupported(_) => Seq::empty(),
    }
}

/// `error` is the report of `failure`: an invalid range has its own kind of
/// error, every other failure is a syntax error, and the text is that of
/// [`failure_message`].
pub open spec fn reports(error: Error, failure: ParseFailure) -> bool {
    match error {
        Error::Syntax(message) => !(failure is InvalidRange) && !(failure is Unsupported)
            && message@ == failure_message(failure),
        Error::InvalidRange(message) => failure is InvalidRange && message@ == failure_message(
            failure,
        ),
    }
}

/// `String::push` appends one character to the text.
pub assume_specification[ String::push ](text: &mut String, symbol: char)
    ensures
        final(text)@ == old(text)@.push(symbol),
;

fn digit_text(value: usize) -> (text: &'static str)
    requires
        value < 10,
    ensures
        text@ == seq![digit(value as nat)],
{
    proof {
        reveal_strlit("0");
        reveal_strlit("1");
        reveal_strlit("2");
        reveal_strlit("3");
        reveal_strlit("4");
        reveal_strlit("5");
        reveal_strlit("6");
        reveal_strlit("7");
        reveal_strlit("8");
        reveal_strlit("9");
    }
    let text = match value {
        0 => "0",
        1 => "1",
        2 => "2",
        3 => "3",
        4 => "4",
        5 => "5",
        6 => "6",
        7 => "7",
        8 => "8",
        _ => "9",
    };
    assert(text@ =~= seq![digit(value as nat)]);
    text
}

/// Writes `value` as a decimal numeral.
pub fn decimal_text(value: usize) -> (text: String)
    ensures
        text@ == decimal(value as nat),
    decreases value,
{
    if value < 10 {
        String::from_str(digit_text(value))
    } else {
        let mut text = decimal_text(value / 10);
        text.append(digit_text(value % 10));
        assert(text@ =~= decimal(value as nat));
        text
    }
}

impl ParseFailure {
    /// The error that reports this failure.
    pub fn report(&self) -> (error: Error)
        requires
            !(self is Unsupported),
        ensures
            reports(error, *self),
    {
        match self {
            ParseFailure::EmptyGroup => Error::Syntax(
                String::from_str("Invalid group: missing closing parenthesis!"),
            ),
            ParseFailure::UnclosedGroup(position) => {
                let mut message = String::from_str("Parenthesis at position ");
                let numeral = decimal_text(*position);
                message.append(numeral.as_str());
                message.append(" doesn't have a closing parenthesis!");
                Error::Syntax(message)
            },
            ParseFailure::UnclosedClass(position) => {
                let mut message = String::from_str("Brackets at position ");
                let numeral = decimal_text(*position);
                message.append(numeral.as_str());
                message.append(" doesn't have a closing brackets!");
                Error::Syntax(message)
            },
            ParseFailure::StrayClosure(UnaryOp::ClosureStar) => Error::Syntax(
                String::from_str(
                    "Invalid Closure: ClosureStar operator needs a preceding literal, e.g. \"a*\", \"(ab)*\", \"(a|c)*\".",
                ),
            ),
            ParseFailure::StrayClosure(UnaryOp::ClosurePlus) => Error::Syntax(
                String::from_str(
                    "Invalid Closure: ClosurePlus operator needs a preceding literal, e.g. \"a+\", \"(ab)+\", \"(a|c)+\".",
                ),
            ),
            ParseFailure::StrayUnion => Error::Syntax(
                String::from_str(
                    "Invalid Union: the union operator \"|\" needs to be between two literals, e.g. \"ab|cd\", \"a|z\", \"1*|0*\".",
                ),
            ),
            ParseFailure::UnmatchedParenthesis => Error::Syntax(
                String::from_str("Unmatched parenthesis."),
            ),
            ParseFailure::UnmatchedBracket => Error::Syntax(String::from_str("Unmatched bracket.")),
            ParseFailure::StackedClosure => Error::Syntax(
                String::from_str(
                    "Invalid Closure: ClosureStar operator can't be followed by another Closure Star operator",
                ),
            ),
            ParseFailure::EmptyClass => Error::Syntax(
                String::from_str("Invalid character class: missing closing bracket!"),
            ),
            ParseFailure::InvalidRange(low, high) => {
                let mut message = String::from_str("Invalid Range: \"");
                message.push(*low);
                message.append("\" is bigger than \"");
                message.push(*high);
                message.append("\"!");
                Error::InvalidRange(message)
            },
            ParseFailure::Unsupported(_) => Error::Syntax(String::new()),
        }
    }
}

/// Parses a pattern and keeps the failure, if any, in its structured form.
pub fn try_parse_regex(regex: &str) -> (res: Result<RegexAST, ParseFailure>)
    requires
        regex@.len() < usize::MAX,
    ensures
        res == parse_pattern(regex@),
{
    let mut lexer = Lexer::new(regex);
    parse_regex_expr(&mut lexer, 0)
}

/// Whether the grammar has a place for every token that parsing `pattern`
/// reads.
pub open spec fn supported(pattern: Seq<char>) -> bool {
    !(parse_pattern(pattern) matches Err(ParseFailure::Unsupported(_)))
}

/// Parses a pattern into its syntax tree, or reports why it has none.
pub fn parse_regex(regex: &str) -> (res: Result<RegexAST, Error>)
    requires
        regex@.len() < usize::MAX,
        supported(regex@),
    ensures
        match parse_pattern(regex@) {
            Ok(tree) => res == Ok::<RegexAST, Error>(tree),
            Err(failure) => res matches Err(error) && reports(error, failure),
        },
{
    match try_parse_regex(regex) {
        Ok(tree) => Ok(tree),
        Err(failure) => Err(failure.report()),
    }
}

/// The syntax tree of a token stream, or why it has none.
pub open spec fn parse_tokens(tokens: Seq<Token>) -> Result<RegexAST, ParseFailure> {
    parse_expr(tokens, 0, 0).result
}

/// The syntax tree of a pattern, or why it has none.
pub open spec fn parse_pattern(pattern: Seq<char>) -> Result<RegexAST, ParseFailure> {
    parse_tokens(token_stream(pattern))
}

} // verus!
