//! Tokenizer for regular-expression patterns.
//!
//! The token stream makes explicit what the pattern syntax leaves implicit:
//! concatenation between adjacent operands, and union between adjacent
//! members of a bracketed character class.

use std::ops::Range;
use vstd::prelude::*;

verus! {

#[derive(Debug, PartialEq, Eq, Clone, Copy, Structural)]
pub enum TokenTypes {
    Symbol(char),
    Union,
    ClosurePlus,
    ClosureStar,
    Concatenation,
    OpenParenthesis,
    CloseParenthesis,
    OpenBracket,
    CloseBracket,
    Dash,
    Eof,
}

/// A token together with the half-open span `start..end` of the pattern it
/// was read from. Implicit tokens carry the span `0..0`.
#[derive(Debug, PartialEq, Eq, Clone, Copy, Structural)]
pub struct Token {
    pub ty: TokenTypes,
    pub start: usize,
    pub end: usize,
}

impl Token {
    pub fn new(ty: TokenTypes, start: usize, end: usize) -> (token: Self)
        ensures
            token == (Token { ty, start, end }),
    {
        Self { ty, start, end }
    }

    pub fn position(&self) -> (span: Range<usize>)
        ensures
            span.start == self.start,
            span.end == self.end,
    {
        self.start..self.end
    }
}

/// The token type of a character outside a character class.
pub open spec fn token_type(symbol: char) -> TokenTypes {
    if symbol == '*' {
        TokenTypes::ClosureStar
    } else if symbol == '+' {
        TokenTypes::ClosurePlus
    } else if symbol == '|' {
        TokenTypes::Union
    } else if symbol == '(' {
        TokenTypes::OpenParenthesis
    } else if symbol == ')' {
        TokenTypes::CloseParenthesis
    } else if symbol == '[' {
        TokenTypes::OpenBracket
    } else if symbol == ']' {
        TokenTypes::CloseBracket
    } else {
        TokenTypes::Symbol(symbol)
    }
}

/// The token type of a character inside a character class: everything but
/// the closing bracket is a literal.
pub open spec fn class_token_type(symbol: char) -> TokenTypes {
    if symbol == ']' {
        TokenTypes::CloseBracket
    } else {
        TokenTypes::Symbol(symbol)
    }
}

/// A token after which an operand may follow by implicit concatenation.
pub open spec fn ends_operand(ty: TokenTypes) -> bool {
    ty is Symbol || ty is CloseParenthesis || ty is CloseBracket || ty is ClosurePlus
        || ty is ClosureStar
}

/// A token that begins an operand.
pub open spec fn starts_operand(ty: TokenTypes) -> bool {
    ty is Symbol || ty is OpenParenthesis || ty is OpenBracket
}

pub open spec fn spec_token(ty: TokenTypes, start: int, end: int) -> Token {
    Token { ty, start: start as usize, end: end as usize }
}

/// The implicit concatenation, if any, between a token of type `current`
/// read at `index` and the character after it.
pub open spec fn implicit_concatenation(chars: Seq<char>, index: int, current: TokenTypes) -> Seq<
    Token,
> {
    if index + 1 < chars.len() && ends_operand(current) && starts_operand(
        token_type(chars[index + 1]),
    ) {
        seq![spec_token(TokenTypes::Concatenation, 0, 0)]
    } else {
        Seq::empty()
    }
}

/// What reading a character class yields: the tokens after the opening
/// bracket, the index of the last character read, and the type of the last
/// token, which is `CloseBracket`, or `Eof` where the class is not closed.
pub struct ClassTokens {
    pub tokens: Seq<Token>,
    pub index: int,
    pub last: TokenTypes,
}

/// The tokens of a character class, read from the character after `index`.
pub open spec fn class_tokens(chars: Seq<char>, index: int) -> ClassTokens
    decreases chars.len() - index,
{
    let next = index + 1;
    if next >= chars.len() {
        ClassTokens {
            tokens: seq![spec_token(TokenTypes::Eof, next + 1, next + 1)],
            index: next,
            last: TokenTypes::Eof,
        }
    } else {
        let ty = class_token_type(chars[next]);
        let token = spec_token(ty, next, next + 1);
        if ty is CloseBracket {
            ClassTokens { tokens: seq![token], index: next, last: ty }
        } else if next + 2 < chars.len() && chars[next + 1] == '-' && class_token_type(
            chars[next + 2],
        ) is Symbol {
            let rest = class_tokens(chars, next + 1);
            ClassTokens {
                tokens: seq![token, spec_token(TokenTypes::Dash, next + 1, next + 2)] + rest.tokens,
                index: rest.index,
                last: rest.last,
            }
        } else if next + 1 < chars.len() && class_token_type(chars[next + 1]) is Symbol {
            let rest = class_tokens(chars, next);
            ClassTokens {
                tokens: seq![token, spec_token(TokenTypes::Union, 0, 0)] + rest.tokens,
                index: rest.index,
                last: rest.last,
            }
        } else {
            let rest = class_tokens(chars, next);
            ClassTokens { tokens: seq![token] + rest.tokens, index: rest.index, last: rest.last }
        }
    }
}

/// The tokens of the pattern from `index` on, without the closing `Eof`.
pub open spec fn pattern_tokens(chars: Seq<char>, index: int) -> Seq<Token>
    decreases chars.len() - index,
{
    if index < 0 || index >= chars.len() {
        Seq::empty()
    } else {
        let ty = token_type(chars[index]);
        let token = spec_token(ty, index, index + 1);
        if ty is OpenBracket {
            let class = class_tokens(chars, index);
            let rest = if index < class.index < chars.len() {
                pattern_tokens(chars, class.index + 1)
            } else {
                Seq::empty()
            };
            seq![token] + class.tokens + implicit_concatenation(chars, class.index, class.last)
                + rest
        } else {
            seq![token] + implicit_concatenation(chars, index, ty) + pattern_tokens(
                chars,
                index + 1,
            )
        }
    }
}

/// The token stream of a pattern: its tokens, then one `Eof` whose span lies
/// one past the pattern's end.
pub open spec fn token_stream(chars: Seq<char>) -> Seq<Token> {
    pattern_tokens(chars, 0).push(
        spec_token(TokenTypes::Eof, chars.len() as int + 1, chars.len() as int + 1),
    )
}

/// Reading a class moves forward, and stops at the closing bracket or one
/// past the end of the pattern.
pub proof fn lemma_class_tokens_bounds(chars: Seq<char>, index: int)
    requires
        0 <= index < chars.len(),
    ensures
        index < class_tokens(chars, index).index <= chars.len(),
        class_tokens(chars, index).last is CloseBracket || class_tokens(chars, index).last is Eof,
        class_tokens(chars, index).last is Eof <==> class_tokens(chars, index).index
            == chars.len(),
        class_tokens(chars, index).tokens.len() > 0,
        class_tokens(chars, index).tokens.last().ty == class_tokens(chars, index).last,
    decreases chars.len() - index,
{
    let next = index + 1;
    if next >= chars.len() {
    } else {
        let ty = class_token_type(chars[next]);
        if ty is CloseBracket {
        } else if next + 2 < chars.len() && chars[next + 1] == '-' && class_token_type(
            chars[next + 2],
        ) is Symbol {
            lemma_class_tokens_bounds(chars, next + 1);
        } else {
            lemma_class_tokens_bounds(chars, next);
        }
    }
}

fn get_token_type(symbol: char) -> (ty: TokenTypes)
    ensures
        ty == token_type(symbol),
{
    match symbol {
        '*' => TokenTypes::ClosureStar,
        '+' => TokenTypes::ClosurePlus,
        '|' => TokenTypes::Union,
        '(' => TokenTypes::OpenParenthesis,
        ')' => TokenTypes::CloseParenthesis,
        '[' => TokenTypes::OpenBracket,
        ']' => TokenTypes::CloseBracket,
        _ => TokenTypes::Symbol(symbol),
    }
}

fn get_token_type_for_character_classs(symbol: char) -> (ty: TokenTypes)
    ensures
        ty == class_token_type(symbol),
{
    match symbol {
        ']' => TokenTypes::CloseBracket,
        _ => TokenTypes::Symbol(symbol),
    }
}

fn is_symbol(ty: TokenTypes) -> (r: bool)
    ensures
        r == (ty is Symbol),
{
    match ty {
        TokenTypes::Symbol(_) => true,
        _ => false,
    }
}

fn pattern_chars(pattern: &str) -> (chars: Vec<char>)
    ensures
        chars@ == pattern@,
{
    let mut chars: Vec<char> = Vec::new();
    for symbol in it: pattern.chars()
        invariant
            chars@ == it.seq().take(it.index()),
    {
        chars.push(symbol);
    }
    chars
}

/// Reads a character class whose opening bracket stands at `index`.
fn handle_character_class(
    tokens: &mut Vec<Token>,
    chars: &Vec<char>,
    index: &mut usize,
    current_token_type: &mut TokenTypes,
)
    requires
        *old(index) < chars.len() < usize::MAX,
        *old(current_token_type) is OpenBracket,
    ensures
        final(tokens)@ == old(tokens)@ + class_tokens(chars@, *old(index) as int).tokens,
        *final(index) == class_tokens(chars@, *old(index) as int).index,
        *final(current_token_type) == class_tokens(chars@, *old(index) as int).last,
{
    let ghost whole = class_tokens(chars@, *index as int);
    let ghost before = tokens@;
    proof {
        lemma_class_tokens_bounds(chars@, *index as int);
    }
    while !matches!(*current_token_type, TokenTypes::CloseBracket | TokenTypes::Eof)
        invariant
            chars.len() < usize::MAX,
            *index <= chars.len(),
            *current_token_type is CloseBracket || *current_token_type is Eof ==> {
                &&& tokens@ == before + whole.tokens
                &&& *index == whole.index
                &&& *current_token_type == whole.last
            },
            !(*current_token_type is CloseBracket || *current_token_type is Eof) ==> {
                &&& *index < chars.len()
                &&& tokens@ + class_tokens(chars@, *index as int).tokens == before
                    + whole.tokens
                &&& class_tokens(chars@, *index as int).index == whole.index
                &&& class_tokens(chars@, *index as int).last == whole.last
            },
        decreases
                chars.len() - *index + (if *current_token_type is CloseBracket
                    || *current_token_type is Eof {
                    0int
                } else {
                    1int
                }),
    {
        let ghost at = *index as int;
        let ghost sofar = tokens@;
        *index += 1;
        if *index < chars.len() {
            let symbol = chars[*index];
            *current_token_type = get_token_type_for_character_classs(symbol);
            tokens.push(Token::new(*current_token_type, *index, *index + 1));
            let mut dash = false;
            if is_symbol(*current_token_type) && *index + 2 < chars.len() {
                let next_token_type = get_token_type_for_character_classs(chars[*index + 1]);
                let next_next_token_type = get_token_type_for_character_classs(
                    chars[*index + 2],
                );
                // A dash is a range operator only between two symbols.
                if matches!(next_token_type, TokenTypes::Symbol('-')) && is_symbol(
                    next_next_token_type,
                ) {
                    dash = true;
                }
            }
            if dash {
                tokens.push(Token::new(TokenTypes::Dash, *index + 1, *index + 2));
                proof {
                    let rest = class_tokens(chars@, at + 2);
                    assert(sofar + (seq![
                        spec_token(*current_token_type, at + 1, at + 2),
                        spec_token(TokenTypes::Dash, at + 2, at + 3),
                    ] + rest.tokens) =~= tokens@ + rest.tokens);
                }
                *index += 1;
            } else if is_symbol(*current_token_type) && *index + 1 < chars.len() && is_symbol(
                get_token_type_for_character_classs(chars[*index + 1]),
            ) {
                // Inside brackets the union is implicit.
                tokens.push(Token::new(TokenTypes::Union, 0, 0));
                proof {
                    let rest = class_tokens(chars@, at + 1);
                    assert(sofar + (seq![
                        spec_token(*current_token_type, at + 1, at + 2),
                        spec_token(TokenTypes::Union, 0, 0),
                    ] + rest.tokens) =~= tokens@ + rest.tokens);
                }
            } else {
                proof {
                    if *current_token_type is CloseBracket {
                        assert(sofar + seq![spec_token(*current_token_type, at + 1, at + 2)]
                            =~= tokens@);
                    } else {
                        let rest = class_tokens(chars@, at + 1);
                        assert(sofar + (seq![spec_token(*current_token_type, at + 1, at + 2)]
                            + rest.tokens) =~= tokens@ + rest.tokens);
                    }
                }
            }
        } else {
            *current_token_type = TokenTypes::Eof;
            tokens.push(Token::new(*current_token_type, *index + 1, *index + 1));
            proof {
                assert(sofar + seq![spec_token(TokenTypes::Eof, at + 2, at + 2)] =~= tokens@);
            }
        }
    }
}

/// A cursor over the token stream of a pattern.
pub struct Lexer {
    tokens: Vec<Token>,
    index: usize,
}

impl Lexer {
    /// The whole token stream.
    pub closed spec fn tokens(&self) -> Seq<Token> {
        self.tokens@
    }

    /// The position of the token that is read next.
    pub closed spec fn index(&self) -> int {
        self.index as int
    }

    /// The stream is not empty and the cursor is not beyond its end.
    pub open spec fn wf(&self) -> bool {
        0 < self.tokens().len() && 0 <= self.index() <= self.tokens().len()
    }

    pub fn new(input: &str) -> (lexer: Self)
        requires
            input@.len() < usize::MAX,
        ensures
            lexer.tokens() == token_stream(input@),
            lexer.index() == 0,
            lexer.wf(),
    {
        Self { tokens: tokenize_regex_str(input), index: 0 }
    }

    /// Get a token and advance the cursor by one. At the end of the stream the
    /// cursor steps back and the last token, the `Eof`, is returned again.
    pub fn next_token(&mut self) -> (token: Token)
        requires
            old(self).wf(),
        ensures
            final(self).wf(),
            final(self).tokens() == old(self).tokens(),
            old(self).index() < old(self).tokens().len() ==> token == old(self).tokens()[old(
                self,
            ).index()] && final(self).index() == old(self).index() + 1,
            old(self).index() == old(self).tokens().len() ==> token == old(self).tokens().last()
                && final(self).index() == old(self).index() - 1,
    {
        if self.index < self.tokens.len() {
            let token = self.tokens[self.index];
            self.index += 1;
            token
        } else {
            self.index -= 1;
            self.tokens[self.index]
        }
    }

    /// Get a token without advancing the cursor.
    pub fn peek_token(&self) -> (token: Option<Token>)
        ensures
            token == (if self.index() < self.tokens().len() {
                Some(self.tokens()[self.index()])
            } else {
                None
            }),
    {
        if self.index < self.tokens.len() {
            Some(self.tokens[self.index])
        } else {
            None
        }
    }
}

/// Splits a pattern into its token stream.
pub fn tokenize_regex_str(regex: &str) -> (tokens: Vec<Token>)
    requires
        regex@.len() < usize::MAX,
    ensures
        tokens@ == token_stream(regex@),
{
    let mut tokens: Vec<Token> = Vec::new();
    let chars = pattern_chars(regex);
    let mut index: usize = 0;

    while index < chars.len()
        invariant
            chars.len() < usize::MAX,
            index <= chars.len() + 1,
            tokens@ + pattern_tokens(chars@, index as int) == pattern_tokens(chars@, 0),
        decreases chars.len() + 1 - index,
    {
        let ghost at = index as int;
        let ghost sofar = tokens@;
        let symbol = chars[index];

        let mut current_token_type = get_token_type(symbol);
        tokens.push(Token::new(current_token_type, index, index + 1));

        if current_token_type == TokenTypes::OpenBracket {
            proof {
                lemma_class_tokens_bounds(chars@, at);
            }
            handle_character_class(&mut tokens, &chars, &mut index, &mut current_token_type);
        }
        let ghost read = tokens@;

        if index < chars.len() - 1 {
            let next_token_type = get_token_type(chars[index + 1]);

            if matches!(
                current_token_type,
                TokenTypes::Symbol(_) | TokenTypes::CloseParenthesis | TokenTypes::CloseBracket
                    | TokenTypes::ClosurePlus | TokenTypes::ClosureStar
            ) && matches!(
                next_token_type,
                TokenTypes::Symbol(_) | TokenTypes::OpenParenthesis | TokenTypes::OpenBracket
            ) {
                // The concatenation is implicit, so it has no position.
                tokens.push(Token::new(TokenTypes::Concatenation, 0, 0));
            }
        }
        proof {
            let glue = implicit_concatenation(chars@, index as int, current_token_type);
            assert(tokens@ =~= read + glue);
            let rest = pattern_tokens(chars@, index + 1);
            if token_type(chars@[at]) is OpenBracket {
                let class = class_tokens(chars@, at);
                assert(sofar + (seq![spec_token(TokenTypes::OpenBracket, at, at + 1)]
                    + class.tokens + glue + rest) =~= tokens@ + rest);
            } else {
                assert(sofar + (seq![spec_token(token_type(chars@[at]), at, at + 1)] + glue
                    + rest) =~= tokens@ + rest);
            }
        }

        index += 1;
    }

    tokens.push(Token::new(TokenTypes::Eof, chars.len() + 1, chars.len() + 1));
    proof {
        assert(pattern_tokens(chars@, index as int) =~= Seq::<Token>::empty());
        assert(tokens@ =~= token_stream(regex@));
    }
    tokens
}

} // verus!
