//! Patterns put together from patterns: what the tokens and the tree of the
//! whole have from those of the parts.

use crate::lexer::{
    class_token_type, class_tokens, implicit_concatenation, lemma_class_tokens_bounds,
    pattern_tokens, spec_token, starts_operand, token_stream, token_type, Token, TokenTypes,
};
use crate::parser::{
    infix_power, lemma_parse_class_operators_progress, lemma_parse_class_progress,
    lemma_parse_expr_progress, lemma_parse_operators_progress, parse_class,
    parse_class_operators, parse_expr, parse_operators, parse_pattern, postfix_power, type_at,
    BinaryOp, CharacterClassBinaryOp, CharacterClassType, ParseFailure, Parsed, RegexAST,
    UnaryOp,
};
use vstd::prelude::*;

verus! {

/// The types of the tokens.
pub open spec fn types(tokens: Seq<Token>) -> Seq<TokenTypes> {
    Seq::new(tokens.len(), |i: int| tokens[i].ty)
}

/// The types of tokens in a row are the types of the first, then those of
/// the second.
pub proof fn lemma_types_add(first: Seq<Token>, second: Seq<Token>)
    ensures
        types(first + second) == types(first) + types(second),
{
    assert(types(first + second) =~= types(first) + types(second));
}

/// Whether every character class that opens from `index` on is closed.
pub open spec fn closed_from(chars: Seq<char>, index: int) -> bool
    decreases chars.len() - index,
{
    if index < 0 || index >= chars.len() {
        true
    } else if token_type(chars[index]) is OpenBracket {
        let class = class_tokens(chars, index);
        class.last is CloseBracket && (index < class.index < chars.len() ==> closed_from(
            chars,
            class.index + 1,
        ))
    } else {
        closed_from(chars, index + 1)
    }
}

/// Reading a class later in a longer pattern gives tokens of the same types
/// as reading it in the rest of the pattern alone.
pub proof fn lemma_class_tokens_suffix(before: Seq<char>, rest: Seq<char>, index: int)
    requires
        -1 <= index,
    ensures
        types(class_tokens(before + rest, before.len() + index).tokens) == types(
            class_tokens(rest, index).tokens,
        ),
        class_tokens(before + rest, before.len() + index).index == before.len() + class_tokens(
            rest,
            index,
        ).index,
        class_tokens(before + rest, before.len() + index).last == class_tokens(rest, index).last,
    decreases rest.len() - index,
{
    let whole = before + rest;
    let shift = before.len() as int;
    let next = index + 1;
    assert(whole.len() == shift + rest.len());
    let long = class_tokens(whole, shift + index);
    let short = class_tokens(rest, index);
    if next >= rest.len() {
        assert(types(long.tokens) =~= types(short.tokens));
    } else {
        assert(whole[shift + next] == rest[next]);
        let ty = class_token_type(rest[next]);
        if ty is CloseBracket {
            assert(types(long.tokens) =~= types(short.tokens));
        } else {
            if next + 1 < rest.len() {
                assert(whole[shift + next + 1] == rest[next + 1]);
            }
            if next + 2 < rest.len() {
                assert(whole[shift + next + 2] == rest[next + 2]);
            }
            if next + 2 < rest.len() && rest[next + 1] == '-' && class_token_type(
                rest[next + 2],
            ) is Symbol {
                lemma_class_tokens_suffix(before, rest, next + 1);
                let long_rest = class_tokens(whole, shift + next + 1);
                let short_rest = class_tokens(rest, next + 1);
                lemma_types_add(
                    seq![
                        spec_token(ty, shift + next, shift + next + 1),
                        spec_token(TokenTypes::Dash, shift + next + 1, shift + next + 2),
                    ],
                    long_rest.tokens,
                );
                lemma_types_add(
                    seq![
                        spec_token(ty, next, next + 1),
                        spec_token(TokenTypes::Dash, next + 1, next + 2),
                    ],
                    short_rest.tokens,
                );
                assert(types(
                    seq![
                        spec_token(ty, shift + next, shift + next + 1),
                        spec_token(TokenTypes::Dash, shift + next + 1, shift + next + 2),
                    ],
                ) =~= types(
                    seq![
                        spec_token(ty, next, next + 1),
                        spec_token(TokenTypes::Dash, next + 1, next + 2),
                    ],
                ));
            } else if next + 1 < rest.len() && class_token_type(rest[next + 1]) is Symbol {
                lemma_class_tokens_suffix(before, rest, next);
                let long_rest = class_tokens(whole, shift + next);
                let short_rest = class_tokens(rest, next);
                lemma_types_add(
                    seq![
                        spec_token(ty, shift + next, shift + next + 1),
                        spec_token(TokenTypes::Union, 0, 0),
                    ],
                    long_rest.tokens,
                );
                lemma_types_add(
                    seq![spec_token(ty, next, next + 1), spec_token(TokenTypes::Union, 0, 0)],
                    short_rest.tokens,
                );
                assert(types(
                    seq![
                        spec_token(ty, shift + next, shift + next + 1),
                        spec_token(TokenTypes::Union, 0, 0),
                    ],
                ) =~= types(
                    seq![spec_token(ty, next, next + 1), spec_token(TokenTypes::Union, 0, 0)],
                ));
            } else {
                lemma_class_tokens_suffix(before, rest, next);
                let long_rest = class_tokens(whole, shift + next);
                let short_rest = class_tokens(rest, next);
                lemma_types_add(
                    seq![spec_token(ty, shift + next, shift + next + 1)],
                    long_rest.tokens,
                );
                lemma_types_add(seq![spec_token(ty, next, next + 1)], short_rest.tokens);
                assert(types(seq![spec_token(ty, shift + next, shift + next + 1)]) =~= types(
                    seq![spec_token(ty, next, next + 1)],
                ));
            }
        }
    }
}

/// The tokens of a longer pattern from a later place on have the types of
/// the tokens of the rest of the pattern alone.
pub proof fn lemma_pattern_tokens_suffix(before: Seq<char>, rest: Seq<char>, index: int)
    requires
        0 <= index,
    ensures
        types(pattern_tokens(before + rest, before.len() + index)) == types(
            pattern_tokens(rest, index),
        ),
    decreases rest.len() - index,
{
    let whole = before + rest;
    let shift = before.len() as int;
    assert(whole.len() == shift + rest.len());
    if index < rest.len() {
        assert(whole[shift + index] == rest[index]);
        let ty = token_type(rest[index]);
        let long_token = seq![spec_token(ty, shift + index, shift + index + 1)];
        let short_token = seq![spec_token(ty, index, index + 1)];
        assert(types(long_token) =~= types(short_token));
        if ty is OpenBracket {
            lemma_class_tokens_suffix(before, rest, index);
            lemma_class_tokens_bounds(rest, index);
            let long = class_tokens(whole, shift + index);
            let short = class_tokens(rest, index);
            if short.index + 1 < rest.len() {
                assert(whole[shift + short.index + 1] == rest[short.index + 1]);
            }
            let long_glue = implicit_concatenation(whole, long.index, long.last);
            let short_glue = implicit_concatenation(rest, short.index, short.last);
            assert(types(long_glue) =~= types(short_glue));
            let long_rest = if short.index < rest.len() {
                pattern_tokens(whole, long.index + 1)
            } else {
                Seq::empty()
            };
            let short_rest = if short.index < rest.len() {
                pattern_tokens(rest, short.index + 1)
            } else {
                Seq::empty()
            };
            if short.index < rest.len() {
                lemma_pattern_tokens_suffix(before, rest, short.index + 1);
            }
            assert(types(long_rest) =~= types(short_rest));
            lemma_types_add(long_token + long.tokens + long_glue, long_rest);
            lemma_types_add(long_token + long.tokens, long_glue);
            lemma_types_add(long_token, long.tokens);
            lemma_types_add(short_token + short.tokens + short_glue, short_rest);
            lemma_types_add(short_token + short.tokens, short_glue);
            lemma_types_add(short_token, short.tokens);
        } else {
            if index + 1 < rest.len() {
                assert(whole[shift + index + 1] == rest[index + 1]);
            }
            let long_glue = implicit_concatenation(whole, shift + index, ty);
            let short_glue = implicit_concatenation(rest, index, ty);
            assert(types(long_glue) =~= types(short_glue));
            lemma_pattern_tokens_suffix(before, rest, index + 1);
            let long_rest = pattern_tokens(whole, shift + index + 1);
            let short_rest = pattern_tokens(rest, index + 1);
            lemma_types_add(long_token + long_glue, long_rest);
            lemma_types_add(long_token, long_glue);
            lemma_types_add(short_token + short_glue, short_rest);
            lemma_types_add(short_token, short_glue);
        }
    } else {
        assert(types(pattern_tokens(whole, shift + index)) =~= types(pattern_tokens(rest, index)));
    }
}

/// Reading a class that is closed gives the same tokens in a longer
/// pattern.
pub proof fn lemma_class_tokens_prefix(first: Seq<char>, after: Seq<char>, index: int)
    requires
        -1 <= index < first.len(),
        class_tokens(first, index).last is CloseBracket,
    ensures
        class_tokens(first + after, index) == class_tokens(first, index),
    decreases first.len() - index,
{
    let whole = first + after;
    let next = index + 1;
    if next < first.len() {
        assert(whole[next] == first[next]);
        let ty = class_token_type(first[next]);
        if !(ty is CloseBracket) {
            if next + 1 < first.len() {
                assert(whole[next + 1] == first[next + 1]);
            }
            if next + 2 < first.len() {
                assert(whole[next + 2] == first[next + 2]);
            }
            if next + 1 >= first.len() {
                // The class goes on to the end of the pattern and is not closed.
                let rest = class_tokens(first, next);
                assert(rest.last is Eof);
            } else if next + 2 < first.len() && first[next + 1] == '-' && class_token_type(
                first[next + 2],
            ) is Symbol {
                lemma_class_tokens_prefix(first, after, next + 1);
            } else {
                if next + 2 >= first.len() && !(class_token_type(first[next + 1]) is CloseBracket) {
                    let rest = class_tokens(first, next);
                    let end = class_tokens(first, next + 1);
                    assert(end.last is Eof);
                    assert(rest.last is Eof);
                }
                lemma_class_tokens_prefix(first, after, next);
            }
        }
    }
}

/// The tokens of a pattern whose classes are closed stay the same tokens
/// where the pattern goes on with a character that begins no operand.
pub proof fn lemma_pattern_tokens_prefix(first: Seq<char>, after: Seq<char>, index: int)
    requires
        0 <= index <= first.len(),
        closed_from(first, index),
        after.len() > 0,
        !starts_operand(token_type(after[0])),
    ensures
        pattern_tokens(first + after, index) == pattern_tokens(first, index) + pattern_tokens(
            first + after,
            first.len() as int,
        ),
    decreases first.len() - index,
{
    let whole = first + after;
    let end = first.len() as int;
    if index < first.len() {
        assert(whole[index] == first[index]);
        assert(whole[end] == after[0]);
        let ty = token_type(first[index]);
        let token = seq![spec_token(ty, index, index + 1)];
        if ty is OpenBracket {
            lemma_class_tokens_prefix(first, after, index);
            lemma_class_tokens_bounds(first, index);
            let class = class_tokens(first, index);
            assert(class.index < first.len());
            if class.index + 1 < first.len() {
                assert(whole[class.index + 1] == first[class.index + 1]);
            }
            let glue = implicit_concatenation(first, class.index, class.last);
            assert(implicit_concatenation(whole, class.index, class.last) == glue);
            lemma_pattern_tokens_prefix(first, after, class.index + 1);
            assert(pattern_tokens(whole, index) =~= pattern_tokens(first, index) + pattern_tokens(
                whole,
                end,
            ));
        } else {
            if index + 1 < first.len() {
                assert(whole[index + 1] == first[index + 1]);
            }
            let glue = implicit_concatenation(first, index, ty);
            assert(implicit_concatenation(whole, index, ty) == glue);
            lemma_pattern_tokens_prefix(first, after, index + 1);
            assert(pattern_tokens(whole, index) =~= pattern_tokens(first, index) + pattern_tokens(
                whole,
                end,
            ));
        }
    } else {
        assert(pattern_tokens(first, index) =~= Seq::<Token>::empty());
        assert(pattern_tokens(whole, index) =~= pattern_tokens(first, index) + pattern_tokens(
            whole,
            end,
        ));
    }
}

/// Whether a stretch of `whole` from `shift` on has the types of the tokens
/// of `part`, but for a closing parenthesis where `part` ends, and `part`
/// does not end in a union.
pub open spec fn mirrors(part: Seq<Token>, whole: Seq<Token>, shift: int) -> bool {
    &&& 2 <= part.len()
    &&& 0 <= shift
    &&& shift + part.len() <= whole.len()
    &&& part[part.len() - 1].ty is Eof
    &&& whole[shift + part.len() - 1].ty is CloseParenthesis
    &&& !(part[part.len() - 2].ty is Union)
    &&& (forall|k: int|
        0 <= k < part.len() - 1 ==> whole[shift + k].ty == (#[trigger] part[k]).ty)
}

/// Within a stretch of the same types, a class parses to the same tree.
pub proof fn lemma_mirror_class(
    part: Seq<Token>,
    whole: Seq<Token>,
    shift: int,
    index: int,
    min_bp: int,
)
    requires
        mirrors(part, whole, shift),
        0 <= index <= part.len() - 1,
        parse_class(part, index, min_bp).result is Ok,
        parse_class(part, index, min_bp).index < part.len() - 1,
    ensures
        parse_class(whole, shift + index, min_bp).result == parse_class(
            part,
            index,
            min_bp,
        ).result,
        parse_class(whole, shift + index, min_bp).index == shift + parse_class(
            part,
            index,
            min_bp,
        ).index,
    decreases part.len() - index, 1int,
{
    match type_at(part, index) {
        TokenTypes::Symbol(symbol) => {
            assert(whole[shift + index].ty == part[index].ty);
            lemma_mirror_class_operators(
                part,
                whole,
                shift,
                CharacterClassType::Single(symbol),
                index + 1,
                min_bp,
            );
        },
        _ => {},
    }
}

/// Within a stretch of the same types, the operators of a class parse to
/// the same tree.
pub proof fn lemma_mirror_class_operators(
    part: Seq<Token>,
    whole: Seq<Token>,
    shift: int,
    lhs: CharacterClassType,
    index: int,
    min_bp: int,
)
    requires
        mirrors(part, whole, shift),
        0 <= index <= part.len() - 1,
        parse_class_operators(part, lhs, index, min_bp).result is Ok,
        parse_class_operators(part, lhs, index, min_bp).index < part.len() - 1,
    ensures
        parse_class_operators(whole, lhs, shift + index, min_bp).result == parse_class_operators(
            part,
            lhs,
            index,
            min_bp,
        ).result,
        parse_class_operators(whole, lhs, shift + index, min_bp).index == shift
            + parse_class_operators(part, lhs, index, min_bp).index,
    decreases part.len() - index, 0int,
{
    let ty = part[index].ty;
    assert(index < part.len() - 1);
    assert(whole[shift + index].ty == part[index].ty);
    if ty is Union || ty is Dash {
        let (left, right) = infix_power(ty, true)->0;
        if left >= min_bp {
            let rhs = parse_class(part, index + 1, right);
            lemma_parse_class_progress(part, index + 1, right);
            let op = if ty is Union {
                CharacterClassBinaryOp::Union
            } else {
                CharacterClassBinaryOp::Range
            };
            let next = CharacterClassType::Binary(Box::new(lhs), op, Box::new(rhs.result->Ok_0));
            lemma_parse_class_operators_progress(part, next, rhs.index, min_bp);
            lemma_mirror_class(part, whole, shift, index + 1, right);
            lemma_mirror_class_operators(part, whole, shift, next, rhs.index, min_bp);
        }
    }
}

/// Within a stretch of the same types, an expression parses to the same
/// tree.
pub proof fn lemma_mirror_expr(
    part: Seq<Token>,
    whole: Seq<Token>,
    shift: int,
    index: int,
    min_bp: int,
)
    requires
        mirrors(part, whole, shift),
        0 <= index <= part.len() - 2,
        parse_expr(part, index, min_bp).result is Ok,
        parse_expr(part, index, min_bp).index <= part.len() - 1,
    ensures
        parse_expr(whole, shift + index, min_bp).result == parse_expr(part, index, min_bp).result,
        parse_expr(whole, shift + index, min_bp).index == shift + parse_expr(
            part,
            index,
            min_bp,
        ).index,
    decreases part.len() - index, 1int,
{
    assert(whole[shift + index].ty == part[index].ty);
    match part[index].ty {
        TokenTypes::Symbol(symbol) => {
            lemma_mirror_operators(part, whole, shift, RegexAST::Symbol(symbol), index + 1, min_bp);
        },
        TokenTypes::OpenParenthesis => {
            assert(index + 1 < part.len() - 1);
            assert(whole[shift + index + 1].ty == part[index + 1].ty);
            let inner = parse_expr(part, index + 1, 0);
            lemma_parse_expr_progress(part, index + 1, 0);
            assert(inner.index < part.len() - 1);
            lemma_mirror_expr(part, whole, shift, index + 1, 0);
            assert(whole[shift + inner.index].ty == part[inner.index].ty);
            lemma_mirror_operators(
                part,
                whole,
                shift,
                inner.result->Ok_0,
                inner.index + 1,
                min_bp,
            );
        },
        TokenTypes::OpenBracket => {
            let inner = parse_class(part, index + 1, 0);
            lemma_parse_class_progress(part, index + 1, 0);
            assert(inner.index < part.len() - 1);
            lemma_mirror_class(part, whole, shift, index + 1, 0);
            assert(whole[shift + inner.index].ty == part[inner.index].ty);
            lemma_mirror_operators(
                part,
                whole,
                shift,
                RegexAST::CharacterClass(inner.result->Ok_0),
                inner.index + 1,
                min_bp,
            );
        },
        _ => {},
    }
}

/// Within a stretch of the same types, the operators that follow an
/// expression parse to the same tree.
pub proof fn lemma_mirror_operators(
    part: Seq<Token>,
    whole: Seq<Token>,
    shift: int,
    lhs: RegexAST,
    index: int,
    min_bp: int,
)
    requires
        mirrors(part, whole, shift),
        0 <= index <= part.len() - 1,
        parse_operators(part, lhs, index, min_bp).result is Ok,
        parse_operators(part, lhs, index, min_bp).index <= part.len() - 1,
    ensures
        parse_operators(whole, lhs, shift + index, min_bp).result == parse_operators(
            part,
            lhs,
            index,
            min_bp,
        ).result,
        parse_operators(whole, lhs, shift + index, min_bp).index == shift + parse_operators(
            part,
            lhs,
            index,
            min_bp,
        ).index,
    decreases part.len() - index, 0int,
{
    if index < part.len() - 1 {
        let ty = part[index].ty;
        assert(whole[shift + index].ty == part[index].ty);
        if index + 1 < part.len() - 1 {
            assert(whole[shift + index + 1].ty == part[index + 1].ty);
        }
        if ty is ClosureStar || ty is ClosurePlus {
            if postfix_power(ty)->0 >= min_bp {
                let op = if ty is ClosureStar {
                    UnaryOp::ClosureStar
                } else {
                    UnaryOp::ClosurePlus
                };
                lemma_mirror_operators(
                    part,
                    whole,
                    shift,
                    RegexAST::Unary(Box::new(lhs), op),
                    index + 1,
                    min_bp,
                );
            }
        } else if ty is Union || ty is Concatenation {
            let (left, right) = infix_power(ty, false)->0;
            if left >= min_bp {
                if ty is Union && part[index + 1].ty is Eof {
                    lemma_mirror_operators(
                        part,
                        whole,
                        shift,
                        RegexAST::Binary(
                            Box::new(lhs),
                            BinaryOp::Union,
                            Box::new(RegexAST::EmptyString),
                        ),
                        index + 1,
                        min_bp,
                    );
                } else {
                    let rhs = parse_expr(part, index + 1, right);
                    lemma_parse_expr_progress(part, index + 1, right);
                    let op = if ty is Union {
                        BinaryOp::Union
                    } else {
                        BinaryOp::Concatenation
                    };
                    let next = RegexAST::Binary(Box::new(lhs), op, Box::new(rhs.result->Ok_0));
                    lemma_parse_operators_progress(part, next, rhs.index, min_bp);
                    assert(index + 1 <= part.len() - 2);
                    lemma_mirror_expr(part, whole, shift, index + 1, right);
                    lemma_mirror_operators(part, whole, shift, next, rhs.index, min_bp);
                }
            }
        }
    }
}

/// The pattern that matches what either pattern matches: each in
/// parentheses, with a union between them.
pub open spec fn either_pattern(left: Seq<char>, right: Seq<char>) -> Seq<char> {
    seq!['('] + left + seq![')', '|', '('] + right + seq![')']
}

/// The types of the tokens of the pattern for either of two patterns: those
/// of the two, each between parentheses, with a union between them.
pub open spec fn either_types(left: Seq<char>, right: Seq<char>) -> Seq<TokenTypes> {
    seq![TokenTypes::OpenParenthesis] + types(pattern_tokens(left, 0)) + seq![
        TokenTypes::CloseParenthesis,
        TokenTypes::Union,
        TokenTypes::OpenParenthesis,
    ] + types(pattern_tokens(right, 0)) + seq![TokenTypes::CloseParenthesis, TokenTypes::Eof]
}

/// An opening parenthesis before a pattern is one more token before its
/// tokens.
pub proof fn lemma_open_then(rest: Seq<char>)
    ensures
        types(pattern_tokens(seq!['('] + rest, 0)) == seq![TokenTypes::OpenParenthesis] + types(
            pattern_tokens(rest, 0),
        ),
{
    let open = seq!['('];
    let whole = open + rest;
    assert(whole[0] == '(');
    let head = seq![spec_token(TokenTypes::OpenParenthesis, 0, 1)];
    assert(implicit_concatenation(whole, 0, TokenTypes::OpenParenthesis) =~= Seq::<Token>::empty());
    assert(pattern_tokens(whole, 0) =~= head + pattern_tokens(whole, 1));
    lemma_pattern_tokens_suffix(open, rest, 0);
    lemma_types_add(head, pattern_tokens(whole, 1));
    assert(types(head) =~= seq![TokenTypes::OpenParenthesis]);
}

/// The characters between two patterns in parentheses are three more tokens
/// before the tokens of the second.
pub proof fn lemma_between_then(rest: Seq<char>)
    ensures
        types(pattern_tokens(seq![')', '|', '('] + rest, 0)) == seq![
            TokenTypes::CloseParenthesis,
            TokenTypes::Union,
            TokenTypes::OpenParenthesis,
        ] + types(pattern_tokens(rest, 0)),
{
    let middle = seq![')', '|', '('];
    let whole = middle + rest;
    assert(whole[0] == ')');
    assert(whole[1] == '|');
    assert(whole[2] == '(');
    let third = seq![spec_token(TokenTypes::OpenParenthesis, 2, 3)];
    let second = seq![spec_token(TokenTypes::Union, 1, 2)];
    let first = seq![spec_token(TokenTypes::CloseParenthesis, 0, 1)];
    assert(implicit_concatenation(whole, 2, TokenTypes::OpenParenthesis) =~= Seq::<Token>::empty());
    assert(implicit_concatenation(whole, 1, TokenTypes::Union) =~= Seq::<Token>::empty());
    assert(implicit_concatenation(whole, 0, TokenTypes::CloseParenthesis) =~= Seq::<
        Token,
    >::empty());
    let from_two = pattern_tokens(whole, 2);
    let from_one = pattern_tokens(whole, 1);
    assert(from_two =~= third + pattern_tokens(whole, 3));
    assert(from_one =~= second + from_two);
    assert(pattern_tokens(whole, 0) =~= first + from_one);
    lemma_pattern_tokens_suffix(middle, rest, 0);
    lemma_types_add(third, pattern_tokens(whole, 3));
    lemma_types_add(second, from_two);
    lemma_types_add(first, from_one);
    assert(types(first) + (types(second) + (types(third) + types(pattern_tokens(rest, 0))))
        =~= seq![
        TokenTypes::CloseParenthesis,
        TokenTypes::Union,
        TokenTypes::OpenParenthesis,
    ] + types(pattern_tokens(rest, 0)));
}

/// A closing parenthesis alone is one token.
pub proof fn lemma_close_alone()
    ensures
        types(pattern_tokens(seq![')'], 0)) == seq![TokenTypes::CloseParenthesis],
{
    let close = seq![')'];
    assert(close[0] == ')');
    assert(pattern_tokens(close, 1) =~= Seq::<Token>::empty());
    assert(implicit_concatenation(close, 0, TokenTypes::CloseParenthesis) =~= Seq::<
        Token,
    >::empty());
    assert(pattern_tokens(close, 0) =~= seq![spec_token(TokenTypes::CloseParenthesis, 0, 1)]);
    assert(types(pattern_tokens(close, 0)) =~= seq![TokenTypes::CloseParenthesis]);
}

/// The tokens of a pattern whose classes are closed, then those of what
/// follows, where that begins with a character which begins no operand.
pub proof fn lemma_closed_then(first: Seq<char>, after: Seq<char>)
    requires
        closed_from(first, 0),
        after.len() > 0,
        !starts_operand(token_type(after[0])),
    ensures
        types(pattern_tokens(first + after, 0)) == types(pattern_tokens(first, 0)) + types(
            pattern_tokens(after, 0),
        ),
{
    lemma_pattern_tokens_prefix(first, after, 0);
    lemma_pattern_tokens_suffix(first, after, 0);
    lemma_types_add(pattern_tokens(first, 0), pattern_tokens(first + after, first.len() as int));
}

/// The tokens of the pattern for either of two patterns whose classes are
/// closed have the types of the tokens of the two, each between
/// parentheses, with a union between them.
pub proof fn lemma_either_tokens(left: Seq<char>, right: Seq<char>)
    requires
        closed_from(left, 0),
        closed_from(right, 0),
    ensures
        types(token_stream(either_pattern(left, right))) == either_types(left, right),
{
    let close = seq![')'];
    let third = right + close;
    let second = seq![')', '|', '('] + third;
    let first = left + second;
    let whole = seq!['('] + first;
    assert(whole =~= either_pattern(left, right));
    assert(second[0] == ')');
    assert(close[0] == ')');
    lemma_open_then(first);
    lemma_closed_then(left, second);
    lemma_between_then(third);
    lemma_closed_then(right, close);
    lemma_close_alone();
    let body = pattern_tokens(whole, 0);
    assert(types(token_stream(whole)) =~= types(body).push(TokenTypes::Eof));
    assert(types(body).push(TokenTypes::Eof) =~= either_types(left, right));
}

/// Whether a pattern can stand between parentheses as it is: its classes
/// are closed, it has a tree, parsing reads it to its end, and it neither
/// is empty nor ends in a union.
pub open spec fn joinable(pattern: Seq<char>) -> bool {
    let tokens = token_stream(pattern);
    &&& closed_from(pattern, 0)
    &&& pattern.len() > 0
    &&& parse_pattern(pattern) is Ok
    &&& parse_expr(tokens, 0, 0).index == tokens.len() - 1
    &&& !(tokens[tokens.len() - 2].ty is Union)
}

/// A pattern between parentheses parses to the tree of the pattern, and
/// parsing goes on after the closing parenthesis.
pub proof fn lemma_group_tree(
    pattern: Seq<char>,
    whole: Seq<Token>,
    shift: int,
    min_bp: int,
)
    requires
        joinable(pattern),
        1 <= shift,
        shift + token_stream(pattern).len() <= whole.len(),
        whole[shift - 1].ty is OpenParenthesis,
        whole[shift + token_stream(pattern).len() - 1].ty is CloseParenthesis,
        forall|k: int|
            0 <= k < pattern_tokens(pattern, 0).len() ==> whole[shift + k].ty
                == (#[trigger] pattern_tokens(pattern, 0)[k]).ty,
    ensures
        parse_expr(whole, shift - 1, min_bp) == parse_operators(
            whole,
            parse_pattern(pattern)->Ok_0,
            shift + token_stream(pattern).len(),
            min_bp,
        ),
{
    let part = token_stream(pattern);
    let body = pattern_tokens(pattern, 0);
    assert(body.len() > 0 && !(body[0].ty is Eof)) by {
        reveal_with_fuel(pattern_tokens, 1);
    }
    assert(mirrors(part, whole, shift)) by {
        assert forall|k: int| 0 <= k < part.len() - 1 implies whole[shift + k].ty == (
        #[trigger] part[k]).ty by {
            assert(part[k] == body[k]);
        }
    }
    lemma_mirror_expr(part, whole, shift, 0, 0);
    assert(part[0] == body[0]);
    assert(whole[shift + 0].ty == body[0].ty);
    let inner = parse_expr(whole, shift, 0);
    assert(inner.result is Ok);
    assert(inner.index == shift + part.len() - 1);
}

/// After the last token before the end, only the tree so far is left.
pub proof fn lemma_operators_at_end(whole: Seq<Token>, lhs: RegexAST, index: int, min_bp: int)
    requires
        0 <= index < whole.len(),
        whole[index].ty is Eof,
    ensures
        parse_operators(whole, lhs, index, min_bp) == (Parsed {
            result: Ok::<RegexAST, ParseFailure>(lhs),
            index,
        }),
{
}

/// A union between two groups parses to the union of their trees.
pub proof fn lemma_union_of_groups(
    whole: Seq<Token>,
    lhs: RegexAST,
    rhs: RegexAST,
    index: int,
    end: int,
)
    requires
        0 <= index,
        index + 1 < end < whole.len(),
        whole[index].ty is Union,
        whole[index + 1].ty is OpenParenthesis,
        whole[end].ty is Eof,
        parse_expr(whole, index + 1, 2) == (Parsed {
            result: Ok::<RegexAST, ParseFailure>(rhs),
            index: end,
        }),
    ensures
        parse_operators(whole, lhs, index, 0).result == Ok::<RegexAST, ParseFailure>(
            RegexAST::Binary(Box::new(lhs), BinaryOp::Union, Box::new(rhs)),
        ),
{
    let both = RegexAST::Binary(Box::new(lhs), BinaryOp::Union, Box::new(rhs));
    lemma_operators_at_end(whole, both, end, 0);
    assert(infix_power(TokenTypes::Union, false) == Some((1int, 2int)));
}

/// The pattern for either of two patterns parses into the union of their
/// trees.
pub proof fn law_either_pattern_tree(left: Seq<char>, right: Seq<char>)
    requires
        joinable(left),
        joinable(right),
    ensures
        parse_pattern(either_pattern(left, right)) == Ok::<RegexAST, ParseFailure>(
            RegexAST::Binary(
                Box::new(parse_pattern(left)->Ok_0),
                BinaryOp::Union,
                Box::new(parse_pattern(right)->Ok_0),
            ),
        ),
{
    let whole = token_stream(either_pattern(left, right));
    let kinds = either_types(left, right);
    let body_left = pattern_tokens(left, 0);
    let body_right = pattern_tokens(right, 0);
    let m1 = body_left.len() as int;
    let m2 = body_right.len() as int;
    lemma_either_tokens(left, right);
    lemma_either_kinds(left, right);
    assert(whole.len() == kinds.len());
    assert forall|k: int| 0 <= k < whole.len() implies (#[trigger] whole[k]).ty == kinds[k] by {
        assert(types(whole)[k] == whole[k].ty);
    }
    let tree_left = parse_pattern(left)->Ok_0;
    let tree_right = parse_pattern(right)->Ok_0;
    assert forall|k: int| 0 <= k < m1 implies whole[1 + k].ty == (#[trigger] body_left[k]).ty by {
        assert(types(body_left)[k] == body_left[k].ty);
    }
    assert forall|k: int| 0 <= k < m2 implies whole[4 + m1 + k].ty == (
    #[trigger] body_right[k]).ty by {
        assert(types(body_right)[k] == body_right[k].ty);
    }
    lemma_group_tree(left, whole, 1, 0);
    lemma_group_tree(right, whole, 4 + m1, 2);
    lemma_operators_at_end(whole, tree_right, 5 + m1 + m2, 2);
    lemma_union_of_groups(whole, tree_left, tree_right, 2 + m1, 5 + m1 + m2);
}

/// The places of the tokens in the pattern for either of two patterns.
pub proof fn lemma_either_kinds(left: Seq<char>, right: Seq<char>)
    ensures
        ({
            let kinds = either_types(left, right);
            let first = types(pattern_tokens(left, 0));
            let second = types(pattern_tokens(right, 0));
            let m1 = first.len() as int;
            let m2 = second.len() as int;
            &&& kinds.len() == m1 + m2 + 6
            &&& kinds[0] == TokenTypes::OpenParenthesis
            &&& kinds[1 + m1] == TokenTypes::CloseParenthesis
            &&& kinds[2 + m1] == TokenTypes::Union
            &&& kinds[3 + m1] == TokenTypes::OpenParenthesis
            &&& kinds[4 + m1 + m2] == TokenTypes::CloseParenthesis
            &&& kinds[5 + m1 + m2] == TokenTypes::Eof
            &&& (forall|k: int| 0 <= k < m1 ==> kinds[1 + k] == #[trigger] first[k])
            &&& (forall|k: int| 0 <= k < m2 ==> kinds[4 + m1 + k] == #[trigger] second[k])
        }),
{
}

/// The character of a closure operator.
pub open spec fn closure_char(op: UnaryOp) -> char {
    match op {
        UnaryOp::ClosurePlus => '+',
        UnaryOp::ClosureStar => '*',
    }
}

/// The token type of a closure operator.
pub open spec fn closure_type(op: UnaryOp) -> TokenTypes {
    match op {
        UnaryOp::ClosurePlus => TokenTypes::ClosurePlus,
        UnaryOp::ClosureStar => TokenTypes::ClosureStar,
    }
}

/// The pattern for a pattern repeated: the pattern in parentheses, then the
/// closure operator.
pub open spec fn closure_pattern(pattern: Seq<char>, op: UnaryOp) -> Seq<char> {
    seq!['('] + pattern + seq![')', closure_char(op)]
}

/// A closing parenthesis and a closure operator are two tokens.
pub proof fn lemma_close_then_closure(op: UnaryOp)
    ensures
        types(pattern_tokens(seq![')', closure_char(op)], 0)) == seq![
            TokenTypes::CloseParenthesis,
            closure_type(op),
        ],
{
    let end = seq![')', closure_char(op)];
    assert(end[0] == ')');
    assert(end[1] == closure_char(op));
    assert(pattern_tokens(end, 2) =~= Seq::<Token>::empty());
    assert(implicit_concatenation(end, 1, closure_type(op)) =~= Seq::<Token>::empty());
    assert(implicit_concatenation(end, 0, TokenTypes::CloseParenthesis) =~= Seq::<Token>::empty());
    let last = pattern_tokens(end, 1);
    assert(last =~= seq![spec_token(closure_type(op), 1, 2)]);
    assert(pattern_tokens(end, 0) =~= seq![spec_token(TokenTypes::CloseParenthesis, 0, 1)] + last);
    assert(types(pattern_tokens(end, 0)) =~= seq![TokenTypes::CloseParenthesis, closure_type(op)]);
}

/// The tokens of the pattern for a pattern repeated have the types of the
/// tokens of the pattern between parentheses, then the closure operator.
pub proof fn lemma_closure_tokens(pattern: Seq<char>, op: UnaryOp)
    requires
        closed_from(pattern, 0),
    ensures
        types(token_stream(closure_pattern(pattern, op))) == seq![TokenTypes::OpenParenthesis]
            + types(pattern_tokens(pattern, 0)) + seq![
            TokenTypes::CloseParenthesis,
            closure_type(op),
            TokenTypes::Eof,
        ],
{
    let end = seq![')', closure_char(op)];
    let rest = pattern + end;
    let whole = seq!['('] + rest;
    assert(whole =~= closure_pattern(pattern, op));
    assert(end[0] == ')');
    lemma_open_then(rest);
    lemma_closed_then(pattern, end);
    lemma_close_then_closure(op);
    let body = pattern_tokens(whole, 0);
    assert(types(token_stream(whole)) =~= types(body).push(TokenTypes::Eof));
    assert(types(body).push(TokenTypes::Eof) =~= seq![TokenTypes::OpenParenthesis] + types(
        pattern_tokens(pattern, 0),
    ) + seq![TokenTypes::CloseParenthesis, closure_type(op), TokenTypes::Eof]);
}

/// A closure operator before the end makes the closure of the tree so far.
pub proof fn lemma_closure_at_end(whole: Seq<Token>, lhs: RegexAST, op: UnaryOp, index: int)
    requires
        0 <= index,
        index + 1 < whole.len(),
        whole[index].ty == closure_type(op),
        whole[index + 1].ty is Eof,
    ensures
        parse_operators(whole, lhs, index, 0).result == Ok::<RegexAST, ParseFailure>(
            RegexAST::Unary(Box::new(lhs), op),
        ),
{
    lemma_operators_at_end(whole, RegexAST::Unary(Box::new(lhs), op), index + 1, 0);
}

/// The pattern for a pattern repeated parses into the closure of its tree.
pub proof fn law_closure_pattern_tree(pattern: Seq<char>, op: UnaryOp)
    requires
        joinable(pattern),
    ensures
        parse_pattern(closure_pattern(pattern, op)) == Ok::<RegexAST, ParseFailure>(
            RegexAST::Unary(Box::new(parse_pattern(pattern)->Ok_0), op),
        ),
{
    let whole = token_stream(closure_pattern(pattern, op));
    let body = pattern_tokens(pattern, 0);
    let m = body.len() as int;
    let kinds = seq![TokenTypes::OpenParenthesis] + types(body) + seq![
        TokenTypes::CloseParenthesis,
        closure_type(op),
        TokenTypes::Eof,
    ];
    lemma_closure_tokens(pattern, op);
    assert(whole.len() == kinds.len());
    assert forall|k: int| 0 <= k < whole.len() implies (#[trigger] whole[k]).ty == kinds[k] by {
        assert(types(whole)[k] == whole[k].ty);
    }
    assert(kinds[0] == TokenTypes::OpenParenthesis);
    assert(kinds[1 + m] == TokenTypes::CloseParenthesis);
    assert(kinds[2 + m] == closure_type(op));
    assert(kinds[3 + m] == TokenTypes::Eof);
    assert forall|k: int| 0 <= k < m implies whole[1 + k].ty == (#[trigger] body[k]).ty by {
        assert(kinds[1 + k] == types(body)[k]);
    }
    lemma_group_tree(pattern, whole, 1, 0);
    lemma_closure_at_end(whole, parse_pattern(pattern)->Ok_0, op, 2 + m);
}

} // verus!
