//! Parentheses group and leave no node: a pair of parentheses that is put
//! around an expression, or around a factor of it, leaves the tree as it
//! was.

use vstd::prelude::*;
use crate::ast::Expression;
use crate::lex::TokenView;
use crate::parse::{
    additive, advances, lemma_parsing_advances, lemma_rest_advances, multiplicative, parse_expression,
    parse_expression_rest, parse_factor, parse_term, parse_term_rest, token_at, Failure,
};

verus! {

/// Whether `token` is no arithmetic operator.
pub open spec fn is_no_operator(token: TokenView) -> bool {
    multiplicative(token) is None && additive(token) is None
}

/// `tokens` with an opening parenthesis put in before position `from` and a
/// closing one before position `to`.
pub open spec fn with_parentheses(tokens: Seq<TokenView>, from: int, to: int) -> Seq<TokenView> {
    tokens.take(from) + seq![TokenView::LParen] + tokens.subrange(from, to) + seq![TokenView::RParen]
        + tokens.skip(to)
}

/// Whether `second` holds, `shift` places further on, the tokens that
/// `first` holds from `lo` up to `hi`.
pub open spec fn holds_shifted(
    first: Seq<TokenView>,
    second: Seq<TokenView>,
    lo: int,
    hi: int,
    shift: int,
) -> bool {
    &&& 0 <= lo <= hi <= first.len()
    &&& 0 <= lo + shift
    &&& hi + shift <= second.len()
    &&& forall|k: int| lo <= k < hi ==> second[k + shift] == #[trigger] first[k]
}

/// The operators and operands behind a term end before a token that is not
/// `*` or `/`.
pub proof fn lemma_term_rest_stops(tokens: Seq<TokenView>, at: int, lhs: Expression)
    ensures
        parse_term_rest(tokens, at, lhs) matches Ok((_, next)) ==> multiplicative(
            token_at(tokens, next),
        ) is None,
    decreases tokens.len() - at,
{
    match multiplicative(token_at(tokens, at)) {
        None => {},
        Some(operator) => match parse_factor(tokens, at + 1) {
            Err(_) => {},
            Ok((rhs, next)) => {
                if advances(tokens, at, next) {
                    lemma_term_rest_stops(
                        tokens,
                        next,
                        Expression::BinaryOp { operator, lhs: Box::new(lhs), rhs: Box::new(rhs) },
                    );
                }
            },
        },
    }
}

/// A term ends before a token that is not `*` or `/`.
pub proof fn lemma_term_stops(tokens: Seq<TokenView>, at: int)
    ensures
        parse_term(tokens, at) matches Ok((_, next)) ==> multiplicative(token_at(tokens, next)) is None,
{
    match parse_factor(tokens, at) {
        Err(_) => {},
        Ok((lhs, next)) => {
            lemma_term_rest_stops(tokens, next, lhs);
        },
    }
}

/// The operators and operands behind an expression end before a token that
/// is no operator.
pub proof fn lemma_expression_rest_stops(tokens: Seq<TokenView>, at: int, lhs: Expression)
    requires
        multiplicative(token_at(tokens, at)) is None,
    ensures
        parse_expression_rest(tokens, at, lhs) matches Ok((_, next)) ==> is_no_operator(
            token_at(tokens, next),
        ),
    decreases tokens.len() - at,
{
    match additive(token_at(tokens, at)) {
        None => {},
        Some(operator) => match parse_term(tokens, at + 1) {
            Err(_) => {},
            Ok((rhs, next)) => {
                if advances(tokens, at, next) {
                    lemma_term_stops(tokens, at + 1);
                    lemma_expression_rest_stops(
                        tokens,
                        next,
                        Expression::BinaryOp { operator, lhs: Box::new(lhs), rhs: Box::new(rhs) },
                    );
                }
            },
        },
    }
}

/// An expression ends before a token that is no operator.
pub proof fn lemma_expression_stops(tokens: Seq<TokenView>, at: int)
    ensures
        parse_expression(tokens, at) matches Ok((_, next)) ==> is_no_operator(token_at(tokens, next)),
{
    match parse_term(tokens, at) {
        Err(_) => {},
        Ok((lhs, next)) => {
            lemma_term_stops(tokens, at);
            lemma_expression_rest_stops(tokens, next, lhs);
        },
    }
}

/// What is parsed depends on the tokens that are read alone: where a second
/// sequence holds the same tokens further on, and goes on with a token that
/// ends the construct as well, the same tree is parsed there.
pub proof fn lemma_parsed_where_shifted(
    first: Seq<TokenView>,
    second: Seq<TokenView>,
    at: int,
    hi: int,
    shift: int,
)
    requires
        holds_shifted(first, second, at, hi, shift),
    ensures
        parse_factor(first, at) matches Ok((tree, next)) ==> next <= hi ==> parse_factor(
            second,
            at + shift,
        ) == Ok::<(Expression, int), Failure>((tree, next + shift)),
        parse_term(first, at) matches Ok((tree, next)) ==> next <= hi && multiplicative(
            token_at(second, next + shift),
        ) is None ==> parse_term(second, at + shift) == Ok::<(Expression, int), Failure>(
            (tree, next + shift),
        ),
        parse_expression(first, at) matches Ok((tree, next)) ==> next <= hi && is_no_operator(
            token_at(second, next + shift),
        ) ==> parse_expression(second, at + shift) == Ok::<(Expression, int), Failure>(
            (tree, next + shift),
        ),
    decreases first.len() - at, 1int,
{
    lemma_parsing_advances(first, at);
    if at < hi {
        match parse_factor(first, at) {
            Ok((tree, next)) => {
                if next <= hi {
                    if first[at] is LParen {
                        lemma_parsing_advances(first, at + 1);
                        lemma_parsed_where_shifted(first, second, at + 1, hi, shift);
                    }
                }
            },
            Err(_) => {},
        }
        match parse_factor(first, at) {
            Ok((lhs, middle)) => {
                lemma_rest_advances(first, middle, lhs);
                match parse_term_rest(first, middle, lhs) {
                    Ok((tree, next)) => {
                        if next <= hi && multiplicative(token_at(second, next + shift)) is None {
                            lemma_rest_where_shifted(first, second, middle, hi, shift, lhs);
                        }
                    },
                    Err(_) => {},
                }
            },
            Err(_) => {},
        }
        match parse_term(first, at) {
            Ok((lhs, middle)) => {
                lemma_rest_advances(first, middle, lhs);
                lemma_term_stops(first, at);
                match parse_expression_rest(first, middle, lhs) {
                    Ok((tree, next)) => {
                        if next <= hi && is_no_operator(token_at(second, next + shift)) {
                            if middle < next {
                                assert(second[middle + shift] == first[middle]);
                            }
                            lemma_rest_where_shifted(first, second, middle, hi, shift, lhs);
                        }
                    },
                    Err(_) => {},
                }
            },
            Err(_) => {},
        }
    }
}

/// The same for the operators and operands behind a term or an expression.
pub proof fn lemma_rest_where_shifted(
    first: Seq<TokenView>,
    second: Seq<TokenView>,
    at: int,
    hi: int,
    shift: int,
    lhs: Expression,
)
    requires
        holds_shifted(first, second, at, hi, shift),
    ensures
        parse_term_rest(first, at, lhs) matches Ok((tree, next)) ==> next <= hi && multiplicative(
            token_at(second, next + shift),
        ) is None ==> parse_term_rest(second, at + shift, lhs) == Ok::<(Expression, int), Failure>(
            (tree, next + shift),
        ),
        parse_expression_rest(first, at, lhs) matches Ok((tree, next)) ==> next <= hi
            && is_no_operator(token_at(second, next + shift)) ==> parse_expression_rest(
            second,
            at + shift,
            lhs,
        ) == Ok::<(Expression, int), Failure>((tree, next + shift)),
    decreases first.len() - at, 0int,
{
    lemma_rest_advances(first, at, lhs);
    match parse_term_rest(first, at, lhs) {
        Ok((tree, next)) => {
            if next <= hi && multiplicative(token_at(second, next + shift)) is None {
                match multiplicative(token_at(first, at)) {
                    None => {},
                    Some(operator) => {
                        lemma_parsing_advances(first, at + 1);
                        let rhs = parse_factor(first, at + 1)->Ok_0.0;
                        let middle = parse_factor(first, at + 1)->Ok_0.1;
                        let joined = Expression::BinaryOp {
                            operator,
                            lhs: Box::new(lhs),
                            rhs: Box::new(rhs),
                        };
                        lemma_rest_advances(first, middle, joined);
                        lemma_parsed_where_shifted(first, second, at + 1, hi, shift);
                        lemma_rest_where_shifted(first, second, middle, hi, shift, joined);
                    },
                }
            }
        },
        Err(_) => {},
    }
    match parse_expression_rest(first, at, lhs) {
        Ok((tree, next)) => {
            if next <= hi && is_no_operator(token_at(second, next + shift)) {
                match additive(token_at(first, at)) {
                    None => {},
                    Some(operator) => {
                        lemma_parsing_advances(first, at + 1);
                        lemma_term_stops(first, at + 1);
                        let rhs = parse_term(first, at + 1)->Ok_0.0;
                        let middle = parse_term(first, at + 1)->Ok_0.1;
                        let joined = Expression::BinaryOp {
                            operator,
                            lhs: Box::new(lhs),
                            rhs: Box::new(rhs),
                        };
                        lemma_rest_advances(first, middle, joined);
                        lemma_parsed_where_shifted(first, second, at + 1, hi, shift);
                        lemma_rest_where_shifted(first, second, middle, hi, shift, joined);
                    },
                }
            }
        },
        Err(_) => {},
    }
}


/// Whether `second` is `first` with the factor that `first` holds from
/// `from` up to `to` written in another way, `grown` tokens longer: before
/// the factor and behind it the tokens are the same, and the factor is the
/// same tree.
pub open spec fn rewrites_factor(
    first: Seq<TokenView>,
    second: Seq<TokenView>,
    from: int,
    to: int,
    grown: int,
) -> bool {
    &&& 0 <= from < to <= first.len()
    &&& 0 <= grown
    &&& second.len() == first.len() + grown
    &&& forall|k: int| 0 <= k < from ==> second[k] == #[trigger] first[k]
    &&& forall|k: int| to <= k < first.len() ==> second[k + grown] == #[trigger] first[k]
    &&& parse_factor(first, from) is Ok
    &&& parse_factor(first, from)->Ok_0.1 == to
    &&& parse_factor(second, from) == Ok::<(Expression, int), Failure>(
        (parse_factor(first, from)->Ok_0.0, to + grown),
    )
}

/// Whether `second` is the result `first` carried over a factor that was
/// rewritten from `from` up to `to`: where `first` is a tree, `second` is the
/// same tree; it ends where `first` ends if that is before the factor, else
/// `grown` tokens further on.
pub open spec fn carried_over(
    first: Result<(Expression, int), Failure>,
    second: Result<(Expression, int), Failure>,
    from: int,
    to: int,
    grown: int,
) -> bool {
    first matches Ok((tree, next)) ==> (next <= from && second == Ok::<(Expression, int), Failure>(
        (tree, next),
    )) || (next >= to && second == Ok::<(Expression, int), Failure>((tree, next + grown)))
}

/// What follows a construct that ends behind a rewritten factor is parsed as
/// before, `grown` tokens further on.
proof fn lemma_rest_behind_factor(
    first: Seq<TokenView>,
    second: Seq<TokenView>,
    from: int,
    to: int,
    grown: int,
    at: int,
    lhs: Expression,
)
    requires
        rewrites_factor(first, second, from, to, grown),
        to <= at <= first.len(),
    ensures
        parse_term_rest(first, at, lhs) matches Ok((tree, next)) ==> parse_term_rest(
            second,
            at + grown,
            lhs,
        ) == Ok::<(Expression, int), Failure>((tree, next + grown)),
        multiplicative(token_at(first, at)) is None ==> (parse_expression_rest(first, at, lhs) matches Ok(
            (tree, next),
        ) ==> parse_expression_rest(second, at + grown, lhs) == Ok::<(Expression, int), Failure>(
            (tree, next + grown),
        )),
{
    let hi = first.len() as int;
    lemma_rest_advances(first, at, lhs);
    lemma_term_rest_stops(first, at, lhs);
    lemma_rest_where_shifted(first, second, at, hi, grown, lhs);
    match parse_term_rest(first, at, lhs) {
        Ok((_, next)) => {
        },
        Err(_) => {},
    }
    if multiplicative(token_at(first, at)) is None {
        lemma_expression_rest_stops(first, at, lhs);
        match parse_expression_rest(first, at, lhs) {
            Ok((_, next)) => {
            },
            Err(_) => {},
        }
    }
}

/// A tree that holds a rewritten factor stays as it is: whatever is parsed
/// from a place before the factor, or at it, is the same tree as before.
pub proof fn lemma_parsed_over_factor(
    first: Seq<TokenView>,
    second: Seq<TokenView>,
    from: int,
    to: int,
    grown: int,
    at: int,
)
    requires
        rewrites_factor(first, second, from, to, grown),
        0 <= at <= from,
    ensures
        carried_over(parse_factor(first, at), parse_factor(second, at), from, to, grown),
        carried_over(parse_term(first, at), parse_term(second, at), from, to, grown),
        carried_over(parse_expression(first, at), parse_expression(second, at), from, to, grown),
    decreases first.len() - at, 1int,
{
    lemma_parsing_advances(first, at);
    lemma_parsing_advances(first, from);
    if at < from {
        if first[at] is LParen {
            lemma_parsed_over_factor(first, second, from, to, grown, at + 1);
            match parse_expression(first, at + 1) {
                Ok((_, close)) => {
                    lemma_parsing_advances(first, at + 1);
                    if close < from {
                        assert(second[close] == first[close]);
                    } else if to <= close < first.len() {
                        assert(second[close + grown] == first[close]);
                    }
                },
                Err(_) => {},
            }
        }
    }
    match parse_factor(first, at) {
        Ok((lhs, middle)) => {
            if middle <= from {
                lemma_rest_over_factor(first, second, from, to, grown, middle, lhs);
            } else {
                lemma_rest_behind_factor(first, second, from, to, grown, middle, lhs);
            }
            lemma_rest_advances(first, middle, lhs);
        },
        Err(_) => {},
    }
    match parse_term(first, at) {
        Ok((lhs, middle)) => {
            lemma_term_stops(first, at);
            if middle <= from {
                lemma_rest_over_factor(first, second, from, to, grown, middle, lhs);
            } else {
                lemma_rest_behind_factor(first, second, from, to, grown, middle, lhs);
            }
            lemma_rest_advances(first, middle, lhs);
        },
        Err(_) => {},
    }
}

/// The same for the operators and operands behind a term or an expression.
pub proof fn lemma_rest_over_factor(
    first: Seq<TokenView>,
    second: Seq<TokenView>,
    from: int,
    to: int,
    grown: int,
    at: int,
    lhs: Expression,
)
    requires
        rewrites_factor(first, second, from, to, grown),
        0 <= at <= from,
    ensures
        carried_over(
            parse_term_rest(first, at, lhs),
            parse_term_rest(second, at, lhs),
            from,
            to,
            grown,
        ),
        carried_over(
            parse_expression_rest(first, at, lhs),
            parse_expression_rest(second, at, lhs),
            from,
            to,
            grown,
        ),
    decreases first.len() - at, 0int,
{
    lemma_parsing_advances(first, from);
    if at < from {
        lemma_parsing_advances(first, at + 1);
        lemma_parsed_over_factor(first, second, from, to, grown, at + 1);
        match multiplicative(token_at(first, at)) {
            None => {},
            Some(operator) => match parse_factor(first, at + 1) {
                Ok((rhs, middle)) => {
                    let joined = Expression::BinaryOp { operator, lhs: Box::new(lhs), rhs: Box::new(rhs) };
                    if middle <= from {
                        lemma_rest_over_factor(first, second, from, to, grown, middle, joined);
                    } else {
                        lemma_rest_behind_factor(first, second, from, to, grown, middle, joined);
                    }
                    lemma_rest_advances(first, middle, joined);
                },
                Err(_) => {},
            },
        }
        match additive(token_at(first, at)) {
            None => {},
            Some(operator) => match parse_term(first, at + 1) {
                Ok((rhs, middle)) => {
                    let joined = Expression::BinaryOp { operator, lhs: Box::new(lhs), rhs: Box::new(rhs) };
                    lemma_term_stops(first, at + 1);
                    if middle <= from {
                        lemma_rest_over_factor(first, second, from, to, grown, middle, joined);
                    } else {
                        lemma_rest_behind_factor(first, second, from, to, grown, middle, joined);
                    }
                    lemma_rest_advances(first, middle, joined);
                },
                Err(_) => {},
            },
        }
    }
}

/// A pair of parentheses around a factor leaves the factor as it was.
pub proof fn lemma_parentheses_around_factor(tokens: Seq<TokenView>, from: int)
    requires
        0 <= from,
        parse_factor(tokens, from) is Ok,
    ensures
        ({
            let tree = parse_factor(tokens, from)->Ok_0.0;
            let to = parse_factor(tokens, from)->Ok_0.1;
            let grouped = with_parentheses(tokens, from, to);
            &&& parse_factor(grouped, from) == Ok::<(Expression, int), Failure>((tree, to + 2))
            &&& rewrites_factor(tokens, grouped, from, to, 2)
        }),
{
    let to = parse_factor(tokens, from)->Ok_0.1;
    let grouped = with_parentheses(tokens, from, to);
    if from <= tokens.len() {
        lemma_parsing_advances(tokens, from);
    }
    assert forall|k: int| from <= k < to implies grouped[k + 1] == #[trigger] tokens[k] by {}
    assert forall|k: int| 0 <= k < from implies grouped[k] == #[trigger] tokens[k] by {}
    assert forall|k: int| to <= k < tokens.len() implies grouped[k + 2] == #[trigger] tokens[k] by {}
    lemma_parsed_where_shifted(tokens, grouped, from, to, 1);
}

/// A pair of parentheses around a whole expression leaves the tree as it
/// was.
pub proof fn lemma_parentheses_around_expression(tokens: Seq<TokenView>, from: int)
    requires
        0 <= from <= tokens.len(),
        parse_expression(tokens, from) is Ok,
    ensures
        ({
            let tree = parse_expression(tokens, from)->Ok_0.0;
            let to = parse_expression(tokens, from)->Ok_0.1;
            parse_expression(with_parentheses(tokens, from, to), from) == Ok::<(Expression, int), Failure>(
                (tree, to + 2),
            )
        }),
{
    let to = parse_expression(tokens, from)->Ok_0.1;
    let grouped = with_parentheses(tokens, from, to);
    lemma_parsing_advances(tokens, from);
    lemma_expression_stops(tokens, from);
    assert forall|k: int| from <= k < to implies grouped[k + 1] == #[trigger] tokens[k] by {}
    lemma_parsed_where_shifted(tokens, grouped, from, to, 1);
}

/// A pair of parentheses around a factor of an expression leaves the tree of
/// the expression as it was: the same tree is parsed, and it ends two tokens
/// further on.
pub proof fn lemma_parentheses_leave_the_tree(tokens: Seq<TokenView>, start: int, from: int)
    requires
        0 <= start <= from,
        parse_factor(tokens, from) is Ok,
        parse_expression(tokens, start) is Ok,
        parse_factor(tokens, from)->Ok_0.1 <= parse_expression(tokens, start)->Ok_0.1,
    ensures
        ({
            let to = parse_factor(tokens, from)->Ok_0.1;
            let tree = parse_expression(tokens, start)->Ok_0.0;
            let end = parse_expression(tokens, start)->Ok_0.1;
            parse_expression(with_parentheses(tokens, from, to), start) == Ok::<(Expression, int), Failure>(
                (tree, end + 2),
            )
        }),
{
    let to = parse_factor(tokens, from)->Ok_0.1;
    lemma_parentheses_around_factor(tokens, from);
    lemma_parsed_over_factor(tokens, with_parentheses(tokens, from, to), from, to, 2, start);
}


/// The operands of `tree` from left to right: its literals and variables.
pub open spec fn leaves(tree: Expression) -> Seq<Expression>
    decreases tree,
{
    match tree {
        Expression::BinaryOp { lhs, rhs, .. } => leaves(*lhs) + leaves(*rhs),
        leaf => seq![leaf],
    }
}

/// The operand that `token` is, if it is one.
pub open spec fn operand_of(token: TokenView) -> Seq<Expression> {
    match token {
        TokenView::Number(value) => seq![Expression::NumberLiteral { value }],
        TokenView::Identifier { index, .. } => seq![Expression::VariableRef { index }],
        _ => Seq::<Expression>::empty(),
    }
}

/// The operands that `tokens` hold from `lo` up to `hi`, in order.
pub open spec fn operands(tokens: Seq<TokenView>, lo: int, hi: int) -> Seq<Expression>
    decreases hi - lo,
{
    if lo >= hi {
        Seq::<Expression>::empty()
    } else {
        operand_of(token_at(tokens, lo)) + operands(tokens, lo + 1, hi)
    }
}

/// The operands of a stretch of tokens are those of its front, then those
/// of its back.
pub proof fn lemma_operands_in_a_row(tokens: Seq<TokenView>, lo: int, middle: int, hi: int)
    requires
        lo <= middle <= hi,
    ensures
        operands(tokens, lo, hi) == operands(tokens, lo, middle) + operands(tokens, middle, hi),
    decreases middle - lo,
{
    if lo < middle {
        lemma_operands_in_a_row(tokens, lo + 1, middle, hi);
    }
}

/// One token holds the operand that it is.
proof fn lemma_operand_alone(tokens: Seq<TokenView>, at: int)
    ensures
        operands(tokens, at, at + 1) == operand_of(token_at(tokens, at)),
{
    reveal_with_fuel(operands, 2);
}

/// The leaves of a tree are the operands of its tokens, in their order:
/// operators and parentheses leave no leaf, and no operand is lost or moved.
pub proof fn lemma_leaves_are_operands(tokens: Seq<TokenView>, at: int)
    requires
        0 <= at <= tokens.len(),
    ensures
        parse_factor(tokens, at) matches Ok((tree, next)) ==> leaves(tree) == operands(tokens, at, next),
        parse_term(tokens, at) matches Ok((tree, next)) ==> leaves(tree) == operands(tokens, at, next),
        parse_expression(tokens, at) matches Ok((tree, next)) ==> leaves(tree) == operands(
            tokens,
            at,
            next,
        ),
    decreases tokens.len() - at, 1int,
{
    lemma_parsing_advances(tokens, at);
    lemma_operand_alone(tokens, at);
    match parse_factor(tokens, at) {
        Ok((tree, next)) => {
            if token_at(tokens, at) is LParen {
                lemma_parsing_advances(tokens, at + 1);
                lemma_leaves_are_operands(tokens, at + 1);
                lemma_operand_alone(tokens, next - 1);
                lemma_operands_in_a_row(tokens, at, at + 1, next);
                lemma_operands_in_a_row(tokens, at + 1, next - 1, next);
            }
            lemma_leaves_behind(tokens, next, tree);
            lemma_rest_advances(tokens, next, tree);
            match parse_term_rest(tokens, next, tree) {
                Ok((_, end)) => {
                    lemma_operands_in_a_row(tokens, at, next, end);
                },
                Err(_) => {},
            }
        },
        Err(_) => {},
    }
    match parse_term(tokens, at) {
        Ok((tree, next)) => {
            lemma_leaves_behind(tokens, next, tree);
            lemma_rest_advances(tokens, next, tree);
            match parse_expression_rest(tokens, next, tree) {
                Ok((_, end)) => {
                    lemma_operands_in_a_row(tokens, at, next, end);
                },
                Err(_) => {},
            }
        },
        Err(_) => {},
    }
}

/// The same for the operators and operands behind a term or an expression:
/// they add their operands behind the leaves that are there.
pub proof fn lemma_leaves_behind(tokens: Seq<TokenView>, at: int, lhs: Expression)
    requires
        0 <= at <= tokens.len(),
    ensures
        parse_term_rest(tokens, at, lhs) matches Ok((tree, next)) ==> leaves(tree) == leaves(lhs)
            + operands(tokens, at, next),
        parse_expression_rest(tokens, at, lhs) matches Ok((tree, next)) ==> leaves(tree) == leaves(
            lhs,
        ) + operands(tokens, at, next),
    decreases tokens.len() - at, 0int,
{
    if at < tokens.len() {
        lemma_parsing_advances(tokens, at + 1);
        lemma_leaves_are_operands(tokens, at + 1);
        lemma_operand_alone(tokens, at);
        match multiplicative(token_at(tokens, at)) {
            None => {},
            Some(operator) => match parse_factor(tokens, at + 1) {
                Ok((rhs, middle)) => {
                    let joined = Expression::BinaryOp { operator, lhs: Box::new(lhs), rhs: Box::new(rhs) };
                    lemma_leaves_behind(tokens, middle, joined);
                    lemma_rest_advances(tokens, middle, joined);
                    match parse_term_rest(tokens, middle, joined) {
                        Ok((tree, next)) => {
                            lemma_operands_in_a_row(tokens, at, at + 1, middle);
                            lemma_operands_in_a_row(tokens, at, middle, next);
                        },
                        Err(_) => {},
                    }
                },
                Err(_) => {},
            },
        }
        match additive(token_at(tokens, at)) {
            None => {},
            Some(operator) => match parse_term(tokens, at + 1) {
                Ok((rhs, middle)) => {
                    let joined = Expression::BinaryOp { operator, lhs: Box::new(lhs), rhs: Box::new(rhs) };
                    lemma_leaves_behind(tokens, middle, joined);
                    lemma_rest_advances(tokens, middle, joined);
                    match parse_expression_rest(tokens, middle, joined) {
                        Ok((tree, next)) => {
                            lemma_operands_in_a_row(tokens, at, at + 1, middle);
                            lemma_operands_in_a_row(tokens, at, middle, next);
                        },
                        Err(_) => {},
                    }
                },
                Err(_) => {},
            },
        }
    }
}

} // verus!
