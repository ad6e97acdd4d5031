use vstd::prelude::*;

use crate::error::{ParsingErr, ParsingErrV};
use crate::lexer::{tokenizeExpression, tokenize_spec, tokens_result};
use crate::types::{exprs_view, tokens_view, BiOperation, ExprV, Expression, Token, TokenV, UnOperation};

verus! {

/// An entry of the operator stack.
#[derive(Debug, Clone, Copy, PartialEq, Eq, Structural)]
pub enum Op {
    Binary(BiOperation),
    Unary(UnOperation),
    LeftBracket,
    RightBracket,
}

/// The precedence rank of an operator: a left bracket binds tightest, then
/// exponentiation, negation, multiplication, addition and subtraction (equal),
/// and a right bracket least.
pub open spec fn prec(op: Op) -> int {
    match op {
        Op::LeftBracket => 5,
        Op::Binary(BiOperation::Exponentiate) => 4,
        Op::Unary(UnOperation::Minus) => 3,
        Op::Binary(BiOperation::Multiply) => 2,
        Op::Binary(BiOperation::Add) => 1,
        Op::Binary(BiOperation::Subtract) => 1,
        Op::RightBracket => 0,
    }
}

/// Exponentiation groups to the right; the other binary operators to the left.
pub open spec fn right_assoc(op: Op) -> bool {
    op == Op::Binary(BiOperation::Exponentiate)
}

/// Whether `top`, on top of the operator stack, is reduced before `incoming` is pushed.
pub open spec fn should_collapse(top: Op, incoming: Op) -> bool {
    prec(top) > prec(incoming) || (prec(top) == prec(incoming) && !right_assoc(incoming))
}

pub open spec fn is_bracket(op: Op) -> bool {
    op == Op::LeftBracket || op == Op::RightBracket
}

/// The operator that the character `c` stands for, where `after_operator`
/// says whether the previous token was an operator (or there was none).
pub open spec fn to_op(after_operator: bool, c: char) -> Result<Op, ParsingErrV> {
    if c == '(' {
        Ok(Op::LeftBracket)
    } else if c == ')' {
        Ok(Op::RightBracket)
    } else if c == '-' {
        if after_operator {
            Ok(Op::Unary(UnOperation::Minus))
        } else {
            Ok(Op::Binary(BiOperation::Subtract))
        }
    } else if c == '+' {
        Ok(Op::Binary(BiOperation::Add))
    } else if c == '*' {
        Ok(Op::Binary(BiOperation::Multiply))
    } else if c == '^' {
        Ok(Op::Binary(BiOperation::Exponentiate))
    } else {
        Err(ParsingErrV::ExpressionParsing)
    }
}

/// Reduction of the top operator: the stacks without it and its operands,
/// and the expression it forms; `None` when the stacks cannot be reduced.
pub open spec fn collapse_spec(ops: Seq<Op>, ands: Seq<ExprV>) -> Option<(Seq<Op>, Seq<ExprV>, ExprV)> {
    if ops.len() == 0 {
        None
    } else {
        match ops.last() {
            Op::Binary(b) => if ands.len() >= 2 {
                Some(
                    (
                        ops.drop_last(),
                        ands.drop_last().drop_last(),
                        ExprV::Binary(
                            b,
                            Box::new(ands[ands.len() - 2]),
                            Box::new(ands[ands.len() - 1]),
                        ),
                    ),
                )
            } else {
                None
            },
            Op::Unary(u) => if ands.len() >= 1 {
                Some((ops.drop_last(), ands.drop_last(), ExprV::Unary(u, Box::new(ands.last()))))
            } else {
                None
            },
            _ => None,
        }
    }
}

/// The stacks after reducing every operator that must go before `incoming`.
pub open spec fn reduce_before(ops: Seq<Op>, ands: Seq<ExprV>, incoming: Op) -> Result<
    (Seq<Op>, Seq<ExprV>),
    ParsingErrV,
>
    decreases ops.len(),
{
    if ops.len() > 0 && should_collapse(ops.last(), incoming) {
        match collapse_spec(ops, ands) {
            Some((_, rest, e)) => reduce_before(ops.drop_last(), rest.push(e), incoming),
            None => Err(ParsingErrV::ExpressionParsing),
        }
    } else {
        Ok((ops, ands))
    }
}

/// The operand stack after reducing every operator left on the stack.
pub open spec fn reduce_all(ops: Seq<Op>, ands: Seq<ExprV>) -> Result<Seq<ExprV>, ParsingErrV>
    decreases ops.len(),
{
    if ops.len() == 0 {
        Ok(ands)
    } else {
        match collapse_spec(ops, ands) {
            Some((_, rest, e)) => reduce_all(ops.drop_last(), rest.push(e)),
            None => Err(ParsingErrV::ExpressionParsing),
        }
    }
}

/// The parser's configuration: the operator stack, the operand stack, and
/// whether the last token was an operator (so that an operand comes next).
pub type ParseConfig = (Seq<Op>, Seq<ExprV>, bool);

/// One token consumed by the parser.
pub open spec fn parse_step(cfg: ParseConfig, tok: TokenV) -> Result<ParseConfig, ParsingErrV> {
    let (ops, ands, after_operator) = cfg;
    match tok {
        TokenV::Number(v) => if after_operator {
            Ok((ops, ands.push(ExprV::Value(v)), false))
        } else {
            Err(ParsingErrV::ExpressionParsing)
        },
        TokenV::Variable(n) => if after_operator {
            Ok((ops, ands.push(ExprV::Variable(n)), false))
        } else {
            Err(ParsingErrV::ExpressionParsing)
        },
        TokenV::Operator(c) => match to_op(after_operator, c) {
            Ok(op) => if is_bracket(op) {
                Err(ParsingErrV::ExpressionParsing)
            } else if after_operator {
                if op is Unary {
                    Ok((ops.push(op), ands, true))
                } else {
                    Err(ParsingErrV::ExpressionParsing)
                }
            } else {
                match reduce_before(ops, ands, op) {
                    Ok((o, a)) => Ok((o.push(op), a, true)),
                    Err(e) => Err(e),
                }
            },
            Err(e) => Err(e),
        },
    }
}

/// The parser's configuration after consuming all of `toks`, or its first failure.
pub open spec fn parse_prefix(toks: Seq<TokenV>) -> Result<ParseConfig, ParsingErrV>
    decreases toks.len(),
{
    if toks.len() == 0 {
        Ok((Seq::empty(), Seq::empty(), true))
    } else {
        match parse_prefix(toks.drop_last()) {
            Ok(cfg) => parse_step(cfg, toks.last()),
            Err(e) => Err(e),
        }
    }
}

/// The expression tree of a token sequence, or the first failure in it.
pub open spec fn parse_tokens(toks: Seq<TokenV>) -> Result<ExprV, ParsingErrV> {
    match parse_prefix(toks) {
        Ok((ops, ands, after_operator)) => if after_operator {
            Err(ParsingErrV::ExpressionParsing)
        } else {
            match reduce_all(ops, ands) {
                Ok(a) => if a.len() == 1 {
                    Ok(a[0])
                } else {
                    Err(ParsingErrV::ExpressionParsing)
                },
                Err(e) => Err(e),
            }
        },
        Err(e) => Err(e),
    }
}

/// The expression tree of an expression text, or the first failure in it.
pub open spec fn parse_expression_spec(s: Seq<char>) -> Result<ExprV, ParsingErrV> {
    match tokenize_spec(s) {
        Ok(toks) => parse_tokens(toks),
        Err(e) => Err(e),
    }
}

pub open spec fn expression_result(r: Result<Expression, ParsingErr>) -> Result<ExprV, ParsingErrV> {
    match r {
        Ok(e) => Ok(e@),
        Err(e) => Err(e@),
    }
}

proof fn lemma_parse_error_persists(toks: Seq<TokenV>, k: int)
    requires
        0 <= k <= toks.len(),
        parse_prefix(toks.take(k)) is Err,
    ensures
        parse_prefix(toks) == parse_prefix(toks.take(k)),
    decreases toks.len() - k,
{
    if k < toks.len() {
        assert(toks.take(k + 1).drop_last() =~= toks.take(k));
        lemma_parse_error_persists(toks, k + 1);
    } else {
        assert(toks.take(k) =~= toks);
    }
}

proof fn lemma_exprs_push(s: Seq<Expression>, e: Expression)
    ensures
        exprs_view(s.push(e)) == exprs_view(s).push(e@),
{
    assert(exprs_view(s.push(e)) =~= exprs_view(s).push(e@));
}

impl Op {
    /// The precedence rank of this operator.
    pub fn precedence(&self) -> (r: u8)
        ensures
            r as int == prec(*self),
    {
        match self {
            Op::LeftBracket => 5,
            Op::Binary(BiOperation::Exponentiate) => 4,
            Op::Unary(UnOperation::Minus) => 3,
            Op::Binary(BiOperation::Multiply) => 2,
            Op::Binary(BiOperation::Add) => 1,
            Op::Binary(BiOperation::Subtract) => 1,
            Op::RightBracket => 0,
        }
    }
}

fn shouldCollapse(stack: &Vec<Op>, op: Op) -> (r: bool)
    ensures
        r == (stack@.len() > 0 && should_collapse(stack@.last(), op)),
{
    if stack.len() == 0 {
        false
    } else {
        let top = stack[stack.len() - 1];
        let a = top.precedence();
        let b = op.precedence();
        a > b || (a == b && op != Op::Binary(BiOperation::Exponentiate))
    }
}

/// The operator that `i` stands for; a `-` right after an operator, or at
/// the start, is a negation.
pub fn toOperation(lastOperation: bool, i: char) -> (r: Result<Op, ParsingErr>)
    ensures
        match to_op(lastOperation, i) {
            Ok(op) => r == Ok::<Op, ParsingErr>(op),
            Err(e) => r matches Err(x) && x@ == e,
        },
{
    match i {
        '(' => Ok(Op::LeftBracket),
        ')' => Ok(Op::RightBracket),
        '-' => Ok(
            if lastOperation {
                Op::Unary(UnOperation::Minus)
            } else {
                Op::Binary(BiOperation::Subtract)
            },
        ),
        '+' => Ok(Op::Binary(BiOperation::Add)),
        '*' => Ok(Op::Binary(BiOperation::Multiply)),
        '^' => Ok(Op::Binary(BiOperation::Exponentiate)),
        _ => Err(ParsingErr::ExpressionParsing),
    }
}

/// Pops the top operator and its operands (the right operand is the top one)
/// and returns the expression they form; fails, changing nothing, when the
/// stacks do not hold them.
pub fn collapseOperation(expressions_stack: &mut Vec<Expression>, op_stack: &mut Vec<Op>) -> (r:
    Result<Expression, ParsingErr>)
    ensures
        r is Ok <==> collapse_spec(old(op_stack)@, exprs_view(old(expressions_stack)@)) is Some,
        r matches Ok(e) ==> collapse_spec(old(op_stack)@, exprs_view(old(expressions_stack)@))
            == Some((final(op_stack)@, exprs_view(final(expressions_stack)@), e@)),
        r matches Err(x) ==> x@ == ParsingErrV::ExpressionParsing && final(op_stack)@ == old(
            op_stack,
        )@ && final(expressions_stack)@ == old(expressions_stack)@,
{
    let n = op_stack.len();
    if n == 0 {
        return Err(ParsingErr::ExpressionParsing);
    }
    let top = op_stack[n - 1];
    let m = expressions_stack.len();
    match top {
        Op::Binary(bi_operation) => {
            if m < 2 {
                return Err(ParsingErr::ExpressionParsing);
            }
            op_stack.pop();
            let rhand = expressions_stack.pop().unwrap();
            let lhand = expressions_stack.pop().unwrap();
            proof {
                let old_v = exprs_view(old(expressions_stack)@);
                assert(exprs_view(expressions_stack@) =~= old_v.drop_last().drop_last());
                assert(op_stack@ =~= old(op_stack)@.drop_last());
            }
            Ok(Expression::Binary(bi_operation, Box::new(lhand), Box::new(rhand)))
        },
        Op::Unary(un_operation) => {
            if m < 1 {
                return Err(ParsingErr::ExpressionParsing);
            }
            op_stack.pop();
            let operand = expressions_stack.pop().unwrap();
            proof {
                let old_v = exprs_view(old(expressions_stack)@);
                assert(exprs_view(expressions_stack@) =~= old_v.drop_last());
                assert(op_stack@ =~= old(op_stack)@.drop_last());
            }
            Ok(Expression::Unary(un_operation, Box::new(operand)))
        },
        _ => Err(ParsingErr::ExpressionParsing),
    }
}

/// Parses an expression text by operator precedence over two stacks:
/// operands and pending operators. Brackets are not part of the grammar.
pub fn parseExpression(input: String) -> (r: Result<Expression, ParsingErr>)
    ensures
        expression_result(r) == parse_expression_spec(input@),
{
    let ghost text = input@;
    let tokens: Vec<Token> = match tokenizeExpression(input) {
        Ok(t) => t,
        Err(e) => return Err(e),
    };
    let ghost toks = tokens_view(tokens@);
    let mut operations_stack: Vec<Op> = Vec::new();
    let mut operands_stack: Vec<Expression> = Vec::new();
    let mut last_token_was_operator = true;
    let mut k: usize = 0;
    proof {
        assert(toks.take(0) =~= Seq::<TokenV>::empty());
        assert(exprs_view(operands_stack@) =~= Seq::<ExprV>::empty());
    }
    while k < tokens.len()
        invariant
            text == input@,
            tokenize_spec(text) == Ok::<Seq<TokenV>, ParsingErrV>(toks),
            toks == tokens_view(tokens@),
            k <= tokens.len(),
            parse_prefix(toks.take(k as int)) == Ok::<ParseConfig, ParsingErrV>(
                (operations_stack@, exprs_view(operands_stack@), last_token_was_operator),
            ),
        decreases tokens.len() - k,
    {
        let ghost cfg: ParseConfig = (
            operations_stack@,
            exprs_view(operands_stack@),
            last_token_was_operator,
        );
        let ghost tok = toks[k as int];
        proof {
            assert(toks.take(k + 1).drop_last() =~= toks.take(k as int));
            assert(toks.take(k + 1).last() == tok);
            assert(tok == tokens@[k as int]@);
            assert(parse_prefix(toks.take(k + 1)) == parse_step(cfg, tok));
        }
        match &tokens[k] {
            Token::Number(num) => {
                if !last_token_was_operator {
                    proof {
                        lemma_parse_error_persists(toks, k + 1);
                    }
                    return Err(ParsingErr::ExpressionParsing);
                }
                proof {
                    lemma_exprs_push(operands_stack@, Expression::Value(*num));
                }
                operands_stack.push(Expression::Value(*num));
                last_token_was_operator = false;
            },
            Token::Variable(var) => {
                if !last_token_was_operator {
                    proof {
                        lemma_parse_error_persists(toks, k + 1);
                    }
                    return Err(ParsingErr::ExpressionParsing);
                }
                let name = var.clone();
                proof {
                    lemma_exprs_push(operands_stack@, Expression::Variable(name));
                }
                operands_stack.push(Expression::Variable(name));
                last_token_was_operator = false;
            },
            Token::Operator(o) => {
                let operation = match toOperation(last_token_was_operator, *o) {
                    Ok(op) => op,
                    Err(e) => {
                        proof {
                            lemma_parse_error_persists(toks, k + 1);
                        }
                        return Err(e);
                    },
                };
                if operation == Op::LeftBracket || operation == Op::RightBracket {
                    proof {
                        lemma_parse_error_persists(toks, k + 1);
                    }
                    return Err(ParsingErr::ExpressionParsing);
                }
                if last_token_was_operator {
                    match operation {
                        Op::Unary(_) => {},
                        _ => {
                            proof {
                                lemma_parse_error_persists(toks, k + 1);
                            }
                            return Err(ParsingErr::ExpressionParsing);
                        },
                    }
                } else {
                    while shouldCollapse(&operations_stack, operation)
                        invariant
                            text == input@,
            tokenize_spec(text) == Ok::<Seq<TokenV>, ParsingErrV>(toks),
                            toks == tokens_view(tokens@),
                            k < tokens.len(),
                            parse_prefix(toks.take(k + 1)) == parse_step(cfg, tok),
                            tok == TokenV::Operator(*o),
                            !cfg.2,
                            to_op(cfg.2, *o) == Ok::<Op, ParsingErrV>(operation),
                            !is_bracket(operation),
                            reduce_before(cfg.0, cfg.1, operation) == reduce_before(
                                operations_stack@,
                                exprs_view(operands_stack@),
                                operation,
                            ),
                        decreases operations_stack@.len(),
                    {
                        match collapseOperation(&mut operands_stack, &mut operations_stack) {
                            Ok(new_op) => {
                                proof {
                                    lemma_exprs_push(operands_stack@, new_op);
                                }
                                operands_stack.push(new_op);
                            },
                            Err(e) => {
                                proof {
                                    lemma_parse_error_persists(toks, k + 1);
                                }
                                return Err(e);
                            },
                        }
                    }
                }
                operations_stack.push(operation);
                last_token_was_operator = true;
            },
        }
        k = k + 1;
    }
    proof {
        assert(toks.take(tokens.len() as int) =~= toks);
    }
    if last_token_was_operator {
        return Err(ParsingErr::ExpressionParsing);
    }
    let ghost ops0 = operations_stack@;
    let ghost ands0 = exprs_view(operands_stack@);
    while operations_stack.len() > 0
        invariant
            text == input@,
            tokenize_spec(text) == Ok::<Seq<TokenV>, ParsingErrV>(toks),
            parse_prefix(toks) == Ok::<ParseConfig, ParsingErrV>((ops0, ands0, false)),
            reduce_all(ops0, ands0) == reduce_all(operations_stack@, exprs_view(operands_stack@)),
        decreases operations_stack@.len(),
    {
        match collapseOperation(&mut operands_stack, &mut operations_stack) {
            Ok(new_op) => {
                proof {
                    lemma_exprs_push(operands_stack@, new_op);
                }
                operands_stack.push(new_op);
            },
            Err(e) => return Err(e),
        }
    }
    if operands_stack.len() == 1 {
        let result = operands_stack.pop().unwrap();
        proof {
            assert(exprs_view(operands_stack@.push(result))[0] == result@);
        }
        Ok(result)
    } else {
        Err(ParsingErr::ExpressionParsing)
    }
}

} // verus!
