use vstd::prelude::*;

use crate::engine::{create_spec, read_spec};
use crate::error::{ParsingErrV, RunErr};
use crate::expr::{
    collapse_spec, parse_expression_spec, parse_prefix, prec, reduce_all, reduce_before,
    should_collapse, to_op, Op, ParseConfig,
};
use crate::interpreter::{run_spec, step_spec};
use crate::lexer::tokenize_spec;
use crate::parser::{doc_prefix, parse_doc, DocConfig};
use crate::types::{BiOperation, CommandV, ContentV, ExprV, TokenV};

verus! {

/// How many times `c` occurs in `s`.
pub open spec fn count_char(s: Seq<char>, c: char) -> nat
    decreases s.len(),
{
    if s.len() == 0 {
        0
    } else {
        count_char(s.drop_last(), c) + if s.last() == c {
            1nat
        } else {
            0nat
        }
    }
}

/// While segmenting, the reader is inside a command region exactly when it
/// has passed an odd number of sentinels.
proof fn lemma_inside_region_iff_odd(s: Seq<char>)
    requires
        doc_prefix(s) is Ok,
    ensures
        doc_prefix(s)->Ok_0.1 == (count_char(s, '$') % 2 == 1),
    decreases s.len(),
{
    if s.len() > 0 {
        lemma_inside_region_iff_odd(s.drop_last());
    }
}

/// A document that parses holds an even number of sentinels; a document with
/// an odd number whose closed command regions all parse fails with
/// `CommandLeftOpen`.
pub proof fn lemma_sentinel_parity(s: Seq<char>)
    ensures
        parse_doc(s) is Ok ==> count_char(s, '$') % 2 == 0,
        doc_prefix(s) is Ok && count_char(s, '$') % 2 == 1 ==> parse_doc(s) == Err::<
            Seq<ContentV>,
            ParsingErrV,
        >(ParsingErrV::CommandLeftOpen),
{
    if doc_prefix(s) is Ok {
        lemma_inside_region_iff_odd(s);
    }
}

/// Creating a name twice fails the second time, whatever the first call did;
/// on a name the store does not hold, `set`, `add` and `subtract` fail with
/// the nonexistent-variable error for a modification, and a read with the one
/// for a read.
pub proof fn lemma_store_existence(m: Map<Seq<char>, i32>, n: Seq<char>, v1: i32, v2: i32)
    ensures
        create_spec(create_spec(m, n, v1).0, n, v2).1 == Err::<(), RunErr>(
            RunErr::TriedToInitializeExistingVariable,
        ),
        !m.contains_key(n) ==> read_spec(m, n) == Err::<i32, RunErr>(
            RunErr::TriedToGetNonexistentVariable,
        ),
        !m.contains_key(n) ==> step_spec(m, ContentV::Command(CommandV::Assign(n, v1))) == Err::<
            (Map<Seq<char>, i32>, Seq<char>),
            RunErr,
        >(RunErr::TriedToModifyNonexistentVariable),
        !m.contains_key(n) ==> step_spec(m, ContentV::Command(CommandV::Add(n, v1))) == Err::<
            (Map<Seq<char>, i32>, Seq<char>),
            RunErr,
        >(RunErr::TriedToModifyNonexistentVariable),
        !m.contains_key(n) ==> step_spec(m, ContentV::Command(CommandV::Subtract(n, v1))) == Err::<
            (Map<Seq<char>, i32>, Seq<char>),
            RunErr,
        >(RunErr::TriedToModifyNonexistentVariable),
{
    assert(create_spec(m, n, v1).0.contains_key(n));
}

/// Without sentinels the segmenter only accumulates text.
proof fn lemma_no_sentinel_prefix(s: Seq<char>)
    requires
        forall|i: int| 0 <= i < s.len() ==> s[i] != '$',
    ensures
        doc_prefix(s) == Ok::<DocConfig, ParsingErrV>((Seq::empty(), false, s)),
    decreases s.len(),
{
    if s.len() > 0 {
        let p = s.drop_last();
        assert forall|i: int| 0 <= i < p.len() implies p[i] != '$' by {
            assert(p[i] == s[i]);
        }
        lemma_no_sentinel_prefix(p);
        assert(s[s.len() - 1] != '$');
        assert(p.push(s.last()) =~= s);
    } else {
        assert(s =~= Seq::<char>::empty());
    }
}

/// A non-empty document without sentinels parses to one text item equal to
/// it, and running that item outputs the document unchanged and leaves the
/// store as it was.
pub proof fn lemma_plain_text_round_trip(s: Seq<char>, m: Map<Seq<char>, i32>)
    requires
        s.len() > 0,
        forall|i: int| 0 <= i < s.len() ==> s[i] != '$',
    ensures
        parse_doc(s) == Ok::<Seq<ContentV>, ParsingErrV>(seq![ContentV::Text(s)]),
        run_spec(m, seq![ContentV::Text(s)]) == (m, Ok::<Seq<char>, RunErr>(s)),
{
    lemma_no_sentinel_prefix(s);
    assert(Seq::<ContentV>::empty().push(ContentV::Text(s)) =~= seq![ContentV::Text(s)]);
    let cs = seq![ContentV::Text(s)];
    assert(cs.drop_last() =~= Seq::<ContentV>::empty());
    assert(run_spec(m, cs.drop_last()) == (m, Ok::<Seq<char>, RunErr>(Seq::empty())));
    assert(step_spec(m, cs.last()) == Ok::<(Map<Seq<char>, i32>, Seq<char>), RunErr>((m, s)));
    assert(Seq::<char>::empty() + s =~= s);
}

/// The character that writes a binary operator.
pub open spec fn op_char(b: BiOperation) -> char {
    match b {
        BiOperation::Add => '+',
        BiOperation::Subtract => '-',
        BiOperation::Multiply => '*',
        BiOperation::Exponentiate => '^',
    }
}

/// An expression written out as tokens, left to right, without brackets.
pub open spec fn tokens_of(e: ExprV) -> Seq<TokenV>
    decreases e,
{
    match e {
        ExprV::Value(v) => seq![TokenV::Number(v)],
        ExprV::Variable(n) => seq![TokenV::Variable(n)],
        ExprV::Unary(_, x) => seq![TokenV::Operator('-')] + tokens_of(*x),
        ExprV::Binary(b, l, r) => tokens_of(*l) + seq![TokenV::Operator(op_char(b))] + tokens_of(*r),
    }
}

/// How tightly the root of an expression binds: an operand binds tightest.
pub open spec fn level(e: ExprV) -> int {
    match e {
        ExprV::Value(_) => 5,
        ExprV::Variable(_) => 5,
        ExprV::Unary(u, _) => prec(Op::Unary(u)),
        ExprV::Binary(b, _, _) => prec(Op::Binary(b)),
    }
}

/// The least level that the left operand of `b` has: `+`, `-` and `*` group
/// to the left, and `^` takes a plain operand on its left.
pub open spec fn left_req(b: BiOperation) -> int {
    match b {
        BiOperation::Add => 1,
        BiOperation::Subtract => 1,
        BiOperation::Multiply => 2,
        BiOperation::Exponentiate => 5,
    }
}

/// The least level of what follows an operator: the right operand of a
/// binary one (`^` groups to the right), or the operand of a negation.
pub open spec fn req_after(op: Op) -> int {
    match op {
        Op::Binary(BiOperation::Add) => 2,
        Op::Binary(BiOperation::Subtract) => 2,
        Op::Binary(BiOperation::Multiply) => 3,
        Op::Binary(BiOperation::Exponentiate) => 3,
        Op::Unary(_) => 3,
        _ => 6,
    }
}

/// Every node's operands bind at least as tightly as precedence and
/// associativity ask: the grouping that precedence gives to a token sequence.
pub open spec fn well_grouped(e: ExprV) -> bool
    decreases e,
{
    match e {
        ExprV::Value(_) => true,
        ExprV::Variable(_) => true,
        ExprV::Unary(u, x) => level(*x) >= req_after(Op::Unary(u)) && well_grouped(*x),
        ExprV::Binary(b, l, r) => level(*l) >= left_req(b) && level(*r) >= req_after(Op::Binary(b))
            && well_grouped(*l) && well_grouped(*r),
    }
}

/// The tokens that a parser configuration stands for, left to right.
spec fn render(ops: Seq<Op>, ands: Seq<ExprV>, after_operator: bool) -> Seq<TokenV>
    decreases ops.len(), if after_operator {
        0int
    } else {
        1int
    },
{
    if !after_operator {
        render(ops, ands.drop_last(), true) + tokens_of(ands.last())
    } else if ops.len() == 0 {
        Seq::empty()
    } else {
        match ops.last() {
            Op::Binary(b) => render(ops.drop_last(), ands, false) + seq![TokenV::Operator(op_char(b))],
            _ => render(ops.drop_last(), ands, true) + seq![TokenV::Operator('-')],
        }
    }
}

/// A parser configuration whose operands are well grouped and will stay so
/// as the pending operators are reduced.
spec fn good(ops: Seq<Op>, ands: Seq<ExprV>, after_operator: bool) -> bool
    decreases ops.len(), if after_operator {
        0int
    } else {
        1int
    },
{
    if !after_operator {
        &&& ands.len() >= 1
        &&& good(ops, ands.drop_last(), true)
        &&& well_grouped(ands.last())
        &&& (ops.len() > 0 ==> level(ands.last()) >= req_after(ops.last()))
    } else if ops.len() == 0 {
        ands.len() == 0
    } else {
        match ops.last() {
            Op::Binary(b) => {
                &&& good(ops.drop_last(), ands, false)
                &&& level(ands.last()) >= left_req(b)
                &&& (ops.len() >= 2 ==> prec(Op::Binary(b)) >= req_after(ops[ops.len() - 2]))
            },
            Op::Unary(u) => {
                &&& good(ops.drop_last(), ands, true)
                &&& (ops.len() >= 2 ==> prec(Op::Unary(u)) >= req_after(ops[ops.len() - 2]))
            },
            _ => false,
        }
    }
}

proof fn lemma_collapse_keeps(ops: Seq<Op>, ands: Seq<ExprV>)
    requires
        good(ops, ands, false),
        collapse_spec(ops, ands) is Some,
    ensures
        ({
            let (o2, a2, n) = collapse_spec(ops, ands)->Some_0;
            &&& o2 == ops.drop_last()
            &&& good(o2, a2.push(n), false)
            &&& render(o2, a2.push(n), false) == render(ops, ands, false)
            &&& level(n) == prec(ops.last())
        }),
{
    let (o2, a2, n) = collapse_spec(ops, ands)->Some_0;
    let top = ops.last();
    let o = ops.drop_last();
    assert(a2.push(n).drop_last() =~= a2);
    if let Op::Binary(b) = top {
        let r = ands.last();
        let al = ands.drop_last();
        let l = al.last();
        assert(a2 =~= al.drop_last());
        assert(good(ops, al, true));
        assert(good(o, al, false));
        assert(al.drop_last() =~= a2);
        assert(good(o, a2, true));
        assert(o.len() > 0 ==> o.last() == ops[ops.len() - 2]);
        assert(well_grouped(n));
        assert(good(o, a2.push(n), false));
        assert(tokens_of(n) == tokens_of(l) + seq![TokenV::Operator(op_char(b))] + tokens_of(r));
        assert(render(ops, ands, false) == render(ops, al, true) + tokens_of(r));
        assert(render(ops, al, true) == render(o, al, false) + seq![TokenV::Operator(op_char(b))]);
        assert(render(o, al, false) == render(o, a2, true) + tokens_of(l));
        assert(render(o, a2.push(n), false) =~= render(o, a2, true) + tokens_of(l) + seq![
            TokenV::Operator(op_char(b)),
        ] + tokens_of(r));
    } else {
        let x = ands.last();
        assert(a2 =~= ands.drop_last());
        assert(good(ops, a2, true));
        assert(good(o, a2, true));
        assert(o.len() > 0 ==> o.last() == ops[ops.len() - 2]);
        assert(well_grouped(n));
        assert(good(o, a2.push(n), false));
        assert(render(ops, ands, false) == render(ops, a2, true) + tokens_of(x));
        assert(render(ops, a2, true) == render(o, a2, true) + seq![TokenV::Operator('-')]);
        assert(render(o, a2.push(n), false) =~= render(o, a2, true) + seq![TokenV::Operator('-')]
            + tokens_of(x));
    }
}

proof fn lemma_reduce_before_keeps(ops: Seq<Op>, ands: Seq<ExprV>, b: BiOperation)
    requires
        good(ops, ands, false),
        level(ands.last()) >= left_req(b),
        reduce_before(ops, ands, Op::Binary(b)) is Ok,
    ensures
        ({
            let (o2, a2) = reduce_before(ops, ands, Op::Binary(b))->Ok_0;
            &&& good(o2, a2, false)
            &&& render(o2, a2, false) == render(ops, ands, false)
            &&& level(a2.last()) >= left_req(b)
            &&& (o2.len() > 0 ==> !should_collapse(o2.last(), Op::Binary(b)))
        }),
    decreases ops.len(),
{
    if ops.len() > 0 && should_collapse(ops.last(), Op::Binary(b)) {
        lemma_collapse_keeps(ops, ands);
        let (o2, a2, n) = collapse_spec(ops, ands)->Some_0;
        assert(a2.push(n).last() == n);
        lemma_reduce_before_keeps(o2, a2.push(n), b);
    }
}

proof fn lemma_reduce_all_keeps(ops: Seq<Op>, ands: Seq<ExprV>)
    requires
        good(ops, ands, false),
        reduce_all(ops, ands) is Ok,
    ensures
        ({
            let a = reduce_all(ops, ands)->Ok_0;
            &&& a.len() == 1
            &&& well_grouped(a[0])
            &&& tokens_of(a[0]) == render(ops, ands, false)
        }),
    decreases ops.len(),
{
    if ops.len() > 0 {
        lemma_collapse_keeps(ops, ands);
        let (o2, a2, n) = collapse_spec(ops, ands)->Some_0;
        lemma_reduce_all_keeps(o2, a2.push(n));
    } else {
        assert(good(ops, ands.drop_last(), true));
        assert(ands.drop_last().len() == 0);
        assert(ands.len() == 1);
        assert(render(ops, ands.drop_last(), true) == Seq::<TokenV>::empty());
        assert(render(ops, ands, false) =~= Seq::<TokenV>::empty() + tokens_of(ands[0]));
    }
}

proof fn lemma_prefix_good(toks: Seq<TokenV>)
    requires
        parse_prefix(toks) is Ok,
    ensures
        ({
            let (ops, ands, after_operator) = parse_prefix(toks)->Ok_0;
            &&& good(ops, ands, after_operator)
            &&& render(ops, ands, after_operator) == toks
            &&& (!after_operator ==> level(ands.last()) == 5)
        }),
    decreases toks.len(),
{
    if toks.len() == 0 {
        assert(render(Seq::empty(), Seq::empty(), true) =~= toks);
    } else {
        let p = toks.drop_last();
        let t = toks.last();
        lemma_prefix_good(p);
        let cfg: ParseConfig = parse_prefix(p)->Ok_0;
        let (ops, ands, after_operator) = cfg;
        assert(p.push(t) =~= toks);
        match t {
            TokenV::Number(v) => {
                let e = ExprV::Value(v);
                assert(ands.push(e).drop_last() =~= ands);
                assert(tokens_of(e) =~= seq![t]);
            },
            TokenV::Variable(n) => {
                let e = ExprV::Variable(n);
                assert(ands.push(e).drop_last() =~= ands);
                assert(tokens_of(e) =~= seq![t]);
            },
            TokenV::Operator(c) => {
                let op = to_op(after_operator, c)->Ok_0;
                if after_operator {
                    assert(ops.push(op).drop_last() =~= ops);
                } else {
                    if let Op::Binary(b) = op {
                        lemma_reduce_before_keeps(ops, ands, b);
                        let (o2, a2) = reduce_before(ops, ands, op)->Ok_0;
                        assert(o2.push(op).drop_last() =~= o2);
                        assert(o2.len() > 0 ==> o2.push(op)[o2.len() - 1] == o2.last());
                    }
                }
            },
        }
    }
}

/// Whenever an expression text parses, the tree reads back, left to right,
/// as the text's tokens, and it groups them as precedence and associativity
/// ask: `^` before negation, before `*`, before `+` and `-`; `+`, `-` and
/// `*` to the left, `^` to the right.
pub proof fn lemma_parse_respects_precedence(s: Seq<char>)
    requires
        parse_expression_spec(s) is Ok,
    ensures
        tokenize_spec(s) is Ok,
        tokens_of(parse_expression_spec(s)->Ok_0) == tokenize_spec(s)->Ok_0,
        well_grouped(parse_expression_spec(s)->Ok_0),
{
    let toks = tokenize_spec(s)->Ok_0;
    lemma_prefix_good(toks);
    let (ops, ands, after_operator) = parse_prefix(toks)->Ok_0;
    lemma_reduce_all_keeps(ops, ands);
}

pub open spec fn is_operand_token(t: TokenV) -> bool {
    t is Number || t is Variable
}

/// Position `i` of `t` holds `c` as a binary operator: right after an operand.
pub open spec fn binary_at(t: Seq<TokenV>, i: int, c: char) -> bool {
    &&& 0 < i < t.len()
    &&& t[i] == TokenV::Operator(c)
    &&& is_operand_token(t[i - 1])
}

pub open spec fn no_binary(t: Seq<TokenV>, c: char) -> bool {
    forall|i: int| !#[trigger] binary_at(t, i, c)
}

proof fn lemma_binary_in_concat(a: Seq<TokenV>, m: TokenV, b: Seq<TokenV>, i: int, c: char)
    requires
        m is Operator,
    ensures
        0 <= i < a.len() ==> binary_at(a + seq![m] + b, i, c) == binary_at(a, i, c),
        i == a.len() + 1 ==> !binary_at(a + seq![m] + b, i, c),
        i > a.len() + 1 ==> binary_at(a + seq![m] + b, i, c) == binary_at(b, i - a.len() - 1, c),
{
    let t = a + seq![m] + b;
    if 0 < i < a.len() {
        assert(t[i] == a[i] && t[i - 1] == a[i - 1]);
    }
    if i == a.len() + 1 && i < t.len() {
        assert(t[i - 1] == m);
    }
    if i > a.len() + 1 && i < t.len() {
        assert(t[i] == b[i - a.len() - 1] && t[i - 1] == b[i - a.len() - 2]);
    }
}

/// The shape of the tokens of a well-grouped tree at each level.
proof fn lemma_token_shape(e: ExprV)
    requires
        well_grouped(e),
    ensures
        tokens_of(e).len() >= 1,
        is_operand_token(tokens_of(e).last()),
        level(e) == 5 ==> tokens_of(e).len() == 1,
        level(e) == 3 ==> tokens_of(e)[0] == TokenV::Operator('-'),
        level(e) >= 4 ==> is_operand_token(tokens_of(e)[0]),
        e is Binary ==> tokens_of(e).len() >= 3,
        e is Unary ==> tokens_of(e).len() >= 2,
    decreases e,
{
    match e {
        ExprV::Unary(_, x) => {
            lemma_token_shape(*x);
        },
        ExprV::Binary(b, l, r) => {
            lemma_token_shape(*l);
            lemma_token_shape(*r);
        },
        _ => {},
    }
}

/// Binary `+` and `-` occur only under nodes of the lowest level, and binary
/// `*` only under nodes of the two lowest levels.
proof fn lemma_low_operators(e: ExprV)
    requires
        well_grouped(e),
    ensures
        level(e) >= 2 ==> no_binary(tokens_of(e), '+') && no_binary(tokens_of(e), '-'),
        level(e) >= 3 ==> no_binary(tokens_of(e), '*'),
    decreases e,
{
    let t = tokens_of(e);
    match e {
        ExprV::Unary(_, x) => {
            lemma_low_operators(*x);
            let tx = tokens_of(*x);
            assert forall|i: int, c: char| c == '+' || c == '-' || c == '*' implies !#[trigger] binary_at(
                t,
                i,
                c,
            ) by {
                if 1 < i < t.len() {
                    assert(t[i] == tx[i - 1] && t[i - 1] == tx[i - 2]);
                    assert(!binary_at(tx, i - 1, c));
                }
                if i == 1 && t.len() > 1 {
                    assert(t[0] == TokenV::Operator('-'));
                }
            }
        },
        ExprV::Binary(b, l, r) => {
            lemma_low_operators(*l);
            lemma_low_operators(*r);
            let tl = tokens_of(*l);
            let tr = tokens_of(*r);
            let m = TokenV::Operator(op_char(b));
            assert(t == tl + seq![m] + tr);
            assert forall|i: int, c: char|
                (c == '+' || c == '-') && level(e) >= 2 || c == '*' && level(e) >= 3 implies !#[trigger] binary_at(
                t,
                i,
                c,
            ) by {
                lemma_binary_in_concat(tl, m, tr, i, c);
                if i == tl.len() {
                    assert(t[i] == m);
                }
            }
        },
        _ => {},
    }
}

/// Where the root operator of a binary node stands among its tokens, and
/// that no operator binding as loosely stands to its right.
proof fn lemma_root_position(b: BiOperation, l: ExprV, r: ExprV)
    requires
        well_grouped(ExprV::Binary(b, Box::new(l), Box::new(r))),
    ensures
        binary_at(
            tokens_of(ExprV::Binary(b, Box::new(l), Box::new(r))),
            tokens_of(l).len() as int,
            op_char(b),
        ),
        tokens_of(ExprV::Binary(b, Box::new(l), Box::new(r))).take(tokens_of(l).len() as int)
            == tokens_of(l),
        tokens_of(ExprV::Binary(b, Box::new(l), Box::new(r))).skip(tokens_of(l).len() as int + 1)
            == tokens_of(r),
        prec(Op::Binary(b)) == 1 ==> forall|j: int|
            j > tokens_of(l).len() ==> !#[trigger] binary_at(
                tokens_of(ExprV::Binary(b, Box::new(l), Box::new(r))),
                j,
                '+',
            ),
        prec(Op::Binary(b)) == 1 ==> forall|j: int|
            j > tokens_of(l).len() ==> !#[trigger] binary_at(
                tokens_of(ExprV::Binary(b, Box::new(l), Box::new(r))),
                j,
                '-',
            ),
        prec(Op::Binary(b)) == 2 ==> forall|j: int|
            j > tokens_of(l).len() ==> !#[trigger] binary_at(
                tokens_of(ExprV::Binary(b, Box::new(l), Box::new(r))),
                j,
                '*',
            ),
{
    let e = ExprV::Binary(b, Box::new(l), Box::new(r));
    let tl = tokens_of(l);
    let tr = tokens_of(r);
    let m = TokenV::Operator(op_char(b));
    let t = tokens_of(e);
    let p = tl.len() as int;
    assert(t == tl + seq![m] + tr);
    lemma_token_shape(l);
    lemma_low_operators(r);
    assert(t[p] == m && t[p - 1] == tl.last());
    assert(t.take(p) =~= tl);
    assert(t.skip(p + 1) =~= tr);
    if prec(Op::Binary(b)) == 1 {
        assert forall|j: int| j > p implies !#[trigger] binary_at(t, j, '+') by {
            lemma_binary_in_concat(tl, m, tr, j, '+');
            if j > p + 1 {
                assert(!binary_at(tr, j - p - 1, '+'));
            }
        }
        assert forall|j: int| j > p implies !#[trigger] binary_at(t, j, '-') by {
            lemma_binary_in_concat(tl, m, tr, j, '-');
            if j > p + 1 {
                assert(!binary_at(tr, j - p - 1, '-'));
            }
        }
    }
    if prec(Op::Binary(b)) == 2 {
        assert forall|j: int| j > p implies !#[trigger] binary_at(t, j, '*') by {
            lemma_binary_in_concat(tl, m, tr, j, '*');
            if j > p + 1 {
                assert(!binary_at(tr, j - p - 1, '*'));
            }
        }
    }
}

/// A well-grouped tree is determined by its tokens.
proof fn lemma_grouping_unique(e1: ExprV, e2: ExprV)
    requires
        well_grouped(e1),
        well_grouped(e2),
        tokens_of(e1) == tokens_of(e2),
    ensures
        e1 == e2,
    decreases e1,
{
    let t = tokens_of(e1);
    lemma_token_shape(e1);
    lemma_token_shape(e2);
    lemma_low_operators(e1);
    lemma_low_operators(e2);
    if e1 is Binary && e2 is Binary {
        let (b1, l1, r1) = (e1->Binary_0, *e1->Binary_1, *e1->Binary_2);
        let (b2, l2, r2) = (e2->Binary_0, *e2->Binary_1, *e2->Binary_2);
        assert(e1 == ExprV::Binary(b1, Box::new(l1), Box::new(r1)));
        assert(e2 == ExprV::Binary(b2, Box::new(l2), Box::new(r2)));
        lemma_root_position(b1, l1, r1);
        lemma_root_position(b2, l2, r2);
        let pos1 = tokens_of(l1).len() as int;
        let pos2 = tokens_of(l2).len() as int;
        let (c1, c2) = (op_char(b1), op_char(b2));
        assert(binary_at(t, pos1, c1) && binary_at(t, pos2, c2));
        let low1 = prec(Op::Binary(b1)) == 1;
        let low2 = prec(Op::Binary(b2)) == 1;
        let mid1 = prec(Op::Binary(b1)) == 2;
        let mid2 = prec(Op::Binary(b2)) == 2;
        assert(low1 ==> binary_at(t, pos1, '+') || binary_at(t, pos1, '-'));
        assert(low2 ==> binary_at(t, pos2, '+') || binary_at(t, pos2, '-'));
        assert(mid1 ==> binary_at(t, pos1, '*'));
        assert(mid2 ==> binary_at(t, pos2, '*'));
        assert(low1 == low2);
        assert(!low1 ==> mid1 == mid2);
        if low1 {
            if pos1 < pos2 {
                assert(tokens_of(ExprV::Binary(b1, Box::new(l1), Box::new(r1))) == t);
                assert(pos2 > tokens_of(l1).len());
                assert(!binary_at(t, pos2, '+'));
                assert(!binary_at(t, pos2, '-'));
            }
            if pos2 < pos1 {
                assert(tokens_of(ExprV::Binary(b2, Box::new(l2), Box::new(r2))) == t);
                assert(pos1 > tokens_of(l2).len());
                assert(!binary_at(t, pos1, '+'));
                assert(!binary_at(t, pos1, '-'));
            }
        } else if mid1 {
            assert(!(pos1 < pos2));
            assert(!(pos2 < pos1));
        } else {
            lemma_token_shape(l1);
            lemma_token_shape(l2);
        }
        assert(pos1 == pos2);
        assert(op_char(b1) == op_char(b2));
        assert(b1 == b2);
        lemma_grouping_unique(l1, l2);
        lemma_grouping_unique(r1, r2);
    } else if e1 is Unary && e2 is Unary {
        let x1 = *e1->Unary_1;
        let x2 = *e2->Unary_1;
        assert(tokens_of(x1) =~= t.drop_first());
        assert(tokens_of(x2) =~= t.drop_first());
        lemma_grouping_unique(x1, x2);
    } else if e1 is Binary || e2 is Binary {
        let eb = if e1 is Binary {
            e1
        } else {
            e2
        };
        let eo = if e1 is Binary {
            e2
        } else {
            e1
        };
        let b = eb->Binary_0;
        assert(eb == ExprV::Binary(b, Box::new(*eb->Binary_1), Box::new(*eb->Binary_2)));
        lemma_root_position(b, *eb->Binary_1, *eb->Binary_2);
        let p = tokens_of(*eb->Binary_1).len() as int;
        assert(binary_at(t, p, op_char(b)));
        if eo is Unary {
            assert(level(eo) == 3);
            assert(!binary_at(t, p, op_char(b)) || b == BiOperation::Exponentiate);
            lemma_token_shape(*eb->Binary_1);
            lemma_token_shape(eb);
            assert(is_operand_token(t[0]));
        } else {
            assert(t.len() == 1);
        }
    } else if e1 is Unary || e2 is Unary {
        assert(t.len() == 1);
    }
}

/// The tree that a successful parse returns is the only well-grouped tree
/// that reads back as the text's tokens.
proof fn lemma_parse_is_the_grouping(s: Seq<char>, e: ExprV)
    requires
        parse_expression_spec(s) is Ok,
        tokenize_spec(s) is Ok,
        well_grouped(e),
        tokens_of(e) == tokenize_spec(s)->Ok_0,
    ensures
        e == parse_expression_spec(s)->Ok_0,
{
    lemma_parse_respects_precedence(s);
    lemma_grouping_unique(e, parse_expression_spec(s)->Ok_0);
}

/// An operand-operator alternation check: `Some(true)` while an operand is
/// due (where only `-` may come, as a negation), `Some(false)` after one, and
/// `None` once the order is broken.
spec fn alternation_step(st: Option<bool>, t: TokenV) -> Option<bool> {
    match st {
        Some(operand_due) => match t {
            TokenV::Operator(c) => if operand_due {
                if c == '-' {
                    Some(true)
                } else {
                    None
                }
            } else if c == '+' || c == '-' || c == '*' || c == '^' {
                Some(true)
            } else {
                None
            },
            _ => if operand_due {
                Some(false)
            } else {
                None
            },
        },
        None => None,
    }
}

spec fn alternation(st: Option<bool>, toks: Seq<TokenV>) -> Option<bool>
    decreases toks.len(),
{
    if toks.len() == 0 {
        st
    } else {
        alternation_step(alternation(st, toks.drop_last()), toks.last())
    }
}

proof fn lemma_alternation_concat(st: Option<bool>, a: Seq<TokenV>, b: Seq<TokenV>)
    ensures
        alternation(st, a + b) == alternation(alternation(st, a), b),
    decreases b.len(),
{
    if b.len() == 0 {
        assert(a + b =~= a);
    } else {
        assert((a + b).drop_last() =~= a + b.drop_last());
        lemma_alternation_concat(st, a, b.drop_last());
    }
}

/// The tokens of any tree alternate properly.
proof fn lemma_tokens_alternate(e: ExprV)
    ensures
        alternation(Some(true), tokens_of(e)) == Some(false),
    decreases e,
{
    match e {
        ExprV::Unary(_, x) => {
            lemma_tokens_alternate(*x);
            let m = seq![TokenV::Operator('-')];
            assert(alternation(Some(true), m) == Some(true)) by {
                assert(m.drop_last() =~= Seq::<TokenV>::empty());
                assert(alternation(Some(true), m.drop_last()) == Some(true));
                assert(m.last() == TokenV::Operator('-'));
            }
            lemma_alternation_concat(Some(true), m, tokens_of(*x));
            assert(tokens_of(e) == m + tokens_of(*x));
        },
        ExprV::Binary(b, l, r) => {
            lemma_tokens_alternate(*l);
            lemma_tokens_alternate(*r);
            let tl = tokens_of(*l);
            let m = seq![TokenV::Operator(op_char(b))];
            assert(alternation(Some(false), m) == Some(true)) by {
                assert(m.drop_last() =~= Seq::<TokenV>::empty());
                assert(alternation(Some(false), m.drop_last()) == Some(false));
                assert(m.last() == TokenV::Operator(op_char(b)));
            }
            lemma_alternation_concat(Some(true), tl, m);
            lemma_alternation_concat(Some(true), tl + m, tokens_of(*r));
            assert(tokens_of(e) == tl + m + tokens_of(*r));
        },
        _ => {
            let t = tokens_of(e);
            assert(t.drop_last() =~= Seq::<TokenV>::empty());
            assert(alternation(Some(true), t.drop_last()) == Some(true));
            assert(!(t.last() is Operator));
        },
    }
}

proof fn lemma_collapse_possible(ops: Seq<Op>, ands: Seq<ExprV>)
    requires
        good(ops, ands, false),
        ops.len() > 0,
    ensures
        collapse_spec(ops, ands) is Some,
{
    assert(good(ops, ands.drop_last(), true));
    if ops.last() is Binary {
        assert(good(ops.drop_last(), ands.drop_last(), false));
    }
}

proof fn lemma_reduce_before_ok(ops: Seq<Op>, ands: Seq<ExprV>, b: BiOperation)
    requires
        good(ops, ands, false),
    ensures
        reduce_before(ops, ands, Op::Binary(b)) is Ok,
    decreases ops.len(),
{
    if ops.len() > 0 && should_collapse(ops.last(), Op::Binary(b)) {
        lemma_collapse_possible(ops, ands);
        lemma_collapse_keeps(ops, ands);
        let (o2, a2, n) = collapse_spec(ops, ands)->Some_0;
        lemma_reduce_before_ok(o2, a2.push(n), b);
    }
}

proof fn lemma_reduce_all_ok(ops: Seq<Op>, ands: Seq<ExprV>)
    requires
        good(ops, ands, false),
    ensures
        reduce_all(ops, ands) is Ok,
    decreases ops.len(),
{
    if ops.len() > 0 {
        lemma_collapse_possible(ops, ands);
        lemma_collapse_keeps(ops, ands);
        let (o2, a2, n) = collapse_spec(ops, ands)->Some_0;
        lemma_reduce_all_ok(o2, a2.push(n));
    }
}

/// The parser gets through every properly alternating token sequence, and
/// expects an operand exactly when the alternation does.
proof fn lemma_alternation_parses(toks: Seq<TokenV>)
    requires
        alternation(Some(true), toks) is Some,
    ensures
        parse_prefix(toks) is Ok,
        parse_prefix(toks)->Ok_0.2 == alternation(Some(true), toks)->Some_0,
    decreases toks.len(),
{
    if toks.len() > 0 {
        let p = toks.drop_last();
        let t = toks.last();
        assert(alternation(Some(true), p) is Some);
        lemma_alternation_parses(p);
        lemma_prefix_good(p);
        let (ops, ands, after_operator) = parse_prefix(p)->Ok_0;
        if let TokenV::Operator(c) = t {
            if !after_operator {
                let op = to_op(after_operator, c)->Ok_0;
                if let Op::Binary(b) = op {
                    lemma_reduce_before_ok(ops, ands, b);
                }
            }
        }
    }
}

/// Every failure of the parser on a token sequence is `ExpressionParsing`.
proof fn lemma_parse_prefix_error(toks: Seq<TokenV>)
    requires
        parse_prefix(toks) is Err,
    ensures
        parse_prefix(toks) == Err::<ParseConfig, ParsingErrV>(ParsingErrV::ExpressionParsing),
    decreases toks.len(),
{
    let p = toks.drop_last();
    if parse_prefix(p) is Err {
        lemma_parse_prefix_error(p);
    } else {
        let (ops, ands, after_operator) = parse_prefix(p)->Ok_0;
        if let TokenV::Operator(c) = toks.last() {
            if let Ok(Op::Binary(b)) = to_op(after_operator, c) {
                lemma_reduce_before_error(ops, ands, Op::Binary(b));
            }
        }
    }
}

proof fn lemma_reduce_before_error(ops: Seq<Op>, ands: Seq<ExprV>, op: Op)
    ensures
        reduce_before(ops, ands, op) is Err ==> reduce_before(ops, ands, op) == Err::<
            (Seq<Op>, Seq<ExprV>),
            ParsingErrV,
        >(ParsingErrV::ExpressionParsing),
    decreases ops.len(),
{
    if ops.len() > 0 && should_collapse(ops.last(), op) {
        if let Some((_, rest, e)) = collapse_spec(ops, ands) {
            lemma_reduce_before_error(ops.drop_last(), rest.push(e), op);
        }
    }
}

proof fn lemma_reduce_all_error(ops: Seq<Op>, ands: Seq<ExprV>)
    ensures
        reduce_all(ops, ands) is Err ==> reduce_all(ops, ands) == Err::<Seq<ExprV>, ParsingErrV>(
            ParsingErrV::ExpressionParsing,
        ),
    decreases ops.len(),
{
    if ops.len() > 0 {
        if let Some((_, rest, e)) = collapse_spec(ops, ands) {
            lemma_reduce_all_error(ops.drop_last(), rest.push(e));
        }
    }
}

/// What parsing an expression text gives, stated without the parser: the
/// tokenizer's error if it fails; otherwise the one well-grouped tree that
/// reads back as the tokens, or `ExpressionParsing` when there is none.
pub proof fn lemma_parse_characterized(s: Seq<char>, e: ExprV)
    ensures
        tokenize_spec(s) is Err ==> parse_expression_spec(s) == Err::<ExprV, ParsingErrV>(
            tokenize_spec(s)->Err_0,
        ),
        tokenize_spec(s) is Ok && well_grouped(e) && tokens_of(e) == tokenize_spec(s)->Ok_0
            ==> parse_expression_spec(s) == Ok::<ExprV, ParsingErrV>(e),
        tokenize_spec(s) is Ok && parse_expression_spec(s) is Err ==> parse_expression_spec(s)
            == Err::<ExprV, ParsingErrV>(ParsingErrV::ExpressionParsing),
{
    if tokenize_spec(s) is Ok {
        let toks = tokenize_spec(s)->Ok_0;
        if well_grouped(e) && tokens_of(e) == toks {
            lemma_tokens_alternate(e);
            lemma_alternation_parses(toks);
            lemma_prefix_good(toks);
            let (ops, ands, after_operator) = parse_prefix(toks)->Ok_0;
            lemma_reduce_all_ok(ops, ands);
            lemma_reduce_all_keeps(ops, ands);
            lemma_parse_is_the_grouping(s, e);
        }
        if parse_prefix(toks) is Err {
            lemma_parse_prefix_error(toks);
        } else {
            let (ops, ands, after_operator) = parse_prefix(toks)->Ok_0;
            lemma_reduce_all_error(ops, ands);
        }
    }
}

} // verus!
