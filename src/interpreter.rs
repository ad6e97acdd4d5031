use vstd::prelude::*;
use vstd::string::StringExecFns;

use crate::engine::{create_spec, read_spec, Storage};
use crate::error::RunErr;
use crate::expr::{parseExpression, parse_expression_spec};
use crate::text::{decimal_of, render_i32};
use crate::types::{contents_view, BiOperation, Command, CommandV, Content, ContentV, ExprV, Expression, UnOperation};

verus! {

pub open spec fn power(b: int, e: nat) -> int
    decreases e,
{
    if e == 0 {
        1
    } else {
        b * power(b, (e - 1) as nat)
    }
}

pub open spec fn abs(x: int) -> int {
    if x < 0 {
        -x
    } else {
        x
    }
}

pub open spec fn in_i32(x: int) -> bool {
    i32::MIN <= x <= i32::MAX
}

/// `x` as an `i32`, or the arithmetic error when it does not fit.
pub open spec fn checked(x: int) -> Result<i32, RunErr> {
    if in_i32(x) {
        Ok(x as i32)
    } else {
        Err(RunErr::InvalidArithmetic)
    }
}

/// A binary operator applied to two values: integer arithmetic whose result
/// must fit in `i32`; a negative exponent is an error.
pub open spec fn apply_binary(op: BiOperation, a: i32, b: i32) -> Result<i32, RunErr> {
    match op {
        BiOperation::Add => checked(a + b),
        BiOperation::Subtract => checked(a - b),
        BiOperation::Multiply => checked(a * b),
        BiOperation::Exponentiate => if b < 0 {
            Err(RunErr::InvalidArithmetic)
        } else {
            checked(power(a as int, b as nat))
        },
    }
}

/// The value of an expression against the store; the left operand's error
/// comes before the right one's.
pub open spec fn eval(e: ExprV, m: Map<Seq<char>, i32>) -> Result<i32, RunErr>
    decreases e,
{
    match e {
        ExprV::Value(v) => Ok(v),
        ExprV::Variable(n) => read_spec(m, n),
        ExprV::Unary(UnOperation::Minus, x) => match eval(*x, m) {
            Ok(v) => checked(-v),
            Err(err) => Err(err),
        },
        ExprV::Binary(op, l, r) => match eval(*l, m) {
            Ok(a) => match eval(*r, m) {
                Ok(b) => apply_binary(op, a, b),
                Err(err) => Err(err),
            },
            Err(err) => Err(err),
        },
    }
}

/// The value that a `write` operand prints: the value of the expression it
/// holds, or, for an operand that is no expression, of the variable it names.
pub open spec fn write_value(t: Seq<char>, m: Map<Seq<char>, i32>) -> Result<i32, RunErr> {
    match parse_expression_spec(t) {
        Ok(e) => eval(e, m),
        Err(_) => read_spec(m, t),
    }
}

/// One item run against the store: the store after it and the text it
/// outputs; a failing item leaves the store unchanged.
pub open spec fn step_spec(m: Map<Seq<char>, i32>, c: ContentV) -> Result<
    (Map<Seq<char>, i32>, Seq<char>),
    RunErr,
> {
    match c {
        ContentV::Text(t) => Ok((m, t)),
        ContentV::Command(CommandV::Let(n, v)) => match create_spec(m, n, v) {
            (m2, Ok(())) => Ok((m2, Seq::empty())),
            (_, Err(err)) => Err(err),
        },
        ContentV::Command(CommandV::Assign(n, v)) => if m.contains_key(n) {
            Ok((m.insert(n, v), Seq::empty()))
        } else {
            Err(RunErr::TriedToModifyNonexistentVariable)
        },
        ContentV::Command(CommandV::Add(n, v)) => if m.contains_key(n) {
            match checked(m[n] + v) {
                Ok(x) => Ok((m.insert(n, x), Seq::empty())),
                Err(err) => Err(err),
            }
        } else {
            Err(RunErr::TriedToModifyNonexistentVariable)
        },
        ContentV::Command(CommandV::Subtract(n, v)) => if m.contains_key(n) {
            match checked(m[n] - v) {
                Ok(x) => Ok((m.insert(n, x), Seq::empty())),
                Err(err) => Err(err),
            }
        } else {
            Err(RunErr::TriedToModifyNonexistentVariable)
        },
        ContentV::Command(CommandV::Write(t)) => match write_value(t, m) {
            Ok(x) => Ok((m, decimal_of(x as int))),
            Err(err) => Err(err),
        },
    }
}

/// A sequence of items run in order against the store: the final store and
/// either the concatenated output or the first error. Items after the first
/// error are not run.
pub open spec fn run_spec(m: Map<Seq<char>, i32>, cs: Seq<ContentV>) -> (
    Map<Seq<char>, i32>,
    Result<Seq<char>, RunErr>,
)
    decreases cs.len(),
{
    if cs.len() == 0 {
        (m, Ok(Seq::empty()))
    } else {
        let (m1, r1) = run_spec(m, cs.drop_last());
        match r1 {
            Ok(out) => match step_spec(m1, cs.last()) {
                Ok((m2, piece)) => (m2, Ok(out + piece)),
                Err(err) => (m1, Err(err)),
            },
            Err(err) => (m1, Err(err)),
        }
    }
}

pub open spec fn output_result(r: Result<String, RunErr>) -> Result<Seq<char>, RunErr> {
    match r {
        Ok(s) => Ok(s@),
        Err(e) => Err(e),
    }
}

proof fn lemma_run_error_persists(m: Map<Seq<char>, i32>, cs: Seq<ContentV>, k: int)
    requires
        0 <= k <= cs.len(),
        run_spec(m, cs.take(k)).1 is Err,
    ensures
        run_spec(m, cs) == run_spec(m, cs.take(k)),
    decreases cs.len() - k,
{
    if k < cs.len() {
        assert(cs.take(k + 1).drop_last() =~= cs.take(k));
        lemma_run_error_persists(m, cs, k + 1);
    } else {
        assert(cs.take(k) =~= cs);
    }
}

proof fn lemma_abs_mul_grows(b: int, x: int)
    requires
        b >= 2 || b <= -2,
    ensures
        abs(b * x) >= 2 * abs(x),
{
    if b >= 2 && x >= 0 {
        assert(b * x >= 2 * x) by (nonlinear_arith)
            requires
                b >= 2,
                x >= 0,
        ;
    } else if b >= 2 {
        assert(b * x <= 2 * x) by (nonlinear_arith)
            requires
                b >= 2,
                x < 0,
        ;
    } else if x >= 0 {
        assert(b * x <= -2 * x) by (nonlinear_arith)
            requires
                b <= -2,
                x >= 0,
        ;
    } else {
        assert(b * x >= -2 * x) by (nonlinear_arith)
            requires
                b <= -2,
                x < 0,
        ;
    }
}

proof fn lemma_i32_product_fits(a: int, b: int)
    requires
        in_i32(a),
        in_i32(b),
    ensures
        i64::MIN <= a * b <= i64::MAX,
{
    assert(-0x4000_0000_0000_0000 <= a * b <= 0x4000_0000_0000_0000) by (nonlinear_arith)
        requires
            -0x8000_0000 <= a <= 0x7fff_ffff,
            -0x8000_0000 <= b <= 0x7fff_ffff,
    ;
}

proof fn lemma_power_grows(b: int, k1: nat, k2: nat)
    requires
        b >= 2 || b <= -2,
        k1 < k2,
    ensures
        abs(power(b, k2)) >= 2 * abs(power(b, k1)),
    decreases k2,
{
    let k = (k2 - 1) as nat;
    lemma_abs_mul_grows(b, power(b, k));
    if k > k1 {
        lemma_power_grows(b, k1, k);
    }
}

proof fn lemma_power_one(e: nat)
    ensures
        power(1, e) == 1,
    decreases e,
{
    if e > 0 {
        lemma_power_one((e - 1) as nat);
    }
}

proof fn lemma_power_minus_one(e: nat)
    ensures
        power(-1, e) == if e % 2 == 0 {
            1int
        } else {
            -1int
        },
    decreases e,
{
    if e > 0 {
        lemma_power_minus_one((e - 1) as nat);
    }
}

/// `base` raised to `exp`, when `exp` is not negative and the result fits in `i32`.
fn checked_power(base: i32, exp: i32) -> (r: Result<i32, RunErr>)
    ensures
        r == apply_binary(BiOperation::Exponentiate, base, exp),
{
    if exp < 0 {
        return Err(RunErr::InvalidArithmetic);
    }
    if base == 0 {
        if exp == 0 {
            return Ok(1);
        }
        assert(power(0, exp as nat) == 0 * power(0, (exp - 1) as nat));
        return Ok(0);
    }
    if base == 1 {
        proof {
            lemma_power_one(exp as nat);
        }
        return Ok(1);
    }
    if base == -1 {
        proof {
            lemma_power_minus_one(exp as nat);
        }
        return if exp % 2 == 0 {
            Ok(1)
        } else {
            Ok(-1)
        };
    }
    let mut acc: i32 = 1;
    let mut k: i32 = 0;
    while k < exp
        invariant
            base >= 2 || base <= -2,
            0 <= k <= exp,
            acc as int == power(base as int, k as nat),
        decreases exp - k,
    {
        proof {
            lemma_i32_product_fits(acc as int, base as int);
        }
        let wide: i64 = acc as i64 * base as i64;
        proof {
            assert(power(base as int, (k + 1) as nat) == base * power(base as int, k as nat));
            assert(wide == power(base as int, (k + 1) as nat));
        }
        if wide < i32::MIN as i64 || wide > i32::MAX as i64 {
            proof {
                if k + 1 < exp {
                    lemma_power_grows(base as int, (k + 1) as nat, exp as nat);
                }
            }
            return Err(RunErr::InvalidArithmetic);
        }
        acc = wide as i32;
        k = k + 1;
    }
    Ok(acc)
}

/// The value of an expression against the store.
pub fn evaluate(e: &Expression, storage: &Storage) -> (r: Result<i32, RunErr>)
    ensures
        r == eval(e@, storage@),
    decreases e,
{
    match e {
        Expression::Value(v) => Ok(*v),
        Expression::Variable(n) => storage.getValue(n.clone()),
        Expression::Unary(UnOperation::Minus, x) => {
            let v = match evaluate(x, storage) {
                Ok(v) => v,
                Err(err) => return Err(err),
            };
            if v == i32::MIN {
                Err(RunErr::InvalidArithmetic)
            } else {
                Ok(-v)
            }
        },
        Expression::Binary(op, l, r) => {
            let a = match evaluate(l, storage) {
                Ok(v) => v,
                Err(err) => return Err(err),
            };
            let b = match evaluate(r, storage) {
                Ok(v) => v,
                Err(err) => return Err(err),
            };
            proof {
                lemma_i32_product_fits(a as int, b as int);
            }
            let wide: i64 = match op {
                BiOperation::Add => a as i64 + b as i64,
                BiOperation::Subtract => a as i64 - b as i64,
                BiOperation::Multiply => a as i64 * b as i64,
                BiOperation::Exponentiate => return checked_power(a, b),
            };
            if wide < i32::MIN as i64 || wide > i32::MAX as i64 {
                Err(RunErr::InvalidArithmetic)
            } else {
                Ok(wide as i32)
            }
        },
    }
}

/// The value that a `write` operand prints.
fn write_operand(t: &String, storage: &Storage) -> (r: Result<i32, RunErr>)
    ensures
        r == write_value(t@, storage@),
{
    match parseExpression(t.clone()) {
        Ok(e) => evaluate(&e, storage),
        Err(_) => storage.getValue(t.clone()),
    }
}

/// Runs one item against the store, appending what it prints to `output`.
fn run_item(storage: &mut Storage, output: &mut String, chunk: &Content) -> (r: Result<(), RunErr>)
    ensures
        match step_spec(old(storage)@, chunk@) {
            Ok((m, piece)) => r is Ok && final(storage)@ == m && final(output)@ == old(output)@ + piece,
            Err(err) => r == Err::<(), RunErr>(err) && final(storage)@ == old(storage)@,
        },
{
    match chunk {
        Content::Text(t) => {
            output.append(t.as_str());
            Ok(())
        },
        Content::Command(Command::Let(variable, val)) => {
            let r = storage.createVariable(variable.clone(), *val);
            proof {
                assert(output@ =~= old(output)@ + Seq::<char>::empty());
            }
            r
        },
        Content::Command(Command::Assign(variable, val)) => {
            let v = *val;
            let set_to = (move |_og: i32| -> (x: i32)
                ensures
                    x == v,
                { v });
            let r = storage.modifyVariable(variable.clone(), set_to);
            proof {
                assert(output@ =~= old(output)@ + Seq::<char>::empty());
            }
            r
        },
        Content::Command(Command::Add(variable, val)) => {
            let cur = match storage.getValue(variable.clone()) {
                Ok(c) => c,
                Err(_) => return Err(RunErr::TriedToModifyNonexistentVariable),
            };
            let v = *val;
            let wide: i64 = cur as i64 + v as i64;
            if wide < i32::MIN as i64 || wide > i32::MAX as i64 {
                return Err(RunErr::InvalidArithmetic);
            }
            let updated = wide as i32;
            let set_to = (move |_og: i32| -> (x: i32)
                ensures
                    x == updated,
                { updated });
            let r = storage.modifyVariable(variable.clone(), set_to);
            proof {
                assert(output@ =~= old(output)@ + Seq::<char>::empty());
            }
            r
        },
        Content::Command(Command::Subtract(variable, val)) => {
            let cur = match storage.getValue(variable.clone()) {
                Ok(c) => c,
                Err(_) => return Err(RunErr::TriedToModifyNonexistentVariable),
            };
            let v = *val;
            let wide: i64 = cur as i64 - v as i64;
            if wide < i32::MIN as i64 || wide > i32::MAX as i64 {
                return Err(RunErr::InvalidArithmetic);
            }
            let updated = wide as i32;
            let set_to = (move |_og: i32| -> (x: i32)
                ensures
                    x == updated,
                { updated });
            let r = storage.modifyVariable(variable.clone(), set_to);
            proof {
                assert(output@ =~= old(output)@ + Seq::<char>::empty());
            }
            r
        },
        Content::Command(Command::Write(operand)) => {
            let val = write_operand(operand, storage)?;
            let text = render_i32(val);
            output.append(text.as_str());
            Ok(())
        },
    }
}

/// Runs a parsed document against the store, in order, and returns what it
/// prints; the first error stops the run. The store keeps the effect of the
/// items before the error.
pub fn run(storage: &mut Storage, parsed_file: Vec<Content>) -> (r: Result<String, RunErr>)
    ensures
        (final(storage)@, output_result(r)) == run_spec(old(storage)@, contents_view(parsed_file@)),
{
    let ghost cs = contents_view(parsed_file@);
    let mut output: String = String::new();
    let mut i: usize = 0;
    proof {
        assert(cs.take(0) =~= Seq::<ContentV>::empty());
    }
    while i < parsed_file.len()
        invariant
            cs == contents_view(parsed_file@),
            i <= parsed_file.len(),
            run_spec(old(storage)@, cs.take(i as int)) == (
                storage@,
                Ok::<Seq<char>, RunErr>(output@),
            ),
        decreases parsed_file.len() - i,
    {
        proof {
            assert(cs.take(i + 1).drop_last() =~= cs.take(i as int));
            assert(cs.take(i + 1).last() == parsed_file@[i as int]@);
        }
        match run_item(storage, &mut output, &parsed_file[i]) {
            Ok(()) => {},
            Err(err) => {
                proof {
                    lemma_run_error_persists(old(storage)@, cs, i + 1);
                }
                return Err(err);
            },
        }
        i = i + 1;
    }
    proof {
        assert(cs.take(i as int) =~= cs);
    }
    Ok(output)
}

} // verus!
