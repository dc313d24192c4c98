use kotoba::parser::{Op, Parser};
use kotoba::runtime::{Env, EvalError, Host, Type};

/// Numbers as doubles, and the builtins `print` and `println`, which write to
/// a buffer.
struct FloatHost {
    out: Vec<u8>,
}

impl Host for FloatHost {
    fn number(&self, text: &Vec<u8>) -> u64 {
        std::str::from_utf8(text).unwrap().parse::<f64>().unwrap().to_bits()
    }

    fn arith(&self, op: Op, a: u64, b: u64) -> u64 {
        let (x, y) = (f64::from_bits(a), f64::from_bits(b));
        let r = match op {
            Op::Plus => x + y,
            Op::Minus => x - y,
            Op::Star => x * y,
            Op::Slash => x / y,
            Op::Percent => x % y,
            _ => f64::NAN,
        };
        r.to_bits()
    }

    fn compare(&self, op: Op, a: u64, b: u64) -> bool {
        let (x, y) = (f64::from_bits(a), f64::from_bits(b));
        match op {
            Op::EqualEqual => x == y,
            Op::BangEqual => x != y,
            Op::Greater => x > y,
            Op::GreaterEqual => x >= y,
            Op::Less => x < y,
            Op::LessEqual => x <= y,
            _ => false,
        }
    }

    fn has_builtin(&self, name: &Vec<u8>) -> bool {
        name.as_slice() == b"print" || name.as_slice() == b"println"
    }

    fn number_text(&self, n: u64) -> Vec<u8> {
        f64::from_bits(n).to_string().into_bytes()
    }

    fn call(&mut self, name: &Vec<u8>, args: Vec<Type>) -> Type {
        for a in args {
            match a {
                Type::String(s) => self.out.extend_from_slice(&s),
                Type::Number(n) => self.out.extend_from_slice(f64::from_bits(n).to_string().as_bytes()),
                Type::Boolean(b) => self.out.extend_from_slice(b.to_string().as_bytes()),
                Type::Nil => self.out.extend_from_slice(b"nil"),
            }
        }
        if name.as_slice() == b"println" {
            self.out.push(b'\n');
        }
        Type::Nil
    }
}

fn num(x: f64) -> Type {
    Type::Number(x.to_bits())
}

fn string(s: &str) -> Type {
    Type::String(s.as_bytes().to_vec())
}

fn run(source: &str) -> Result<Type, EvalError> {
    let mut host = FloatHost { out: Vec::new() };
    Env::new().eval(&mut host, &Parser::new(source).parse())
}

fn eval_eq(source: &str, expected: Type) {
    assert_eq!(run(source), Ok(expected));
}

#[test]
fn literals() {
    eval_eq("1", num(1.0));
    eval_eq("123.123", num(123.123));
    eval_eq("true", Type::Boolean(true));
    eval_eq("false", Type::Boolean(false));
    eval_eq("\"\"", string(""));
    eval_eq("\"hello world\"", string("hello world"));
    eval_eq("nil", Type::Nil);
}

#[test]
fn groupings() {
    eval_eq("(1)", num(1.0));
    eval_eq("(123.123)", num(123.123));
    eval_eq("(true)", Type::Boolean(true));
    eval_eq("(false)", Type::Boolean(false));
    eval_eq("(\"\")", string(""));
    eval_eq("(\"hello world\")", string("hello world"));
    eval_eq("(nil)", Type::Nil);

    eval_eq("((((1))))", num(1.0));
}

#[test]
fn unary_minus() {
    eval_eq("-1", num(-1.0));
    eval_eq("-123.123", num(-123.123));

    eval_eq("-(1)", num(-1.0));
    eval_eq("-(123.123)", num(-123.123));

    eval_eq("--1", num(1.0));
    eval_eq("-----------123.123", num(-123.123));
}

#[test]
fn unary_bang() {
    eval_eq("!true", Type::Boolean(false));
    eval_eq("!false", Type::Boolean(true));

    eval_eq("!(true)", Type::Boolean(false));
    eval_eq("!(false)", Type::Boolean(true));

    eval_eq("!!!!!!!!!true", Type::Boolean(false));
    eval_eq("!!!!!!!!false", Type::Boolean(false));
}

#[test]
fn mult_expr() {
    eval_eq("2 * 3", num(6.0));
    eval_eq("-2.5 * 4", num(-10.0));
    eval_eq("2 * 3 * 4", num(24.0));
    eval_eq("2.1 * 3.2 * 4.3 * 5.4 * 6.5", num(2.1 * 3.2 * 4.3 * 5.4 * 6.5));
}

#[test]
fn div_expr() {
    eval_eq("18 / 3", num(6.0));
    eval_eq("-100 / 2.5", num(-40.0));
    eval_eq("2 / 3 / 4", num(2.0 / 3.0 / 4.0));
    eval_eq("2.1 / 3.2 / 4.3 / 5.4 / 6.5", num(2.1 / 3.2 / 4.3 / 5.4 / 6.5));
}

#[test]
fn mixed_mult_and_div_expr() {
    eval_eq("18 / 3 * 4.5", num(27.0));
    eval_eq("-100 * 4 / 2.5", num(-160.0));

    eval_eq("18 / (3 * 4.5)", num(18.0 / (3.0 * 4.5)));
    eval_eq("-100 * (4 / 2.5)", num(-100.0 * (4.0 / 2.5)));
}

#[test]
fn add_expr() {
    eval_eq("18 + 3", num(21.0));
    eval_eq("-100 + 2.5", num(-97.5));
    eval_eq("100 + -2.5", num(97.5));
    eval_eq("2 + 3 + 4", num(9.0));
    eval_eq("2.1 + 3.2 + 4.3 + 5.4 + 6.5", num(2.1 + 3.2 + 4.3 + 5.4 + 6.5));
}

#[test]
fn sub_expr() {
    eval_eq("18 - 3", num(15.0));
    eval_eq("-100 - 2.5", num(-102.5));
    eval_eq("100 - -2.5", num(102.5));
    eval_eq("2 - 3 - 4", num(-5.0));
    eval_eq("2.1 - 3.2 - 4.3 - 5.4 - 6.5", num(2.1 - 3.2 - 4.3 - 5.4 - 6.5));
}

#[test]
fn mixed_add_and_sub_expr() {
    eval_eq("18 + 3 - 4.5", num(16.5));
    eval_eq("-100 - 4 + 2.5", num(-101.5));

    eval_eq("18 + (3 - 4.5)", num(16.5));
    eval_eq("-100 - (4 + 2.5)", num(-106.5));
}
