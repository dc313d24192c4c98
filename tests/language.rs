use kotoba::parser::{AstNode, Op, ParseError, Parser};
use kotoba::runtime::{apply_binary, apply_unary, Env, EvalError, Host, Type};

/// Numbers as doubles; `println` writes to a buffer, `mark` counts its calls
/// and returns `true`.
struct FloatHost {
    out: Vec<u8>,
    marks: usize,
}

impl FloatHost {
    fn new() -> FloatHost {
        FloatHost { out: Vec::new(), marks: 0 }
    }
}

impl Host for FloatHost {
    fn number(&self, text: &Vec<u8>) -> u64 {
        std::str::from_utf8(text).unwrap().parse::<f64>().unwrap().to_bits()
    }

    fn arith(&self, op: Op, a: u64, b: u64) -> u64 {
        let (x, y) = (f64::from_bits(a), f64::from_bits(b));
        let r = match op {
            Op::Plus => x + y,
            Op::Minus => x - y,
            Op::Star => x * y,
            Op::Slash => x / y,
            Op::Percent => x % y,
            _ => f64::NAN,
        };
        r.to_bits()
    }

    fn compare(&self, op: Op, a: u64, b: u64) -> bool {
        let (x, y) = (f64::from_bits(a), f64::from_bits(b));
        match op {
            Op::EqualEqual => x == y,
            Op::BangEqual => x != y,
            Op::Greater => x > y,
            Op::GreaterEqual => x >= y,
            Op::Less => x < y,
            Op::LessEqual => x <= y,
            _ => false,
        }
    }

    fn has_builtin(&self, name: &Vec<u8>) -> bool {
        name.as_slice() == b"println" || name.as_slice() == b"mark"
    }

    fn number_text(&self, n: u64) -> Vec<u8> {
        f64::from_bits(n).to_string().into_bytes()
    }

    fn call(&mut self, name: &Vec<u8>, args: Vec<Type>) -> Type {
        if name.as_slice() == b"mark" {
            self.marks += 1;
            return Type::Boolean(true);
        }
        for a in args {
            match a {
                Type::String(s) => self.out.extend_from_slice(&s),
                Type::Number(n) => self.out.extend_from_slice(f64::from_bits(n).to_string().as_bytes()),
                Type::Boolean(b) => self.out.extend_from_slice(b.to_string().as_bytes()),
                Type::Nil => self.out.extend_from_slice(b"nil"),
            }
        }
        self.out.push(b'\n');
        Type::Nil
    }
}

fn num(x: f64) -> Type {
    Type::Number(x.to_bits())
}

fn string(s: &str) -> Type {
    Type::String(s.as_bytes().to_vec())
}

fn run(source: &str) -> Result<Type, EvalError> {
    let mut host = FloatHost::new();
    Env::new().eval(&mut host, &Parser::new(source).parse())
}

fn run_in(env: &mut Env, host: &mut FloatHost, source: &str) -> Result<Type, EvalError> {
    env.eval(host, &Parser::new(source).parse())
}

fn parse_error(source: &str) -> ParseError {
    match Parser::new(source).parse_checked() {
        Err(e) => e,
        Ok(ast) => panic!("parsed: {:?}", ast),
    }
}

#[test]
fn precedence_of_product_over_sum() {
    assert_eq!(run("2 + 3 * 4"), Ok(num(14.0)));
}

#[test]
fn subtraction_and_division_chain_to_the_left() {
    assert_eq!(run("2 - 3 - 4"), Ok(num(-5.0)));
    assert_eq!(run("18 / (3 * 4.5)"), Ok(num(18.0 / (3.0 * 4.5))));
    assert_eq!(run("7 % 4 % 2"), Ok(num(1.0)));
}

#[test]
fn unary_chains_cancel_in_pairs() {
    assert_eq!(run("--5"), Ok(num(5.0)));
    assert_eq!(run("---5"), Ok(num(-5.0)));
    assert_eq!(run("!!!true"), Ok(Type::Boolean(false)));
    assert_eq!(run("!!true"), Ok(Type::Boolean(true)));
}

#[test]
fn grouping_changes_nothing() {
    assert_eq!(run("(((2 * 3 + 4)))"), run("2 * 3 + 4"));
    assert_eq!(run("(((\"a\")))"), Ok(string("a")));
}

#[test]
fn nonlocal_assignment_changes_outer_binding() {
    let mut env = Env::new();
    let mut host = FloatHost::new();
    assert_eq!(run_in(&mut env, &mut host, "x = 1"), Ok(Type::Nil));
    assert_eq!(run_in(&mut env, &mut host, "if true : nonlocal x = 2 ;"), Ok(Type::Nil));
    assert_eq!(run_in(&mut env, &mut host, "x"), Ok(num(2.0)));
}

#[test]
fn plain_assignment_in_block_shadows() {
    let mut env = Env::new();
    let mut host = FloatHost::new();
    assert_eq!(run_in(&mut env, &mut host, "x = 1"), Ok(Type::Nil));
    assert_eq!(run_in(&mut env, &mut host, "if true : x = 3, x ;"), Ok(num(3.0)));
    assert_eq!(run_in(&mut env, &mut host, "x"), Ok(num(1.0)));
}

#[test]
fn nonlocal_assignment_without_binding_does_nothing() {
    let mut env = Env::new();
    let mut host = FloatHost::new();
    assert_eq!(run_in(&mut env, &mut host, "nonlocal y = 2"), Ok(Type::Nil));
    assert_eq!(run_in(&mut env, &mut host, "y"), Err(EvalError::UndefinedVariable));
}

#[test]
fn logical_operators_evaluate_both_sides() {
    let mut env = Env::new();
    let mut host = FloatHost::new();
    assert_eq!(run_in(&mut env, &mut host, "false and mark()"), Ok(Type::Boolean(false)));
    assert_eq!(host.marks, 1);
    assert_eq!(run_in(&mut env, &mut host, "true or mark()"), Ok(Type::Boolean(true)));
    assert_eq!(host.marks, 2);
    assert_eq!(run("false and 1"), Err(EvalError::BinaryType));
}

#[test]
fn error_classification() {
    assert_eq!(run("1 + true"), Err(EvalError::BinaryType));
    assert_eq!(run("unbound"), Err(EvalError::UndefinedVariable));
    assert!(matches!(parse_error("(1 + 2"), ParseError::UnclosedGrouping(_)));
    assert_eq!(Parser::new("(1 + 2").parse(), AstNode::Nil);
}

#[test]
fn scenario_arithmetic() {
    assert_eq!(run("2 * 3 + 4"), Ok(num(10.0)));
}

#[test]
fn scenario_logic() {
    assert_eq!(run("!false and true"), Ok(Type::Boolean(true)));
}

#[test]
fn scenario_session_variable() {
    let mut env = Env::new();
    let mut host = FloatHost::new();
    assert_eq!(run_in(&mut env, &mut host, "x = 5"), Ok(Type::Nil));
    assert_eq!(run_in(&mut env, &mut host, "x + 1"), Ok(num(6.0)));
    assert_eq!(run_in(&mut env, &mut host, "x"), Ok(num(5.0)));
    assert_eq!(env.get(&b"x".to_vec()), Some(num(5.0)));
}

#[test]
fn scenario_if_else() {
    assert_eq!(run("if 1 > 2 : \"a\" else \"b\" ;"), Ok(string("b")));
}

#[test]
fn scenario_recovers_after_parse_error() {
    let mut env = Env::new();
    let mut host = FloatHost::new();
    assert_eq!(run_in(&mut env, &mut host, "(1 + 2"), Ok(Type::Nil));
    assert_eq!(run_in(&mut env, &mut host, "1 + 2"), Ok(num(3.0)));
}

#[test]
fn error_unary_type() {
    assert_eq!(run("-true"), Err(EvalError::UnaryType));
    assert_eq!(run("!1"), Err(EvalError::UnaryType));
}

#[test]
fn error_condition_type() {
    assert_eq!(run("if 1 : 2 ;"), Err(EvalError::ConditionType));
    assert_eq!(run("while nil : 2 ;"), Err(EvalError::ConditionType));
}

#[test]
fn error_loop_limit() {
    let mut env = Env::with_loop_limit(3);
    let mut host = FloatHost::new();
    assert_eq!(run_in(&mut env, &mut host, "while true : 1 ;"), Err(EvalError::LoopLimit));
    let mut env = Env::with_loop_limit(3);
    assert_eq!(
        run_in(&mut env, &mut host, "i = 0, while i < 3 : nonlocal i = i + 1 ; i"),
        Ok(num(3.0))
    );
}

#[test]
fn while_loop_counts() {
    assert_eq!(run("i = 0, s = 0, while i < 5 : nonlocal i = i + 1 nonlocal s = s + i ; s"), Ok(num(15.0)));
}

#[test]
fn ret_ends_the_program() {
    assert_eq!(run("1, ret 5 7"), Ok(num(5.0)));
    assert_eq!(run("if true : ret 3 ; 9"), Ok(num(3.0)));
    assert_eq!(run("1, 2"), Ok(num(2.0)));
}

#[test]
fn equality_across_kinds() {
    assert_eq!(run("1 == 1"), Ok(Type::Boolean(true)));
    assert_eq!(run("1 == true"), Ok(Type::Boolean(false)));
    assert_eq!(run("\"a\" != \"b\""), Ok(Type::Boolean(true)));
    assert_eq!(run("nil == nil"), Ok(Type::Boolean(true)));
    assert_eq!(run("2 >= 2"), Ok(Type::Boolean(true)));
    assert_eq!(run("2 < 1"), Ok(Type::Boolean(false)));
}

#[test]
fn strings_concatenate() {
    assert_eq!(run("\"ab\" + \"cd\""), Ok(string("abcd")));
    assert_eq!(run("\"ab\" - \"cd\""), Err(EvalError::BinaryType));
}

#[test]
fn builtins_are_called_with_evaluated_arguments() {
    let mut env = Env::new();
    let mut host = FloatHost::new();
    assert_eq!(run_in(&mut env, &mut host, "println(\"hi \", 1 + 1, true, nil)"), Ok(Type::Nil));
    assert_eq!(host.out, b"hi 2truenil\n".to_vec());
    assert_eq!(run_in(&mut env, &mut host, "nothing(1)"), Ok(Type::Nil));
}

#[test]
fn function_declaration_evaluates_to_nil() {
    assert_eq!(run("fn f(a, b) : a + b ;"), Ok(Type::Nil));
    assert_eq!(run("fn g() : 1 ;"), Ok(Type::Nil));
}

#[test]
fn parse_errors_are_classified() {
    assert!(matches!(parse_error("if true 1 ;"), ParseError::MissingColon(_)));
    assert!(matches!(parse_error("if true : 1"), ParseError::MissingSemicolon(_)));
    assert!(matches!(parse_error("fn (x) : 1 ;"), ParseError::MissingIdentifier(_)));
    assert!(matches!(parse_error("fn f x) : 1 ;"), ParseError::MissingParen(_)));
    assert!(matches!(parse_error("f(1"), ParseError::FnCallMissingCloseParen(_)));
    assert!(matches!(parse_error("nonlocal x 1"), ParseError::AssignmentMissingEqual(_)));
    assert!(matches!(parse_error("1 +"), ParseError::UnexpectedEof));
    assert!(matches!(parse_error(")"), ParseError::UnexpectedToken(_)));
    assert!(matches!(parse_error("\"open"), ParseError::UnterminatedString(_)));
    assert!(matches!(parse_error("1 2"), ParseError::UnexpectedToken(_)));
}

#[test]
fn parse_builds_the_tree() {
    let ast = Parser::new("x = 1 + 2").parse();
    let expected = AstNode::ProgramRoot(vec![AstNode::Assignment {
        identifier: b"x".to_vec(),
        operand: Box::new(AstNode::BinaryExpr {
            operator: Op::Plus,
            lhs: Box::new(AstNode::Number(b"1".to_vec())),
            rhs: Box::new(AstNode::Number(b"2".to_vec())),
        }),
        nonlocal: false,
    }]);
    assert_eq!(ast, expected);
}

#[test]
fn operators_apply_directly() {
    assert_eq!(apply_unary(Op::Minus, num(2.0)), Ok(num(-2.0)));
    assert_eq!(apply_unary(Op::Bang, Type::Boolean(false)), Ok(Type::Boolean(true)));
    let host = FloatHost::new();
    assert_eq!(apply_binary(&host, Op::Star, num(2.0), num(4.0)), Ok(num(8.0)));
    assert_eq!(apply_binary(&host, Op::Plus, num(1.0), Type::Boolean(true)), Err(EvalError::BinaryType));
    assert_eq!(apply_binary(&host, Op::Or, Type::Boolean(false), Type::Boolean(true)), Ok(Type::Boolean(true)));
}

#[test]
fn values_display_in_their_forms() {
    let host = FloatHost::new();
    assert_eq!(num(14.0).display(&host), b"14".to_vec());
    assert_eq!(num(-0.5).display(&host), b"-0.5".to_vec());
    assert_eq!(Type::Boolean(true).display(&host), b"true".to_vec());
    assert_eq!(Type::Boolean(false).display(&host), b"false".to_vec());
    assert_eq!(string("a b").display(&host), b"\"a b\"".to_vec());
    assert_eq!(Type::Nil.display(&host), b"nil".to_vec());
    assert_eq!(string("a b").raw_text(&host), b"a b".to_vec());
    assert_eq!(num(2.5).raw_text(&host), b"2.5".to_vec());
}

#[test]
fn ret_takes_the_whole_expression() {
    assert_eq!(run("ret 1 - 2"), Ok(num(-1.0)));
    assert_eq!(run("x = 1, if true : nonlocal x = 4 - 1 ; x"), Ok(num(3.0)));
}
