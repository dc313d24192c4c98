use crate::lexer::copy_bytes;
use crate::parser::{AstNode, Op};
use vstd::prelude::*;

verus! {

/// A runtime value. A number is held as the bit pattern of an IEEE-754
/// double; a string as its bytes.
#[derive(Debug, Clone, PartialEq)]
pub enum Type {
    Number(u64),
    Boolean(bool),
    String(Vec<u8>),
    Nil,
}

/// The mathematical value of a runtime value.
pub enum Val {
    Number(u64),
    Boolean(bool),
    Str(Seq<u8>),
    Nil,
}

impl View for Type {
    type V = Val;

    open spec fn view(&self) -> Val {
        match self {
            Type::Number(n) => Val::Number(*n),
            Type::Boolean(b) => Val::Boolean(*b),
            Type::String(s) => Val::Str(s@),
            Type::Nil => Val::Nil,
        }
    }
}

impl Type {
    /// A copy of this value.
    pub fn duplicate(&self) -> (r: Type)
        ensures
            r@ == self@,
    {
        match self {
            Type::Number(n) => Type::Number(*n),
            Type::Boolean(b) => Type::Boolean(*b),
            Type::String(s) => Type::String(copy_bytes(s)),
            Type::Nil => Type::Nil,
        }
    }
}

/// How a value is shown: numbers in decimal, booleans as `true` and
/// `false`, strings between double quotes and unescaped, nil as `nil`.
pub open spec fn display_spec<H: Host>(h: H, v: Val) -> Seq<u8> {
    match v {
        Val::Number(n) => h.number_text_spec(n),
        Val::Boolean(true) => seq![116u8, 114, 117, 101],
        Val::Boolean(false) => seq![102u8, 97, 108, 115, 101],
        Val::Str(s) => seq![34u8] + s + seq![34u8],
        Val::Nil => seq![110u8, 105, 108],
    }
}

/// What printing a value writes: a string's own bytes, anything else as it
/// is shown.
pub open spec fn raw_text_spec<H: Host>(h: H, v: Val) -> Seq<u8> {
    match v {
        Val::Str(s) => s,
        _ => display_spec(h, v),
    }
}

impl Type {
    /// How this value is shown.
    pub fn display<H: Host>(&self, host: &H) -> (r: Vec<u8>)
        ensures
            r@ == display_spec(*host, self@),
    {
        match self {
            Type::Number(n) => host.number_text(*n),
            Type::Boolean(b) => {
                let r = if *b {
                    vec![116u8, 114, 117, 101]
                } else {
                    vec![102u8, 97, 108, 115, 101]
                };
                assert(r@ =~= display_spec(*host, self@));
                r
            },
            Type::String(s) => {
                let mut r: Vec<u8> = Vec::new();
                r.push(34);
                let mut i: usize = 0;
                while i < s.len()
                    invariant
                        i <= s@.len(),
                        r@ == seq![34u8] + s@.take(i as int),
                    decreases s@.len() - i,
                {
                    r.push(s[i]);
                    i = i + 1;
                    assert(r@ =~= seq![34u8] + s@.take(i as int));
                }
                r.push(34);
                assert(s@.take(s@.len() as int) =~= s@);
                assert(r@ =~= display_spec(*host, self@));
                r
            },
            Type::Nil => {
                let r = vec![110u8, 105, 108];
                assert(r@ =~= display_spec(*host, self@));
                r
            },
        }
    }

    /// What printing this value writes.
    pub fn raw_text<H: Host>(&self, host: &H) -> (r: Vec<u8>)
        ensures
            r@ == raw_text_spec(*host, self@),
    {
        match self {
            Type::String(s) => copy_bytes(s),
            _ => self.display(host),
        }
    }
}

/// How evaluation fails.
#[derive(Debug, Clone, Copy, PartialEq, Eq, Structural)]
pub enum EvalError {
    /// `-` on a non-number or `!` on a non-boolean.
    UnaryType,
    /// A binary operator on operands of the wrong kinds.
    BinaryType,
    /// An `if` or `while` condition that is not a boolean.
    ConditionType,
    /// A name bound in no enclosing scope.
    UndefinedVariable,
    /// A loop that ran more iterations than the evaluator's limit allows.
    LoopLimit,
}

/// What evaluating a piece of the tree comes to: a result, a `ret` on its
/// way out to the program's boundary, or a failure.
pub enum Step<T> {
    Done(T),
    Returned(Val),
    Failed(EvalError),
}

/// What a host supplies: the numbers' arithmetic and formatting, and the
/// builtin functions. Each operation is described by a spec function of the
/// host, so a host's operations must be functions of its state and their
/// arguments; a host states its own by overriding the spec functions, and
/// code generic over hosts knows nothing of them beyond that.
pub trait Host: Sized {
    /// The number that a literal's text denotes.
    closed spec fn number_spec(&self, text: Seq<u8>) -> u64 {
        arbitrary()
    }

    /// `+ - * / %` on two numbers.
    closed spec fn arith_spec(&self, op: Op, a: u64, b: u64) -> u64 {
        arbitrary()
    }

    /// `== != > >= < <=` on two numbers.
    closed spec fn compare_spec(&self, op: Op, a: u64, b: u64) -> bool {
        arbitrary()
    }

    /// Whether a builtin of that name exists.
    closed spec fn has_builtin_spec(&self, name: Seq<u8>) -> bool {
        arbitrary()
    }

    /// The host after a builtin call, and what the call returns.
    closed spec fn call_spec(&self, name: Seq<u8>, args: Seq<Val>) -> (Self, Val) {
        arbitrary()
    }

    /// The decimal text of a number.
    closed spec fn number_text_spec(&self, n: u64) -> Seq<u8> {
        arbitrary()
    }

    fn number(&self, text: &Vec<u8>) -> (r: u64)
        ensures
            r == self.number_spec(text@),
    ;

    fn arith(&self, op: Op, a: u64, b: u64) -> (r: u64)
        ensures
            r == self.arith_spec(op, a, b),
    ;

    fn compare(&self, op: Op, a: u64, b: u64) -> (r: bool)
        ensures
            r == self.compare_spec(op, a, b),
    ;

    fn has_builtin(&self, name: &Vec<u8>) -> (r: bool)
        ensures
            r == self.has_builtin_spec(name@),
    ;

    fn call(&mut self, name: &Vec<u8>, args: Vec<Type>) -> (r: Type)
        ensures
            old(self).call_spec(name@, vals(args@)) == (*final(self), r@),
    ;

    fn number_text(&self, n: u64) -> (r: Vec<u8>)
        ensures
            r@ == self.number_text_spec(n),
    ;
}

pub open spec fn vals(s: Seq<Type>) -> Seq<Val> {
    Seq::new(s.len(), |i: int| s[i]@)
}

/// The scopes, from the root (first) to the innermost (last), each a map from
/// names to values.
pub type Frames = Seq<Map<Seq<u8>, Val>>;

/// The innermost scope that binds `k`, or -1.
pub open spec fn innermost_with(env: Frames, k: Seq<u8>) -> int
    decreases env.len(),
{
    if env.len() == 0 {
        -1
    } else if env.last().contains_key(k) {
        env.len() - 1
    } else {
        innermost_with(env.drop_last(), k)
    }
}

/// The value of `k`, looked up from the innermost scope outwards.
pub open spec fn lookup(env: Frames, k: Seq<u8>) -> Option<Val> {
    let j = innermost_with(env, k);
    if j < 0 {
        None
    } else {
        Some(env[j][k])
    }
}

/// A plain assignment: binds `k` in the innermost scope, shadowing any outer
/// binding.
pub open spec fn assign_local(env: Frames, k: Seq<u8>, v: Val) -> Frames {
    if env.len() == 0 {
        env
    } else {
        env.update(env.len() - 1, env.last().insert(k, v))
    }
}

/// A `nonlocal` assignment: changes the binding of `k` in the innermost scope
/// that has one; changes nothing when no scope binds `k`.
pub open spec fn assign_outer(env: Frames, k: Seq<u8>, v: Val) -> Frames {
    let j = innermost_with(env, k);
    if j < 0 {
        env
    } else {
        env.update(j, env[j].insert(k, v))
    }
}

/// The IEEE-754 negation of a number: its sign bit flipped.
pub open spec fn negate(n: u64) -> u64 {
    n ^ 0x8000_0000_0000_0000u64
}

/// `==` on any two values: values of different kinds are unequal.
pub open spec fn values_equal<H: Host>(h: H, x: Val, y: Val) -> bool {
    match (x, y) {
        (Val::Number(a), Val::Number(b)) => h.compare_spec(Op::EqualEqual, a, b),
        (Val::Boolean(a), Val::Boolean(b)) => a == b,
        (Val::Str(a), Val::Str(b)) => a == b,
        (Val::Nil, Val::Nil) => true,
        _ => false,
    }
}

pub open spec fn unary_spec(op: Op, v: Val) -> Step<Val> {
    match (op, v) {
        (Op::Minus, Val::Number(n)) => Step::Done(Val::Number(negate(n))),
        (Op::Bang, Val::Boolean(b)) => Step::Done(Val::Boolean(!b)),
        _ => Step::Failed(EvalError::UnaryType),
    }
}

pub open spec fn is_arith(op: Op) -> bool {
    op == Op::Plus || op == Op::Minus || op == Op::Star || op == Op::Slash || op == Op::Percent
}

pub open spec fn is_ordering(op: Op) -> bool {
    op == Op::Greater || op == Op::GreaterEqual || op == Op::Less || op == Op::LessEqual
}

pub open spec fn binary_spec<H: Host>(h: H, op: Op, x: Val, y: Val) -> Step<Val> {
    if op == Op::EqualEqual {
        Step::Done(Val::Boolean(values_equal(h, x, y)))
    } else if op == Op::BangEqual {
        Step::Done(Val::Boolean(!values_equal(h, x, y)))
    } else {
        match (x, y) {
            (Val::Boolean(a), Val::Boolean(b)) => if op == Op::And {
                Step::Done(Val::Boolean(a && b))
            } else if op == Op::Or {
                Step::Done(Val::Boolean(a || b))
            } else {
                Step::Failed(EvalError::BinaryType)
            },
            (Val::Number(a), Val::Number(b)) => if is_arith(op) {
                Step::Done(Val::Number(h.arith_spec(op, a, b)))
            } else if is_ordering(op) {
                Step::Done(Val::Boolean(h.compare_spec(op, a, b)))
            } else {
                Step::Failed(EvalError::BinaryType)
            },
            (Val::Str(a), Val::Str(b)) => if op == Op::Plus {
                Step::Done(Val::Str(a + b))
            } else {
                Step::Failed(EvalError::BinaryType)
            },
            _ => Step::Failed(EvalError::BinaryType),
        }
    }
}

/// Evaluates the statements `s[i..]` in order; the result is the value of the
/// last one, `last` when none is left.
pub open spec fn eval_seq<H: Host>(
    h: H,
    env: Frames,
    s: Seq<AstNode>,
    i: int,
    fuel: nat,
    last: Val,
) -> (H, Frames, Step<Val>)
    decreases fuel, s, s.len() - i,
{
    if i < 0 || i >= s.len() {
        (h, env, Step::Done(last))
    } else {
        let (h1, env1, r) = eval_spec(h, env, s[i], fuel);
        match r {
            Step::Done(v) => eval_seq(h1, env1, s, i + 1, fuel, v),
            Step::Returned(v) => (h1, env1, Step::Returned(v)),
            Step::Failed(k) => (h1, env1, Step::Failed(k)),
        }
    }
}

/// Evaluates the arguments `s[i..]` from left to right, after the values
/// `done` of those before them.
pub open spec fn eval_args<H: Host>(
    h: H,
    env: Frames,
    s: Seq<AstNode>,
    i: int,
    fuel: nat,
    done: Seq<Val>,
) -> (H, Frames, Step<Seq<Val>>)
    decreases fuel, s, s.len() - i,
{
    if i < 0 || i >= s.len() {
        (h, env, Step::Done(done))
    } else {
        let (h1, env1, r) = eval_spec(h, env, s[i], fuel);
        match r {
            Step::Done(v) => eval_args(h1, env1, s, i + 1, fuel, done.push(v)),
            Step::Returned(v) => (h1, env1, Step::Returned(v)),
            Step::Failed(k) => (h1, env1, Step::Failed(k)),
        }
    }
}

/// What evaluating `e` does, with the host `h`, the scopes `env`, and at most
/// `fuel` loop iterations (a loop inside a loop's body gets what is left of the
/// enclosing loop's count): the host and the scopes afterwards, and the
/// result.
pub open spec fn eval_spec<H: Host>(h: H, env: Frames, e: AstNode, fuel: nat) -> (
    H,
    Frames,
    Step<Val>,
)
    decreases fuel, e, 0nat,
{
    match e {
        AstNode::Nil => (h, env, Step::Done(Val::Nil)),
        AstNode::Number(t) => (h, env, Step::Done(Val::Number(h.number_spec(t@)))),
        AstNode::Boolean(b) => (h, env, Step::Done(Val::Boolean(b))),
        AstNode::StringLiteral(t) => (h, env, Step::Done(Val::Str(t@))),
        AstNode::Grouping(x) => eval_spec(h, env, *x, fuel),
        AstNode::Identifier(k) => match lookup(env, k@) {
            Some(v) => (h, env, Step::Done(v)),
            None => (h, env, Step::Failed(EvalError::UndefinedVariable)),
        },
        AstNode::FnCall { identifier, args } => if !h.has_builtin_spec(identifier@) {
            (h, env, Step::Done(Val::Nil))
        } else {
            let (h1, env1, r) = eval_args(h, env, args@, 0, fuel, Seq::empty());
            match r {
                Step::Done(vs) => {
                    let (h2, v) = h1.call_spec(identifier@, vs);
                    (h2, env1, Step::Done(v))
                },
                Step::Returned(v) => (h1, env1, Step::Returned(v)),
                Step::Failed(k) => (h1, env1, Step::Failed(k)),
            }
        },
        AstNode::Program(s) => {
            let (h1, env1, r) = eval_seq(h, env.push(Map::empty()), s@, 0, fuel, Val::Nil);
            (h1, env1.drop_last(), r)
        },
        AstNode::ProgramRoot(s) => {
            let (h1, env1, r) = eval_seq(h, env, s@, 0, fuel, Val::Nil);
            match r {
                Step::Returned(v) => (h1, env1, Step::Done(v)),
                _ => (h1, env1, r),
            }
        },
        AstNode::RetStmt(x) => {
            let (h1, env1, r) = eval_spec(h, env, *x, fuel);
            match r {
                Step::Done(v) => (h1, env1, Step::Returned(v)),
                _ => (h1, env1, r),
            }
        },
        AstNode::UnaryExpr { operator, operand } => {
            let (h1, env1, r) = eval_spec(h, env, *operand, fuel);
            match r {
                Step::Done(v) => (h1, env1, unary_spec(operator, v)),
                _ => (h1, env1, r),
            }
        },
        AstNode::BinaryExpr { operator, lhs, rhs } => {
            let (h1, env1, r1) = eval_spec(h, env, *lhs, fuel);
            match r1 {
                Step::Done(x) => {
                    let (h2, env2, r2) = eval_spec(h1, env1, *rhs, fuel);
                    match r2 {
                        Step::Done(y) => (h2, env2, binary_spec(h2, operator, x, y)),
                        _ => (h2, env2, r2),
                    }
                },
                _ => (h1, env1, r1),
            }
        },
        AstNode::Assignment { identifier, operand, nonlocal } => {
            let (h1, env1, r) = eval_spec(h, env, *operand, fuel);
            match r {
                Step::Done(v) => (
                    h1,
                    if nonlocal {
                        assign_outer(env1, identifier@, v)
                    } else {
                        assign_local(env1, identifier@, v)
                    },
                    Step::Done(Val::Nil),
                ),
                _ => (h1, env1, r),
            }
        },
        AstNode::IfStmt { condition, then_body, else_body } => {
            let (h1, env1, r) = eval_spec(h, env, *condition, fuel);
            match r {
                Step::Done(Val::Boolean(true)) => eval_spec(h1, env1, *then_body, fuel),
                Step::Done(Val::Boolean(false)) => match else_body {
                    Some(eb) => eval_spec(h1, env1, *eb, fuel),
                    None => (h1, env1, Step::Done(Val::Nil)),
                },
                Step::Done(_) => (h1, env1, Step::Failed(EvalError::ConditionType)),
                _ => (h1, env1, r),
            }
        },
        AstNode::WhileStmt { condition, body } => {
            let (h1, env1, r) = eval_spec(h, env, *condition, fuel);
            match r {
                Step::Done(Val::Boolean(false)) => (h1, env1, Step::Done(Val::Nil)),
                Step::Done(Val::Boolean(true)) => if fuel == 0 {
                    (h1, env1, Step::Failed(EvalError::LoopLimit))
                } else {
                    let (h2, env2, r2) = eval_spec(h1, env1, *body, fuel);
                    match r2 {
                        Step::Done(_) => eval_spec(h2, env2, e, (fuel - 1) as nat),
                        _ => (h2, env2, r2),
                    }
                },
                Step::Done(_) => (h1, env1, Step::Failed(EvalError::ConditionType)),
                _ => (h1, env1, r),
            }
        },
        AstNode::FnStmt { .. } => (h, env, Step::Done(Val::Nil)),
    }
}

/// A name bound to a value in one scope.
pub struct Binding {
    pub name: Vec<u8>,
    pub value: Type,
}

/// The value bound to `k` in a scope: the last binding of that name.
pub open spec fn scope_get(s: Seq<Binding>, k: Seq<u8>) -> Option<Val>
    decreases s.len(),
{
    if s.len() == 0 {
        None
    } else if s.last().name@ == k {
        Some(s.last().value@)
    } else {
        scope_get(s.drop_last(), k)
    }
}

pub open spec fn scope_map(s: Seq<Binding>) -> Map<Seq<u8>, Val> {
    Map::new(|k: Seq<u8>| scope_get(s, k) is Some, |k: Seq<u8>| scope_get(s, k)->0)
}

proof fn lemma_scope_get_take(s: Seq<Binding>, i: int, k: Seq<u8>)
    requires
        0 <= i <= s.len(),
        forall|j: int| i <= j < s.len() ==> (#[trigger] s[j]).name@ != k,
    ensures
        scope_get(s, k) == scope_get(s.take(i), k),
    decreases s.len() - i,
{
    if i < s.len() {
        assert(s.drop_last().take(i) =~= s.take(i));
        lemma_scope_get_take(s.drop_last(), i, k);
    } else {
        assert(s.take(i) =~= s);
    }
}

proof fn lemma_scope_get_same(s1: Seq<Binding>, s2: Seq<Binding>, k: Seq<u8>)
    requires
        s1.len() == s2.len(),
        forall|j: int| 0 <= j < s1.len() ==> (#[trigger] s1[j]).name@ == s2[j].name@,
        forall|j: int| 0 <= j < s1.len() && (#[trigger] s1[j]).name@ == k ==> s1[j].value@ == s2[j].value@,
    ensures
        scope_get(s1, k) == scope_get(s2, k),
    decreases s1.len(),
{
    if s1.len() > 0 {
        lemma_scope_get_same(s1.drop_last(), s2.drop_last(), k);
    }
}

fn bytes_eq(a: &Vec<u8>, b: &Vec<u8>) -> (r: bool)
    ensures
        r == (a@ == b@),
{
    if a.len() != b.len() {
        return false;
    }
    let mut i: usize = 0;
    while i < a.len()
        invariant
            a@.len() == b@.len(),
            i <= a@.len(),
            forall|j: int| 0 <= j < i ==> a@[j] == b@[j],
        decreases a@.len() - i,
    {
        if a[i] != b[i] {
            return false;
        }
        i = i + 1;
    }
    assert(a@ =~= b@);
    true
}

/// The index of the last binding of `k` in a scope.
fn scope_find(s: &Vec<Binding>, k: &Vec<u8>) -> (r: Option<usize>)
    ensures
        r is None ==> scope_get(s@, k@) is None,
        r matches Some(i) ==> i < s@.len() && s@[i as int].name@ == k@ && scope_get(s@, k@) == Some(
            s@[i as int].value@,
        ) && forall|j: int| i < j < s@.len() ==> (#[trigger] s@[j]).name@ != k@,
{
    let mut i = s.len();
    while i > 0
        invariant
            i <= s@.len(),
            forall|j: int| i <= j < s@.len() ==> (#[trigger] s@[j]).name@ != k@,
        decreases i,
    {
        if bytes_eq(&s[i - 1].name, k) {
            proof {
                lemma_scope_get_take(s@, i as int, k@);
                assert(s@.take(i as int).drop_last() =~= s@.take(i - 1));
            }
            return Some(i - 1);
        }
        i = i - 1;
    }
    proof {
        lemma_scope_get_take(s@, 0, k@);
    }
    None
}

/// Binds `k` to `v` in a scope, replacing its binding if it has one.
fn scope_set(s: &mut Vec<Binding>, k: Vec<u8>, v: Type)
    ensures
        scope_map(final(s)@) == scope_map(old(s)@).insert(k@, v@),
{
    match scope_find(s, &k) {
        Some(i) => {
            let ghost old_s = s@;
            let ghost kk = k@;
            let ghost vv = v@;
            s.set(i, Binding { name: k, value: v });
            proof {
                assert forall|x: Seq<u8>| #[trigger] scope_get(s@, x) == (if x == kk {
                    Some(vv)
                } else {
                    scope_get(old_s, x)
                }) by {
                    if x == kk {
                        lemma_scope_get_take(s@, i + 1, x);
                        assert(s@.take(i + 1).last() == s@[i as int]);
                    } else {
                        lemma_scope_get_same(s@, old_s, x);
                    }
                }
                assert(scope_map(s@) =~= scope_map(old_s).insert(kk, vv));
            }
        },
        None => {
            let ghost old_s = s@;
            s.push(Binding { name: k, value: v });
            proof {
                assert(s@.drop_last() =~= old_s);
                assert(scope_map(s@) =~= scope_map(old_s).insert(k@, v@));
            }
        },
    }
}

proof fn lemma_innermost_take(env: Frames, i: int, k: Seq<u8>)
    requires
        0 <= i <= env.len(),
        forall|j: int| i <= j < env.len() ==> !(#[trigger] env[j]).contains_key(k),
    ensures
        innermost_with(env, k) == innermost_with(env.take(i), k),
    decreases env.len() - i,
{
    if i < env.len() {
        assert(env.drop_last().take(i) =~= env.take(i));
        lemma_innermost_take(env.drop_last(), i, k);
    } else {
        assert(env.take(i) =~= env);
    }
}

/// The innermost scope with `k` is a scope, and binds `k`.
pub proof fn lemma_innermost_bounds(env: Frames, k: Seq<u8>)
    ensures
        -1 <= innermost_with(env, k) < env.len(),
        innermost_with(env, k) >= 0 ==> env[innermost_with(env, k)].contains_key(k),
    decreases env.len(),
{
    if env.len() > 0 && !env.last().contains_key(k) {
        lemma_innermost_bounds(env.drop_last(), k);
    }
}

/// How a piece of the tree finished: normally with a value, or with a `ret`.
pub enum Flow {
    Normal(Type),
    Return(Type),
}

pub open spec fn step_of(r: Result<Flow, EvalError>) -> Step<Val> {
    match r {
        Ok(Flow::Normal(v)) => Step::Done(v@),
        Ok(Flow::Return(v)) => Step::Returned(v@),
        Err(k) => Step::Failed(k),
    }
}

/// The default bound on loop iterations.
pub const DEFAULT_LOOP_LIMIT: u64 = 1_000_000_000;

/// The scopes of a running program, the root first, and the bound on the
/// iterations of each loop.
pub struct Env {
    scopes: Vec<Vec<Binding>>,
    loop_limit: u64,
}

impl Env {
    /// The scopes as maps, the root first.
    pub closed spec fn frames(&self) -> Frames {
        Seq::new(self.scopes@.len(), |i: int| scope_map(self.scopes@[i]@))
    }

    /// How many iterations a loop may run; a loop nested in another's body
    /// gets only what is left of the enclosing loop's count.
    pub closed spec fn limit(&self) -> nat {
        self.loop_limit as nat
    }

    /// There is always a root scope.
    pub closed spec fn wf(&self) -> bool {
        self.scopes@.len() >= 1
    }

    /// An environment with an empty root scope.
    pub fn new() -> (r: Env)
        ensures
            r.wf(),
            r.frames() == seq![Map::<Seq<u8>, Val>::empty()],
            r.limit() == DEFAULT_LOOP_LIMIT,
    {
        Env::with_loop_limit(DEFAULT_LOOP_LIMIT)
    }

    /// An environment with an empty root scope whose loops may run at most
    /// `limit` iterations, a nested loop only what is left of the
    /// enclosing loop's count.
    pub fn with_loop_limit(limit: u64) -> (r: Env)
        ensures
            r.wf(),
            r.frames() == seq![Map::<Seq<u8>, Val>::empty()],
            r.limit() == limit,
    {
        let mut scopes: Vec<Vec<Binding>> = Vec::new();
        scopes.push(Vec::new());
        let r = Env { scopes, loop_limit: limit };
        assert(scope_map(Seq::<Binding>::empty()) =~= Map::<Seq<u8>, Val>::empty());
        assert(r.frames() =~= seq![Map::<Seq<u8>, Val>::empty()]);
        r
    }

    /// The innermost scope that binds `k`.
    fn find_scope(&self, k: &Vec<u8>) -> (r: Option<usize>)
        ensures
            r is None ==> innermost_with(self.frames(), k@) < 0,
            r matches Some(j) ==> j as int == innermost_with(self.frames(), k@) && j
                < self.scopes@.len() && self.frames()[j as int].contains_key(k@),
    {
        proof {
            lemma_innermost_bounds(self.frames(), k@);
        }
        let ghost env = self.frames();
        let mut i = self.scopes.len();
        while i > 0
            invariant
                i <= self.scopes@.len(),
                env == self.frames(),
                forall|j: int| i <= j < env.len() ==> !(#[trigger] env[j]).contains_key(k@),
            decreases i,
        {
            if scope_find(&self.scopes[i - 1], k).is_some() {
                proof {
                    lemma_innermost_take(env, i as int, k@);
                    assert(env.take(i as int).last() == env[i - 1]);
                }
                return Some(i - 1);
            }
            i = i - 1;
        }
        proof {
            lemma_innermost_take(env, 0, k@);
        }
        None
    }

    /// The value of `name`, looked up from the innermost scope outwards.
    pub fn get(&self, name: &Vec<u8>) -> (r: Option<Type>)
        ensures
            r is None ==> lookup(self.frames(), name@) is None,
            r matches Some(v) ==> lookup(self.frames(), name@) == Some(v@),
    {
        match self.find_scope(name) {
            Some(j) => {
                match scope_find(&self.scopes[j], name) {
                    Some(i) => Some(self.scopes[j][i].value.duplicate()),
                    None => None,
                }
            },
            None => None,
        }
    }

    fn set_local(&mut self, k: Vec<u8>, v: Type)
        requires
            old(self).wf(),
        ensures
            final(self).wf(),
            final(self).limit() == old(self).limit(),
            final(self).frames().len() == old(self).frames().len(),
            final(self).frames() == assign_local(old(self).frames(), k@, v@),
    {
        let ghost env = self.frames();
        let ghost kk = k@;
        let ghost vv = v@;
        let last = self.scopes.len() - 1;
        scope_set(&mut self.scopes[last], k, v);
        assert(self.frames() =~= assign_local(env, kk, vv));
    }

    fn set_outer(&mut self, k: Vec<u8>, v: Type)
        requires
            old(self).wf(),
        ensures
            final(self).wf(),
            final(self).limit() == old(self).limit(),
            final(self).frames().len() == old(self).frames().len(),
            final(self).frames() == assign_outer(old(self).frames(), k@, v@),
    {
        let ghost env = self.frames();
        let ghost kk = k@;
        let ghost vv = v@;
        match self.find_scope(&k) {
            Some(j) => {
                scope_set(&mut self.scopes[j], k, v);
                assert(self.frames() =~= assign_outer(env, kk, vv));
            },
            None => {},
        }
    }
}

/// `==` on two values.
fn equal_values<H: Host>(host: &H, x: &Type, y: &Type) -> (r: bool)
    ensures
        r == values_equal(*host, x@, y@),
{
    match (x, y) {
        (Type::Number(a), Type::Number(b)) => host.compare(Op::EqualEqual, *a, *b),
        (Type::Boolean(a), Type::Boolean(b)) => *a == *b,
        (Type::String(a), Type::String(b)) => bytes_eq(a, b),
        (Type::Nil, Type::Nil) => true,
        _ => false,
    }
}

/// Applies a prefix operator to a value.
pub fn apply_unary(op: Op, v: Type) -> (r: Result<Type, EvalError>)
    ensures
        step_of(match r {
            Ok(x) => Ok(Flow::Normal(x)),
            Err(k) => Err(k),
        }) == unary_spec(op, v@),
{
    match (op, v) {
        (Op::Minus, Type::Number(n)) => Ok(Type::Number(n ^ 0x8000_0000_0000_0000u64)),
        (Op::Bang, Type::Boolean(b)) => Ok(Type::Boolean(!b)),
        _ => Err(EvalError::UnaryType),
    }
}

/// Applies a binary operator to two values.
pub fn apply_binary<H: Host>(host: &H, op: Op, x: Type, y: Type) -> (r: Result<Type, EvalError>)
    ensures
        step_of(match r {
            Ok(v) => Ok(Flow::Normal(v)),
            Err(k) => Err(k),
        }) == binary_spec(*host, op, x@, y@),
{
    if op == Op::EqualEqual {
        return Ok(Type::Boolean(equal_values(host, &x, &y)));
    }
    if op == Op::BangEqual {
        return Ok(Type::Boolean(!equal_values(host, &x, &y)));
    }
    let arith = op == Op::Plus || op == Op::Minus || op == Op::Star || op == Op::Slash || op
        == Op::Percent;
    let ordering = op == Op::Greater || op == Op::GreaterEqual || op == Op::Less || op
        == Op::LessEqual;
    match (x, y) {
        (Type::Boolean(a), Type::Boolean(b)) => {
            if op == Op::And {
                Ok(Type::Boolean(a && b))
            } else if op == Op::Or {
                Ok(Type::Boolean(a || b))
            } else {
                Err(EvalError::BinaryType)
            }
        },
        (Type::Number(a), Type::Number(b)) => {
            if arith {
                Ok(Type::Number(host.arith(op, a, b)))
            } else if ordering {
                Ok(Type::Boolean(host.compare(op, a, b)))
            } else {
                Err(EvalError::BinaryType)
            }
        },
        (Type::String(a), Type::String(b)) => {
            if op == Op::Plus {
                let mut joined = a;
                let mut tail = b;
                let ghost a0 = joined@;
                let ghost b0 = tail@;
                joined.append(&mut tail);
                assert(joined@ == a0 + b0);
                Ok(Type::String(joined))
            } else {
                Err(EvalError::BinaryType)
            }
        },
        _ => Err(EvalError::BinaryType),
    }
}

impl Env {
    /// Evaluates the statements of a block in order; the value is that of the
    /// last one.
    fn eval_stmts<H: Host>(&mut self, host: &mut H, s: &Vec<AstNode>, fuel: u64) -> (r: Result<
        Flow,
        EvalError,
    >)
        requires
            old(self).wf(),
        ensures
            final(self).wf(),
            final(self).limit() == old(self).limit(),
            final(self).frames().len() == old(self).frames().len(),
            eval_seq(*old(host), old(self).frames(), s@, 0, fuel as nat, Val::Nil) == (
                *final(host),
                final(self).frames(),
                step_of(r),
            ),
        decreases fuel, s@, 1nat,
    {
        let ghost h0 = *host;
        let ghost env0 = self.frames();
        let mut last = Type::Nil;
        let mut i: usize = 0;
        while i < s.len()
            invariant
                self.wf(),
                self.limit() == old(self).limit(),
                self.frames().len() == env0.len(),
                i <= s@.len(),
                h0 == *old(host),
                env0 == old(self).frames(),
                eval_seq(h0, env0, s@, 0, fuel as nat, Val::Nil) == eval_seq(
                    *host,
                    self.frames(),
                    s@,
                    i as int,
                    fuel as nat,
                    last@,
                ),
            decreases s@.len() - i,
        {
            match self.eval_node(host, &s[i], fuel) {
                Ok(Flow::Normal(v)) => {
                    last = v;
                    i = i + 1;
                },
                other => {
                    return other;
                },
            }
        }
        Ok(Flow::Normal(last))
    }

    /// Evaluates call arguments from left to right.
    fn eval_arguments<H: Host>(&mut self, host: &mut H, s: &Vec<AstNode>, fuel: u64) -> (r: Result<
        Result<Vec<Type>, Type>,
        EvalError,
    >)
        requires
            old(self).wf(),
        ensures
            final(self).wf(),
            final(self).limit() == old(self).limit(),
            final(self).frames().len() == old(self).frames().len(),
            ({
                let (h, env, st) = eval_args(
                    *old(host),
                    old(self).frames(),
                    s@,
                    0,
                    fuel as nat,
                    Seq::empty(),
                );
                h == *final(host) && env == final(self).frames() && match st {
                    Step::Done(vs) => r matches Ok(Ok(out)) && vals(out@) == vs,
                    Step::Returned(v) => r matches Ok(Err(x)) && x@ == v,
                    Step::Failed(k) => r == Err::<Result<Vec<Type>, Type>, EvalError>(k),
                }
            }),
        decreases fuel, s@, 1nat,
    {
        let ghost h0 = *host;
        let ghost env0 = self.frames();
        let mut out: Vec<Type> = Vec::new();
        let mut i: usize = 0;
        assert(vals(out@) =~= Seq::<Val>::empty());
        while i < s.len()
            invariant
                self.wf(),
                self.limit() == old(self).limit(),
                self.frames().len() == env0.len(),
                i <= s@.len(),
                h0 == *old(host),
                env0 == old(self).frames(),
                eval_args(h0, env0, s@, 0, fuel as nat, Seq::empty()) == eval_args(
                    *host,
                    self.frames(),
                    s@,
                    i as int,
                    fuel as nat,
                    vals(out@),
                ),
            decreases s@.len() - i,
        {
            match self.eval_node(host, &s[i], fuel) {
                Ok(Flow::Normal(v)) => {
                    let ghost before = out@;
                    out.push(v);
                    assert(vals(out@) =~= vals(before).push(v@));
                    i = i + 1;
                },
                Ok(Flow::Return(v)) => {
                    return Ok(Err(v));
                },
                Err(k) => {
                    return Err(k);
                },
            }
        }
        Ok(Ok(out))
    }

    /// Evaluates one node of the tree.
    fn eval_node<H: Host>(&mut self, host: &mut H, e: &AstNode, fuel: u64) -> (r: Result<Flow, EvalError>)
        requires
            old(self).wf(),
        ensures
            final(self).wf(),
            final(self).limit() == old(self).limit(),
            final(self).frames().len() == old(self).frames().len(),
            eval_spec(*old(host), old(self).frames(), *e, fuel as nat) == (
                *final(host),
                final(self).frames(),
                step_of(r),
            ),
        decreases fuel, *e, 2nat,
    {
        match e {
            AstNode::Nil => Ok(Flow::Normal(Type::Nil)),
            AstNode::Number(t) => Ok(Flow::Normal(Type::Number(host.number(t)))),
            AstNode::Boolean(b) => Ok(Flow::Normal(Type::Boolean(*b))),
            AstNode::StringLiteral(t) => Ok(Flow::Normal(Type::String(copy_bytes(t)))),
            AstNode::Grouping(x) => self.eval_node(host, x, fuel),
            AstNode::Identifier(k) => match self.get(k) {
                Some(v) => Ok(Flow::Normal(v)),
                None => Err(EvalError::UndefinedVariable),
            },
            AstNode::FnCall { .. } => self.eval_call(host, e, fuel),
            AstNode::Program(_) => self.eval_block(host, e, fuel),
            AstNode::ProgramRoot(_) => self.eval_block(host, e, fuel),
            AstNode::RetStmt(x) => match self.eval_node(host, x, fuel) {
                Ok(Flow::Normal(v)) => Ok(Flow::Return(v)),
                other => other,
            },
            AstNode::UnaryExpr { .. } => self.eval_operator(host, e, fuel),
            AstNode::BinaryExpr { .. } => self.eval_operator(host, e, fuel),
            AstNode::Assignment { .. } => self.eval_assignment(host, e, fuel),
            AstNode::IfStmt { .. } => self.eval_if(host, e, fuel),
            AstNode::WhileStmt { .. } => self.eval_while(host, e, fuel),
            AstNode::FnStmt { .. } => Ok(Flow::Normal(Type::Nil)),
        }
    }

    /// A call of a builtin; a name that the host does not have gives `nil`.
    fn eval_call<H: Host>(&mut self, host: &mut H, e: &AstNode, fuel: u64) -> (r: Result<Flow, EvalError>)
        requires
            old(self).wf(),
            e is FnCall,
        ensures
            final(self).wf(),
            final(self).limit() == old(self).limit(),
            final(self).frames().len() == old(self).frames().len(),
            eval_spec(*old(host), old(self).frames(), *e, fuel as nat) == (
                *final(host),
                final(self).frames(),
                step_of(r),
            ),
        decreases fuel, *e, 1nat,
    {
        match e {
            AstNode::FnCall { identifier, args } => {
                if !host.has_builtin(identifier) {
                    return Ok(Flow::Normal(Type::Nil));
                }
                match self.eval_arguments(host, args, fuel) {
                    Ok(Ok(values)) => Ok(Flow::Normal(host.call(identifier, values))),
                    Ok(Err(v)) => Ok(Flow::Return(v)),
                    Err(k) => Err(k),
                }
            },
            _ => Ok(Flow::Normal(Type::Nil)),
        }
    }

    /// A block, in a scope of its own, or the program's top level, where a `ret` ends.
    fn eval_block<H: Host>(&mut self, host: &mut H, e: &AstNode, fuel: u64) -> (r: Result<Flow, EvalError>)
        requires
            old(self).wf(),
            e is Program || e is ProgramRoot,
        ensures
            final(self).wf(),
            final(self).limit() == old(self).limit(),
            final(self).frames().len() == old(self).frames().len(),
            eval_spec(*old(host), old(self).frames(), *e, fuel as nat) == (
                *final(host),
                final(self).frames(),
                step_of(r),
            ),
        decreases fuel, *e, 1nat,
    {
        match e {
            AstNode::Program(s) => {
                let ghost env0 = self.frames();
                self.scopes.push(Vec::new());
                assert(scope_map(Seq::<Binding>::empty()) =~= Map::<Seq<u8>, Val>::empty());
                assert(self.frames() =~= env0.push(Map::empty()));
                let r = self.eval_stmts(host, s, fuel);
                let ghost env1 = self.frames();
                self.scopes.pop();
                assert(self.frames() =~= env1.drop_last());
                r
            },
            AstNode::ProgramRoot(s) => match self.eval_stmts(host, s, fuel) {
                Ok(Flow::Return(v)) => Ok(Flow::Normal(v)),
                other => other,
            },
            _ => Ok(Flow::Normal(Type::Nil)),
        }
    }

    /// A prefix or binary operator; both operands of a binary one are always evaluated.
    fn eval_operator<H: Host>(&mut self, host: &mut H, e: &AstNode, fuel: u64) -> (r: Result<Flow, EvalError>)
        requires
            old(self).wf(),
            e is UnaryExpr || e is BinaryExpr,
        ensures
            final(self).wf(),
            final(self).limit() == old(self).limit(),
            final(self).frames().len() == old(self).frames().len(),
            eval_spec(*old(host), old(self).frames(), *e, fuel as nat) == (
                *final(host),
                final(self).frames(),
                step_of(r),
            ),
        decreases fuel, *e, 1nat,
    {
        match e {
            AstNode::UnaryExpr { operator, operand } => match self.eval_node(host, operand, fuel) {
                Ok(Flow::Normal(v)) => match apply_unary(*operator, v) {
                    Ok(x) => Ok(Flow::Normal(x)),
                    Err(k) => Err(k),
                },
                other => other,
            },
            AstNode::BinaryExpr { operator, lhs, rhs } => match self.eval_node(host, lhs, fuel) {
                Ok(Flow::Normal(x)) => match self.eval_node(host, rhs, fuel) {
                    Ok(Flow::Normal(y)) => match apply_binary(host, *operator, x, y) {
                        Ok(v) => Ok(Flow::Normal(v)),
                        Err(k) => Err(k),
                    },
                    other => other,
                },
                other => other,
            },
            _ => Ok(Flow::Normal(Type::Nil)),
        }
    }

    /// An assignment, plain or `nonlocal`.
    fn eval_assignment<H: Host>(&mut self, host: &mut H, e: &AstNode, fuel: u64) -> (r: Result<Flow, EvalError>)
        requires
            old(self).wf(),
            e is Assignment,
        ensures
            final(self).wf(),
            final(self).limit() == old(self).limit(),
            final(self).frames().len() == old(self).frames().len(),
            eval_spec(*old(host), old(self).frames(), *e, fuel as nat) == (
                *final(host),
                final(self).frames(),
                step_of(r),
            ),
        decreases fuel, *e, 1nat,
    {
        match e {
            AstNode::Assignment { identifier, operand, nonlocal } => match self.eval_node(
                host,
                operand,
                fuel,
            ) {
                Ok(Flow::Normal(v)) => {
                    if *nonlocal {
                        self.set_outer(copy_bytes(identifier), v);
                    } else {
                        self.set_local(copy_bytes(identifier), v);
                    }
                    Ok(Flow::Normal(Type::Nil))
                },
                other => other,
            },
            _ => Ok(Flow::Normal(Type::Nil)),
        }
    }

    /// An `if`, whose condition must be a boolean.
    fn eval_if<H: Host>(&mut self, host: &mut H, e: &AstNode, fuel: u64) -> (r: Result<Flow, EvalError>)
        requires
            old(self).wf(),
            e is IfStmt,
        ensures
            final(self).wf(),
            final(self).limit() == old(self).limit(),
            final(self).frames().len() == old(self).frames().len(),
            eval_spec(*old(host), old(self).frames(), *e, fuel as nat) == (
                *final(host),
                final(self).frames(),
                step_of(r),
            ),
        decreases fuel, *e, 1nat,
    {
        match e {
            AstNode::IfStmt { condition, then_body, else_body } => match self.eval_node(
                host,
                condition,
                fuel,
            ) {
                Ok(Flow::Normal(Type::Boolean(true))) => self.eval_node(host, then_body, fuel),
                Ok(Flow::Normal(Type::Boolean(false))) => match else_body {
                    Some(eb) => self.eval_node(host, eb, fuel),
                    None => Ok(Flow::Normal(Type::Nil)),
                },
                Ok(Flow::Normal(_)) => Err(EvalError::ConditionType),
                other => other,
            },
            _ => Ok(Flow::Normal(Type::Nil)),
        }
    }

    /// A `while`, whose condition must be a boolean before each iteration.
    fn eval_while<H: Host>(&mut self, host: &mut H, e: &AstNode, fuel: u64) -> (r: Result<Flow, EvalError>)
        requires
            old(self).wf(),
            e is WhileStmt,
        ensures
            final(self).wf(),
            final(self).limit() == old(self).limit(),
            final(self).frames().len() == old(self).frames().len(),
            eval_spec(*old(host), old(self).frames(), *e, fuel as nat) == (
                *final(host),
                final(self).frames(),
                step_of(r),
            ),
        decreases fuel, *e, 1nat,
    {
        match e {
            AstNode::WhileStmt { condition, body } => {
                let ghost h0 = *host;
                let ghost env0 = self.frames();
                let mut f = fuel;
                loop
                    invariant
                        self.wf(),
                        self.limit() == old(self).limit(),
                        self.frames().len() == env0.len(),
                        f <= fuel,
                        e is WhileStmt,
                        e->WhileStmt_condition == *condition,
                        e->WhileStmt_body == *body,
                        h0 == *old(host),
                        env0 == old(self).frames(),
                        eval_spec(h0, env0, *e, fuel as nat) == eval_spec(
                            *host,
                            self.frames(),
                            *e,
                            f as nat,
                        ),
                    decreases f,
                {
                    match self.eval_node(host, condition, f) {
                        Ok(Flow::Normal(Type::Boolean(true))) => {
                            if f == 0 {
                                return Err(EvalError::LoopLimit);
                            }
                            match self.eval_node(host, body, f) {
                                Ok(Flow::Normal(_)) => {
                                    f = f - 1;
                                },
                                other => {
                                    return other;
                                },
                            }
                        },
                        Ok(Flow::Normal(Type::Boolean(false))) => {
                            return Ok(Flow::Normal(Type::Nil));
                        },
                        Ok(Flow::Normal(_)) => {
                            return Err(EvalError::ConditionType);
                        },
                        other => {
                            return other;
                        },
                    }
                }
            },
            _ => Ok(Flow::Normal(Type::Nil)),
        }
    }

    /// Evaluates a tree against these scopes, with `host` for numbers and
    /// builtins. A `ret` stops the evaluation with its value.
    pub fn eval<H: Host>(&mut self, host: &mut H, ast: &AstNode) -> (r: Result<Type, EvalError>)
        requires
            old(self).wf(),
        ensures
            final(self).wf(),
            final(self).limit() == old(self).limit(),
            ({
                let (h, env, st) = eval_spec(*old(host), old(self).frames(), *ast, old(self).limit());
                h == *final(host) && env == final(self).frames() && match st {
                    Step::Done(v) => r matches Ok(x) && x@ == v,
                    Step::Returned(v) => r matches Ok(x) && x@ == v,
                    Step::Failed(k) => r == Err::<Type, EvalError>(k),
                }
            }),
    {
        match self.eval_node(host, ast, self.loop_limit) {
            Ok(Flow::Normal(v)) => Ok(v),
            Ok(Flow::Return(v)) => Ok(v),
            Err(k) => Err(k),
        }
    }
}

} // verus!
