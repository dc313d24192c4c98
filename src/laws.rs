use crate::parser::{AstNode, Op};
use crate::runtime::{
    assign_local, assign_outer, binary_spec, eval_seq, eval_spec, innermost_with,
    lemma_innermost_bounds, lookup, negate, EvalError, Frames, Host, Step, Val,
};
use vstd::prelude::*;

verus! {

/// `x` under `n` applications of the prefix operator `op`.
pub open spec fn repeated(op: Op, x: AstNode, n: nat) -> AstNode
    decreases n,
{
    if n == 0 {
        x
    } else {
        AstNode::UnaryExpr { operator: op, operand: Box::new(repeated(op, x, (n - 1) as nat)) }
    }
}

/// A literal evaluates to the value it spells, touching neither the host nor
/// the scopes.
pub proof fn literals_evaluate_to_themselves<H: Host>(h: H, env: Frames, e: AstNode, fuel: nat)
    requires
        e is Number || e is Boolean || e is StringLiteral || e is Nil,
    ensures
        eval_spec(h, env, e, fuel) == (h, env, Step::Done(
            match e {
                AstNode::Number(t) => Val::Number(h.number_spec(t@)),
                AstNode::Boolean(b) => Val::Boolean(b),
                AstNode::StringLiteral(t) => Val::Str(t@),
                _ => Val::Nil,
            },
        )),
{
}

/// Parentheses change nothing: `(((e)))` evaluates exactly as `e` does.
pub proof fn grouping_is_transparent<H: Host>(h: H, env: Frames, e: AstNode, fuel: nat)
    ensures
        eval_spec(h, env, AstNode::Grouping(Box::new(e)), fuel) == eval_spec(h, env, e, fuel),
        eval_spec(
            h,
            env,
            AstNode::Grouping(Box::new(AstNode::Grouping(Box::new(AstNode::Grouping(Box::new(e)))))),
            fuel,
        ) == eval_spec(h, env, e, fuel),
{
    let g1 = AstNode::Grouping(Box::new(e));
    let g2 = AstNode::Grouping(Box::new(g1));
    assert(eval_spec(h, env, g1, fuel) == eval_spec(h, env, e, fuel));
    assert(eval_spec(h, env, g2, fuel) == eval_spec(h, env, g1, fuel));
    assert(eval_spec(h, env, AstNode::Grouping(Box::new(g2)), fuel) == eval_spec(h, env, g2, fuel));
}

/// Negation applied `n` times to a number: an even count cancels out, an odd
/// count negates once.
pub proof fn minus_chain<H: Host>(h: H, env: Frames, x: AstNode, n: nat, fuel: nat, v: u64)
    requires
        eval_spec(h, env, x, fuel).2 == Step::<Val>::Done(Val::Number(v)),
    ensures
        eval_spec(h, env, repeated(Op::Minus, x, n), fuel) == (
            eval_spec(h, env, x, fuel).0,
            eval_spec(h, env, x, fuel).1,
            Step::<Val>::Done(Val::Number(
                if n % 2 == 0 {
                    v
                } else {
                    negate(v)
                },
            )),
        ),
    decreases n,
{
    if n > 0 {
        minus_chain(h, env, x, (n - 1) as nat, fuel, v);
        assert(negate(negate(v)) == v) by (bit_vector);
    }
}

/// `!` applied `n` times to a boolean: an even count cancels out, an odd
/// count negates once.
pub proof fn bang_chain<H: Host>(h: H, env: Frames, x: AstNode, n: nat, fuel: nat, b: bool)
    requires
        eval_spec(h, env, x, fuel).2 == Step::<Val>::Done(Val::Boolean(b)),
    ensures
        eval_spec(h, env, repeated(Op::Bang, x, n), fuel) == (
            eval_spec(h, env, x, fuel).0,
            eval_spec(h, env, x, fuel).1,
            Step::<Val>::Done(Val::Boolean(
                if n % 2 == 0 {
                    b
                } else {
                    !b
                },
            )),
        ),
    decreases n,
{
    if n > 0 {
        bang_chain(h, env, x, (n - 1) as nat, fuel, b);
    }
}

proof fn lemma_innermost_above(env: Frames, k: Seq<u8>, i: int)
    requires
        innermost_with(env, k) < i < env.len(),
    ensures
        !env[i].contains_key(k),
    decreases env.len(),
{
    lemma_innermost_bounds(env, k);
    if !env.last().contains_key(k) && i < env.len() - 1 {
        lemma_innermost_above(env.drop_last(), k, i);
        assert(env.drop_last()[i] == env[i]);
    }
}

/// Characterises the innermost scope with `k` by what it holds and what the
/// scopes inside it lack.
proof fn lemma_innermost_is(env: Frames, k: Seq<u8>, j: int)
    requires
        0 <= j < env.len(),
        env[j].contains_key(k),
        forall|i: int| j < i < env.len() ==> !(#[trigger] env[i]).contains_key(k),
    ensures
        innermost_with(env, k) == j,
    decreases env.len(),
{
    if j < env.len() - 1 {
        assert(!env[env.len() - 1].contains_key(k));
        lemma_innermost_is(env.drop_last(), k, j);
    }
}

/// A `nonlocal` assignment in a nested block changes the outer binding, and
/// the block's end leaves the change in place.
pub proof fn nonlocal_assignment_reaches_outer_scope<H: Host>(
    h: H,
    env: Frames,
    block: AstNode,
    fuel: nat,
    v: Val,
)
    requires
        block is Program,
        block->Program_0@.len() == 1,
        block->Program_0@[0] is Assignment,
        block->Program_0@[0]->Assignment_nonlocal,
        lookup(env, block->Program_0@[0]->Assignment_identifier@) is Some,
        eval_spec(h, env.push(Map::empty()), *block->Program_0@[0]->Assignment_operand, fuel).1
            == env.push(Map::empty()),
        eval_spec(h, env.push(Map::empty()), *block->Program_0@[0]->Assignment_operand, fuel).2
            == Step::<Val>::Done(v),
    ensures
        ({
            let (h2, env2, r) = eval_spec(h, env, block, fuel);
            r == Step::<Val>::Done(Val::Nil) && env2.len() == env.len() && lookup(
                env2,
                block->Program_0@[0]->Assignment_identifier@,
            ) == Some(v)
        }),
{
    let s = block->Program_0@;
    let k = s[0]->Assignment_identifier@;
    let inner = env.push(Map::empty());
    let h1 = eval_spec(h, inner, s[0], fuel).0;
    lemma_innermost_bounds(env, k);
    let j = innermost_with(env, k);
    assert(!inner.last().contains_key(k));
    assert(inner.drop_last() =~= env);
    assert(innermost_with(inner, k) == j);
    let inner2 = assign_outer(inner, k, v);
    assert(eval_seq(h, inner, s, 0, fuel, Val::Nil) == eval_seq(h1, inner2, s, 1, fuel, Val::Nil));
    let env2 = inner2.drop_last();
    assert(env2 =~= env.update(j, env[j].insert(k, v)));
    assert forall|i: int| j < i < env2.len() implies !(#[trigger] env2[i]).contains_key(k) by {
        lemma_innermost_above(env, k, i);
    }
    lemma_innermost_is(env2, k, j);
}

/// A plain assignment in a nested block binds the name in that block only:
/// once the block ends, the scopes are as they were.
pub proof fn local_assignment_stays_in_block<H: Host>(
    h: H,
    env: Frames,
    block: AstNode,
    fuel: nat,
    v: Val,
)
    requires
        block is Program,
        block->Program_0@.len() == 1,
        block->Program_0@[0] is Assignment,
        !block->Program_0@[0]->Assignment_nonlocal,
        eval_spec(h, env.push(Map::empty()), *block->Program_0@[0]->Assignment_operand, fuel).1
            == env.push(Map::empty()),
        eval_spec(h, env.push(Map::empty()), *block->Program_0@[0]->Assignment_operand, fuel).2
            == Step::<Val>::Done(v),
    ensures
        ({
            let (h2, env2, r) = eval_spec(h, env, block, fuel);
            r == Step::<Val>::Done(Val::Nil) && env2 == env && lookup(
                env2,
                block->Program_0@[0]->Assignment_identifier@,
            ) == lookup(env, block->Program_0@[0]->Assignment_identifier@)
        }),
{
    let s = block->Program_0@;
    let k = s[0]->Assignment_identifier@;
    let inner = env.push(Map::empty());
    let h1 = eval_spec(h, inner, s[0], fuel).0;
    let inner2 = assign_local(inner, k, v);
    assert(eval_seq(h, inner, s, 0, fuel, Val::Nil) == eval_seq(h1, inner2, s, 1, fuel, Val::Nil));
    assert(inner2.drop_last() =~= env);
}

/// `and` and `or` evaluate both operands: once the left one has a value, the
/// host and the scopes end as the right one leaves them, and a failure on the
/// right is the result, whatever the left value was.
pub proof fn logical_operators_evaluate_both_sides<H: Host>(
    h: H,
    env: Frames,
    op: Op,
    lhs: AstNode,
    rhs: AstNode,
    fuel: nat,
)
    requires
        op == Op::And || op == Op::Or,
        eval_spec(h, env, lhs, fuel).2 is Done,
    ensures
        ({
            let (h1, env1, r1) = eval_spec(h, env, lhs, fuel);
            let (h2, env2, r2) = eval_spec(h1, env1, rhs, fuel);
            let whole = eval_spec(
                h,
                env,
                AstNode::BinaryExpr { operator: op, lhs: Box::new(lhs), rhs: Box::new(rhs) },
                fuel,
            );
            &&& whole.0 == h2
            &&& whole.1 == env2
            &&& r2 matches Step::Failed(k) ==> whole.2 == Step::<Val>::Failed(k)
        }),
{
}

/// An arithmetic, ordering or logical operator on operands of different
/// kinds is a binary type error.
pub proof fn mixed_operands_are_a_type_error<H: Host>(h: H, op: Op, x: Val, y: Val)
    requires
        op != Op::EqualEqual && op != Op::BangEqual,
        !(x is Number && y is Number),
        !(x is Boolean && y is Boolean),
        !(x is Str && y is Str),
    ensures
        binary_spec(h, op, x, y) == Step::<Val>::Failed(EvalError::BinaryType),
{
}

/// A name that no scope binds is an undefined-variable failure.
pub proof fn unbound_name_is_undefined<H: Host>(h: H, env: Frames, e: AstNode, fuel: nat)
    requires
        e is Identifier,
        lookup(env, e->Identifier_0@) is None,
    ensures
        eval_spec(h, env, e, fuel) == (h, env, Step::<Val>::Failed(EvalError::UndefinedVariable)),
{
}

} // verus!
