use crate::lexer::{copy_bytes, lemma_tokens_count, tokens_of, Lexer, Token, TokenKind, TokenView};
use vstd::prelude::*;
use vstd::string::StringSliceAdditionalSpecFns;

verus! {

/// Why a text could not be parsed; each carries the token at fault, or the
/// token that opened the construct that was left incomplete.
#[derive(Debug)]
pub enum ParseError {
    UnclosedGrouping(Token),
    UnexpectedToken(Token),
    UnexpectedEof,
    MissingColon(Token),
    MissingSemicolon(Token),
    FnCallMissingCloseParen(Token),
    MissingIdentifier(Token),
    MissingParen(Token),
    AssignmentMissingEqual(Token),
    UnterminatedString(Token),
}

/// A prefix or binary operator.
#[derive(Debug, Clone, Copy, PartialEq, Eq, Structural)]
pub enum Op {
    Bang,
    Star,
    Slash,
    Plus,
    Minus,
    Percent,
    Greater,
    GreaterEqual,
    Less,
    LessEqual,
    EqualEqual,
    BangEqual,
    And,
    Or,
}

/// The syntax tree. Number literals keep their text; strings and names are
/// bytes.
#[derive(Debug, PartialEq)]
pub enum AstNode {
    Program(Vec<AstNode>),
    ProgramRoot(Vec<AstNode>),
    Number(Vec<u8>),
    Boolean(bool),
    StringLiteral(Vec<u8>),
    Identifier(Vec<u8>),
    Nil,
    Grouping(Box<AstNode>),
    FnCall { identifier: Vec<u8>, args: Vec<AstNode> },
    RetStmt(Box<AstNode>),
    UnaryExpr { operator: Op, operand: Box<AstNode> },
    BinaryExpr { operator: Op, lhs: Box<AstNode>, rhs: Box<AstNode> },
    Assignment { identifier: Vec<u8>, operand: Box<AstNode>, nonlocal: bool },
    IfStmt {
        condition: Box<AstNode>,
        then_body: Box<AstNode>,
        else_body: Option<Box<AstNode>>,
    },
    WhileStmt { condition: Box<AstNode>, body: Box<AstNode> },
    FnStmt { identifier: Vec<u8>, params: Vec<Vec<u8>>, body: Box<AstNode> },
}

/// The operator that a token stands for, if any.
pub open spec fn op_of(k: TokenKind) -> Option<Op> {
    match k {
        TokenKind::Bang => Some(Op::Bang),
        TokenKind::Star => Some(Op::Star),
        TokenKind::Slash => Some(Op::Slash),
        TokenKind::Plus => Some(Op::Plus),
        TokenKind::Minus => Some(Op::Minus),
        TokenKind::Percent => Some(Op::Percent),
        TokenKind::Greater => Some(Op::Greater),
        TokenKind::GreaterEqual => Some(Op::GreaterEqual),
        TokenKind::Less => Some(Op::Less),
        TokenKind::LessEqual => Some(Op::LessEqual),
        TokenKind::EqualEqual => Some(Op::EqualEqual),
        TokenKind::BangEqual => Some(Op::BangEqual),
        TokenKind::And => Some(Op::And),
        TokenKind::Or => Some(Op::Or),
        _ => None,
    }
}

impl Op {
    /// The operator that a token stands for, if any.
    pub fn from_kind(k: &TokenKind) -> (r: Option<Op>)
        ensures
            r == op_of(*k),
    {
        match k {
            TokenKind::Bang => Some(Op::Bang),
            TokenKind::Star => Some(Op::Star),
            TokenKind::Slash => Some(Op::Slash),
            TokenKind::Plus => Some(Op::Plus),
            TokenKind::Minus => Some(Op::Minus),
            TokenKind::Percent => Some(Op::Percent),
            TokenKind::Greater => Some(Op::Greater),
            TokenKind::GreaterEqual => Some(Op::GreaterEqual),
            TokenKind::Less => Some(Op::Less),
            TokenKind::LessEqual => Some(Op::LessEqual),
            TokenKind::EqualEqual => Some(Op::EqualEqual),
            TokenKind::BangEqual => Some(Op::BangEqual),
            TokenKind::And => Some(Op::And),
            TokenKind::Or => Some(Op::Or),
            _ => None,
        }
    }
}

/// The grammar's rules, from the tightest binding to the loosest.
#[derive(Clone, Copy, PartialEq, Eq, Structural)]
pub enum Rule {
    Primary,
    Unary,
    Product,
    Sum,
    Remainder,
    Comparison,
    Equality,
    Conjunction,
    Disjunction,
    Statement,
    Block,
}

pub open spec fn rank(r: Rule) -> nat {
    match r {
        Rule::Primary => 0,
        Rule::Unary => 1,
        Rule::Product => 2,
        Rule::Sum => 3,
        Rule::Remainder => 4,
        Rule::Comparison => 5,
        Rule::Equality => 6,
        Rule::Conjunction => 7,
        Rule::Disjunction => 8,
        Rule::Statement => 9,
        Rule::Block => 10,
    }
}

/// The rules of binary operators.
pub open spec fn is_binary_rule(r: Rule) -> bool {
    2 <= rank(r) <= 8
}

/// The rule just below a binary rule: what its operands are.
pub open spec fn operand_rule(r: Rule) -> Rule {
    match r {
        Rule::Product => Rule::Unary,
        Rule::Sum => Rule::Product,
        Rule::Remainder => Rule::Sum,
        Rule::Comparison => Rule::Remainder,
        Rule::Equality => Rule::Comparison,
        Rule::Conjunction => Rule::Equality,
        _ => Rule::Conjunction,
    }
}

/// The binary rule that an operator belongs to.
pub open spec fn rule_of(op: Op) -> Rule {
    match op {
        Op::Star | Op::Slash => Rule::Product,
        Op::Plus | Op::Minus => Rule::Sum,
        Op::Percent => Rule::Remainder,
        Op::Greater | Op::GreaterEqual | Op::Less | Op::LessEqual => Rule::Comparison,
        Op::EqualEqual | Op::BangEqual => Rule::Equality,
        Op::And => Rule::Conjunction,
        Op::Or => Rule::Disjunction,
        Op::Bang => Rule::Unary,
    }
}

/// Equality and comparison apply once; the other binary operators chain to
/// the left.
pub open spec fn chains(r: Rule) -> bool {
    r != Rule::Equality && r != Rule::Comparison
}

/// What the left operand of a binary rule is read by.
pub open spec fn left_rule(r: Rule) -> Rule {
    if chains(r) {
        r
    } else {
        operand_rule(r)
    }
}

/// The statements that end on their own, without a comma after them.
pub open spec fn is_special(s: AstNode) -> bool {
    match s {
        AstNode::IfStmt { .. } => true,
        AstNode::WhileStmt { .. } => true,
        AstNode::FnStmt { .. } => true,
        AstNode::RetStmt(_) => true,
        AstNode::Assignment { nonlocal, .. } => nonlocal,
        _ => false,
    }
}

pub open spec fn kind_at(ts: Seq<TokenView>, i: int) -> Option<TokenKind> {
    if 0 <= i < ts.len() {
        Some(ts[i].kind)
    } else {
        None
    }
}

pub open spec fn op_at(ts: Seq<TokenView>, i: int) -> Option<Op> {
    match kind_at(ts, i) {
        Some(k) => op_of(k),
        None => None,
    }
}

/// Where the parameter names `ps`, separated by commas, end when they start
/// at `a`; `None` when the tokens there are not those names.
pub open spec fn reads_params(ts: Seq<TokenView>, a: int, ps: Seq<Vec<u8>>) -> Option<int>
    decreases ps.len(),
{
    if ps.len() == 0 {
        Some(a)
    } else {
        let start = if ps.len() == 1 {
            Some(a)
        } else {
            match reads_params(ts, a, ps.subrange(0, ps.len() - 1)) {
                Some(m) => if kind_at(ts, m) == Some(TokenKind::Comma) {
                    Some(m + 1)
                } else {
                    None
                },
                None => None,
            }
        };
        match start {
            Some(i) => if kind_at(ts, i) == Some(TokenKind::Identifier) && ts[i].text
                == ps[ps.len() - 1]@ {
                Some(i + 1)
            } else {
                None
            },
            None => None,
        }
    }
}

/// The statements that end with an expression and no closing token.
pub open spec fn ends_open(s: AstNode) -> bool {
    s is RetStmt || (s is Assignment && s->Assignment_nonlocal)
}

/// Where the next statement starts after one that ended at `m`: right there
/// after a statement that closes itself, after a comma otherwise. An
/// expression takes every `-` that follows it, so no statement after one
/// that ends with an expression starts with `-`.
pub open spec fn next_start(ts: Seq<TokenView>, m: int, prev: AstNode) -> Option<int> {
    if is_special(prev) {
        if ends_open(prev) && kind_at(ts, m) == Some(TokenKind::Minus) {
            None
        } else {
            Some(m)
        }
    } else if kind_at(ts, m) == Some(TokenKind::Comma) {
        Some(m + 1)
    } else {
        None
    }
}

/// Where the list `s` ends when it starts at `a`: statements when
/// `statements` (the end of the last one, before any comma after it), else
/// call arguments separated by commas.
pub open spec fn reads_list(ts: Seq<TokenView>, a: int, s: Seq<AstNode>, statements: bool) -> Option<
    int,
>
    decreases s, 0nat,
{
    if !(0 <= a <= ts.len()) {
        None
    } else if s.len() == 0 {
        Some(a)
    } else {
        let start = if s.len() == 1 {
            Some(a)
        } else {
            match reads_list(ts, a, s.subrange(0, s.len() - 1), statements) {
                Some(m) => if statements {
                    next_start(ts, m, s[s.len() - 2])
                } else if kind_at(ts, m) == Some(TokenKind::Comma) {
                    Some(m + 1)
                } else {
                    None
                },
                None => None,
            }
        };
        match start {
            Some(i) => reads(
                ts,
                if statements {
                    Rule::Statement
                } else {
                    Rule::Disjunction
                },
                i,
                s[s.len() - 1],
            ),
            None => None,
        }
    }
}

/// Where a block of statements ends: a comma right after a last statement
/// that needs one is part of the block.
pub open spec fn block_end(ts: Seq<TokenView>, n: int, s: Seq<AstNode>) -> int {
    if s.len() > 0 && !is_special(s[s.len() - 1]) && kind_at(ts, n) == Some(TokenKind::Comma) {
        n + 1
    } else {
        n
    }
}

/// Whether a block whose statements end at `n` may end there: after an
/// expression with no comma it ends whatever comes next; otherwise it would
/// go on with another statement, and ends only at a `;` or at the end of the
/// text.
pub open spec fn block_closes(ts: Seq<TokenView>, n: int, s: Seq<AstNode>) -> bool {
    let open = s.len() == 0 || is_special(s[s.len() - 1]) || kind_at(ts, n) == Some(
        TokenKind::Comma,
    );
    let end = block_end(ts, n, s);
    !open || kind_at(ts, end) is None || kind_at(ts, end) == Some(TokenKind::Semicolon)
}

/// The statements `s` spell all of the tokens `ts`.
pub open spec fn spells_program(ts: Seq<TokenView>, s: Seq<AstNode>) -> bool {
    reads_list(ts, 0, s, true) matches Some(n) && block_end(ts, n, s) == ts.len() && block_closes(
        ts,
        n,
        s,
    )
}

/// Whether the parser, having read `e` by rule `r`, would go on with the
/// binary operator `op` that follows it.
pub open spec fn extends(r: Rule, e: AstNode, op: Op) -> bool
    decreases e, rank(r),
{
    if op == Op::Bang {
        false
    } else {
        match r {
            Rule::Primary => match e {
                AstNode::Assignment { operand, nonlocal, .. } => !nonlocal && extends(
                    Rule::Disjunction,
                    *operand,
                    op,
                ),
                _ => false,
            },
            Rule::Unary => match e {
                AstNode::UnaryExpr { operand, .. } => extends(Rule::Unary, *operand, op),
                _ => extends(Rule::Primary, e, op),
            },
            Rule::Statement | Rule::Block => false,
            _ => match e {
                AstNode::BinaryExpr { operator, rhs, .. } => if rule_of(operator) == r {
                    (rule_of(op) == r && chains(r)) || extends(operand_rule(r), *rhs, op)
                } else {
                    rule_of(op) == r || extends(operand_rule(r), e, op)
                },
                _ => rule_of(op) == r || extends(operand_rule(r), e, op),
            },
        }
    }
}

/// Whether the token at `b` is an operator that would extend `e`, read by
/// rule `r`.
pub open spec fn extends_at(ts: Seq<TokenView>, b: int, r: Rule, e: AstNode) -> bool {
    match op_at(ts, b) {
        Some(o) => extends(r, e, o),
        None => false,
    }
}

/// Where the tokens that spell `e` by rule `r` end, when they start at `a`;
/// `None` when the tokens there do not spell `e`.
pub open spec fn reads(ts: Seq<TokenView>, r: Rule, a: int, e: AstNode) -> Option<int>
    decreases e, rank(r),
{
    if !(0 <= a <= ts.len()) {
        None
    } else {
        match r {
            Rule::Primary => match e {
                AstNode::Number(t) => if kind_at(ts, a) == Some(TokenKind::Number) && t@
                    == ts[a].text {
                    Some(a + 1)
                } else {
                    None
                },
                AstNode::Boolean(v) => if kind_at(ts, a) == Some(TokenKind::Boolean(v)) {
                    Some(a + 1)
                } else {
                    None
                },
                AstNode::StringLiteral(t) => if kind_at(ts, a) == Some(TokenKind::StringLiteral)
                    && t@ == ts[a].text {
                    Some(a + 1)
                } else {
                    None
                },
                AstNode::Nil => if kind_at(ts, a) == Some(TokenKind::Nil) {
                    Some(a + 1)
                } else {
                    None
                },
                AstNode::Identifier(t) => if kind_at(ts, a) == Some(TokenKind::Identifier) && t@
                    == ts[a].text && kind_at(ts, a + 1) != Some(TokenKind::OpenParen) && kind_at(
                    ts,
                    a + 1,
                ) != Some(TokenKind::Equal) {
                    Some(a + 1)
                } else {
                    None
                },
                AstNode::Grouping(inner) => if kind_at(ts, a) == Some(TokenKind::OpenParen) {
                    match reads(ts, Rule::Disjunction, a + 1, *inner) {
                        Some(m) => if kind_at(ts, m) == Some(TokenKind::CloseParen) {
                            Some(m + 1)
                        } else {
                            None
                        },
                        None => None,
                    }
                } else {
                    None
                },
                AstNode::Assignment { identifier, operand, nonlocal } => if !nonlocal && kind_at(
                    ts,
                    a,
                ) == Some(TokenKind::Identifier) && identifier@ == ts[a].text && kind_at(ts, a + 1)
                    == Some(TokenKind::Equal) {
                    match reads(ts, Rule::Disjunction, a + 2, *operand) {
                        Some(b) => if extends_at(ts, b, Rule::Disjunction, *operand) {
                            None
                        } else {
                            Some(b)
                        },
                        None => None,
                    }
                } else {
                    None
                },
                AstNode::FnCall { identifier, args } => if kind_at(ts, a) == Some(
                    TokenKind::Identifier,
                ) && identifier@ == ts[a].text && kind_at(ts, a + 1) == Some(TokenKind::OpenParen) {
                    match reads_list(ts, a + 2, args@, false) {
                        Some(m) => if kind_at(ts, m) == Some(TokenKind::CloseParen) {
                            Some(m + 1)
                        } else {
                            None
                        },
                        None => None,
                    }
                } else {
                    None
                },
                _ => None,
            },
            Rule::Unary => match e {
                AstNode::UnaryExpr { operator, operand } => if (operator == Op::Bang || operator
                    == Op::Minus) && op_at(ts, a) == Some(operator) {
                    reads(ts, Rule::Unary, a + 1, *operand)
                } else {
                    None
                },
                _ => reads(ts, Rule::Primary, a, e),
            },
            Rule::Statement => match e {
                AstNode::IfStmt { condition, then_body, else_body } => if kind_at(ts, a) == Some(
                    TokenKind::If,
                ) {
                    match reads(ts, Rule::Disjunction, a + 1, *condition) {
                        Some(m) => if kind_at(ts, m) == Some(TokenKind::Colon) {
                            match reads(ts, Rule::Block, m + 1, *then_body) {
                                Some(n) => match else_body {
                                    Some(eb) => if kind_at(ts, n) == Some(TokenKind::Else) {
                                        match reads(ts, Rule::Block, n + 1, *eb) {
                                            Some(q) => if kind_at(ts, q) == Some(
                                                TokenKind::Semicolon,
                                            ) {
                                                Some(q + 1)
                                            } else {
                                                None
                                            },
                                            None => None,
                                        }
                                    } else {
                                        None
                                    },
                                    None => if kind_at(ts, n) == Some(TokenKind::Semicolon) {
                                        Some(n + 1)
                                    } else {
                                        None
                                    },
                                },
                                None => None,
                            }
                        } else {
                            None
                        },
                        None => None,
                    }
                } else {
                    None
                },
                AstNode::WhileStmt { condition, body } => if kind_at(ts, a) == Some(
                    TokenKind::While,
                ) {
                    match reads(ts, Rule::Disjunction, a + 1, *condition) {
                        Some(m) => if kind_at(ts, m) == Some(TokenKind::Colon) {
                            match reads(ts, Rule::Block, m + 1, *body) {
                                Some(n) => if kind_at(ts, n) == Some(TokenKind::Semicolon) {
                                    Some(n + 1)
                                } else {
                                    None
                                },
                                None => None,
                            }
                        } else {
                            None
                        },
                        None => None,
                    }
                } else {
                    None
                },
                AstNode::FnStmt { identifier, params, body } => if kind_at(ts, a) == Some(
                    TokenKind::Fn,
                ) && kind_at(ts, a + 1) == Some(TokenKind::Identifier) && ts[a + 1].text
                    == identifier@ && kind_at(ts, a + 2) == Some(TokenKind::OpenParen) {
                    match reads_params(ts, a + 3, params@) {
                        Some(m) => if kind_at(ts, m) == Some(TokenKind::CloseParen) && kind_at(
                            ts,
                            m + 1,
                        ) == Some(TokenKind::Colon) {
                            match reads(ts, Rule::Block, m + 2, *body) {
                                Some(n) => if kind_at(ts, n) == Some(TokenKind::Semicolon) {
                                    Some(n + 1)
                                } else {
                                    None
                                },
                                None => None,
                            }
                        } else {
                            None
                        },
                        None => None,
                    }
                } else {
                    None
                },
                AstNode::RetStmt(x) => if kind_at(ts, a) == Some(TokenKind::Ret) {
                    reads(ts, Rule::Disjunction, a + 1, *x)
                } else {
                    None
                },
                AstNode::Assignment { identifier, operand, nonlocal } => if nonlocal {
                    if kind_at(ts, a) == Some(TokenKind::Nonlocal) && kind_at(ts, a + 1) == Some(
                        TokenKind::Identifier,
                    ) && identifier@ == ts[a + 1].text && kind_at(ts, a + 2) == Some(
                        TokenKind::Equal,
                    ) {
                        reads(ts, Rule::Disjunction, a + 3, *operand)
                    } else {
                        None
                    }
                } else {
                    reads(ts, Rule::Disjunction, a, e)
                },
                _ => reads(ts, Rule::Disjunction, a, e),
            },
            Rule::Block => match e {
                AstNode::Program(s) => match reads_list(ts, a, s@, true) {
                    Some(n) => if block_closes(ts, n, s@) {
                        Some(block_end(ts, n, s@))
                    } else {
                        None
                    },
                    None => None,
                },
                _ => None,
            },
            _ => match e {
                AstNode::BinaryExpr { operator, lhs, rhs } => if rule_of(operator) == r {
                    match reads(ts, left_rule(r), a, *lhs) {
                        Some(m) => if op_at(ts, m) == Some(operator) {
                            reads(ts, operand_rule(r), m + 1, *rhs)
                        } else {
                            None
                        },
                        None => None,
                    }
                } else {
                    reads(ts, operand_rule(r), a, e)
                },
                _ => reads(ts, operand_rule(r), a, e),
            },
        }
    }
}


/// Why the parser stops, as a kind and the index of the token it carries.
pub enum Fault {
    UnclosedGrouping(int),
    UnexpectedToken(int),
    UnexpectedEof,
    MissingColon(int),
    MissingSemicolon(int),
    FnCallMissingCloseParen(int),
    MissingIdentifier(int),
    MissingParen(int),
    AssignmentMissingEqual(int),
    UnterminatedString(int),
}

/// The error `e` is the fault `f`, carrying the token `f` names.
pub open spec fn fault_is(ts: Seq<TokenView>, e: ParseError, f: Fault) -> bool {
    match (e, f) {
        (ParseError::UnclosedGrouping(t), Fault::UnclosedGrouping(i)) => 0 <= i < ts.len() && t@ == ts[i],
        (ParseError::UnexpectedToken(t), Fault::UnexpectedToken(i)) => 0 <= i < ts.len() && t@ == ts[i],
        (ParseError::UnexpectedEof, Fault::UnexpectedEof) => true,
        (ParseError::MissingColon(t), Fault::MissingColon(i)) => 0 <= i < ts.len() && t@ == ts[i],
        (ParseError::MissingSemicolon(t), Fault::MissingSemicolon(i)) => 0 <= i < ts.len() && t@ == ts[i],
        (ParseError::FnCallMissingCloseParen(t), Fault::FnCallMissingCloseParen(i)) => 0 <= i < ts.len() && t@ == ts[i],
        (ParseError::MissingIdentifier(t), Fault::MissingIdentifier(i)) => 0 <= i < ts.len() && t@ == ts[i],
        (ParseError::MissingParen(t), Fault::MissingParen(i)) => 0 <= i < ts.len() && t@ == ts[i],
        (ParseError::AssignmentMissingEqual(t), Fault::AssignmentMissingEqual(i)) => 0 <= i < ts.len() && t@ == ts[i],
        (ParseError::UnterminatedString(t), Fault::UnterminatedString(i)) => 0 <= i < ts.len() && t@ == ts[i],
        _ => false,
    }
}

/// A parser's result agrees with what the recognizer says: the same end, or
/// the same fault.
pub open spec fn agrees<T>(ts: Seq<TokenView>, r: Result<(T, usize), ParseError>, s: Result<int, Fault>) -> bool {
    match (r, s) {
        (Ok((_, end)), Ok(b)) => end == b,
        (Err(e), Err(f)) => fault_is(ts, e, f),
        _ => false,
    }
}

/// Whether `p` is a position strictly after `a` within the tokens.
pub open spec fn after(ts: Seq<TokenView>, a: int, p: int) -> bool {
    a < p <= ts.len()
}

/// Where a primary starting at `pos` ends, or why it cannot be read: what the
/// parser decides, token by token, without building the tree.
pub open spec fn rec_primary(ts: Seq<TokenView>, pos: int) -> Result<int, Fault>
    decreases ts.len() - pos, 1nat,
{
    if !(0 <= pos < ts.len()) {
        Err(Fault::UnexpectedEof)
    } else {
        match ts[pos].kind {
            TokenKind::Number | TokenKind::Boolean(_) | TokenKind::StringLiteral | TokenKind::Nil => Ok(pos + 1),
            TokenKind::Identifier => rec_identifier(ts, pos),
            TokenKind::OpenParen => rec_grouping(ts, pos),
            TokenKind::UnterminatedString => Err(Fault::UnterminatedString(pos)),
            _ => Err(Fault::UnexpectedToken(pos)),
        }
    }
}

pub open spec fn rec_identifier(ts: Seq<TokenView>, pos: int) -> Result<int, Fault>
    decreases ts.len() - pos, 0nat,
{
    if !(0 <= pos < ts.len()) {
        Err(Fault::UnexpectedEof)
    } else if kind_at(ts, pos + 1) == Some(TokenKind::OpenParen) {
        if kind_at(ts, pos + 2) == Some(TokenKind::CloseParen) {
            Ok(pos + 3)
        } else if pos + 2 >= ts.len() {
            Err(Fault::FnCallMissingCloseParen(pos))
        } else {
            match rec_expr(ts, pos + 2) {
                Ok(p) => if after(ts, pos + 2, p) {
                    rec_args(ts, pos, p)
                } else {
                    Err(Fault::UnexpectedEof)
                },
                Err(f) => Err(f),
            }
        }
    } else if kind_at(ts, pos + 1) == Some(TokenKind::Equal) {
        rec_expr(ts, pos + 2)
    } else {
        Ok(pos + 1)
    }
}

/// The rest of a call's arguments, after one that ended at `p`.
pub open spec fn rec_args(ts: Seq<TokenView>, at: int, p: int) -> Result<int, Fault>
    decreases ts.len() - p, 0nat,
{
    if !(0 <= p <= ts.len()) {
        Err(Fault::UnexpectedEof)
    } else if kind_at(ts, p) == Some(TokenKind::Comma) {
        match rec_expr(ts, p + 1) {
            Ok(p2) => if after(ts, p + 1, p2) {
                rec_args(ts, at, p2)
            } else {
                Err(Fault::UnexpectedEof)
            },
            Err(f) => Err(f),
        }
    } else if kind_at(ts, p) == Some(TokenKind::CloseParen) {
        Ok(p + 1)
    } else {
        Err(Fault::FnCallMissingCloseParen(at))
    }
}

pub open spec fn rec_grouping(ts: Seq<TokenView>, pos: int) -> Result<int, Fault>
    decreases ts.len() - pos, 0nat,
{
    if !(0 <= pos < ts.len()) {
        Err(Fault::UnexpectedEof)
    } else {
        match rec_expr(ts, pos + 1) {
            Ok(p) => if kind_at(ts, p) == Some(TokenKind::CloseParen) {
                Ok(p + 1)
            } else {
                Err(Fault::UnclosedGrouping(pos))
            },
            Err(f) => Err(f),
        }
    }
}

pub open spec fn rec_unary(ts: Seq<TokenView>, pos: int) -> Result<int, Fault>
    decreases ts.len() - pos, 2nat,
{
    if !(0 <= pos <= ts.len()) {
        Err(Fault::UnexpectedEof)
    } else if kind_at(ts, pos) == Some(TokenKind::Bang) || kind_at(ts, pos) == Some(TokenKind::Minus) {
        rec_unary(ts, pos + 1)
    } else {
        rec_primary(ts, pos)
    }
}

pub open spec fn rec_rule(ts: Seq<TokenView>, pos: int, r: Rule) -> Result<int, Fault>
    decreases ts.len() - pos, rank(r) + 2,
{
    if !(0 <= pos <= ts.len()) || !(1 <= rank(r) <= 8) {
        Err(Fault::UnexpectedEof)
    } else if r == Rule::Unary {
        rec_unary(ts, pos)
    } else {
        match rec_rule(ts, pos, operand_rule(r)) {
            Ok(p) => if after(ts, pos, p) {
                rec_chain(ts, r, p, true)
            } else {
                Err(Fault::UnexpectedEof)
            },
            Err(f) => Err(f),
        }
    }
}

/// The rest of a chain of rule `r`'s operators after an operand that ended at
/// `p`; `first` when no operator of `r` has been applied yet.
pub open spec fn rec_chain(ts: Seq<TokenView>, r: Rule, p: int, first: bool) -> Result<int, Fault>
    decreases ts.len() - p, 0nat,
{
    if !(0 <= p <= ts.len()) || !is_binary_rule(r) {
        Err(Fault::UnexpectedEof)
    } else if !first && !chains(r) {
        Ok(p)
    } else {
        match op_at(ts, p) {
            Some(op) => if rule_of(op) == r {
                match rec_rule(ts, p + 1, operand_rule(r)) {
                    Ok(p2) => if after(ts, p + 1, p2) {
                        rec_chain(ts, r, p2, false)
                    } else {
                        Err(Fault::UnexpectedEof)
                    },
                    Err(f) => Err(f),
                }
            } else {
                Ok(p)
            },
            None => Ok(p),
        }
    }
}

pub open spec fn rec_expr(ts: Seq<TokenView>, pos: int) -> Result<int, Fault>
    decreases ts.len() - pos, 11nat,
{
    rec_rule(ts, pos, Rule::Disjunction)
}

/// The statements of a block from `p` on.
pub open spec fn rec_stmts(ts: Seq<TokenView>, p: int) -> Result<int, Fault>
    decreases ts.len() - p, 13nat,
{
    if !(0 <= p <= ts.len()) {
        Err(Fault::UnexpectedEof)
    } else {
        match kind_at(ts, p) {
            None => Ok(p),
            Some(TokenKind::Semicolon) => Ok(p),
            Some(k) if starts_special(k) => rec_stmts_after(ts, p, rec_special(ts, p)),
            _ => match rec_expr(ts, p) {
                Ok(p2) => if !after(ts, p, p2) {
                    Err(Fault::UnexpectedEof)
                } else if kind_at(ts, p2) == Some(TokenKind::Comma) {
                    rec_stmts(ts, p2 + 1)
                } else {
                    Ok(p2)
                },
                Err(f) => Err(f),
            },
        }
    }
}

/// The tokens that begin a statement that closes itself.
pub open spec fn starts_special(k: TokenKind) -> bool {
    k == TokenKind::If || k == TokenKind::While || k == TokenKind::Fn || k == TokenKind::Ret || k
        == TokenKind::Nonlocal
}

/// Where a statement that closes itself ends, from its first token at `at`.
pub open spec fn rec_special(ts: Seq<TokenView>, at: int) -> Result<int, Fault>
    decreases ts.len() - at, 12nat,
{
    if !(0 <= at < ts.len()) {
        Err(Fault::UnexpectedEof)
    } else {
        match kind_at(ts, at) {
            Some(TokenKind::If) => rec_if(ts, at),
            Some(TokenKind::While) => rec_while(ts, at),
            Some(TokenKind::Fn) => rec_fn(ts, at),
            Some(TokenKind::Ret) => rec_expr(ts, at + 1),
            Some(TokenKind::Nonlocal) => if kind_at(ts, at + 1) != Some(TokenKind::Identifier) {
                Err(Fault::MissingIdentifier(at))
            } else if kind_at(ts, at + 2) != Some(TokenKind::Equal) {
                Err(Fault::AssignmentMissingEqual(at))
            } else {
                rec_expr(ts, at + 3)
            },
            _ => Err(Fault::UnexpectedEof),
        }
    }
}

/// Goes on with the block after a statement that closes itself.
pub open spec fn rec_stmts_after(ts: Seq<TokenView>, p: int, r: Result<int, Fault>) -> Result<int, Fault>
    decreases ts.len() - p, 12nat,
{
    match r {
        Ok(p2) => if after(ts, p, p2) && 0 <= p {
            rec_stmts(ts, p2)
        } else {
            Err(Fault::UnexpectedEof)
        },
        Err(f) => Err(f),
    }
}

pub open spec fn rec_if(ts: Seq<TokenView>, at: int) -> Result<int, Fault>
    decreases ts.len() - at, 11nat,
{
    if !(0 <= at < ts.len()) {
        Err(Fault::UnexpectedEof)
    } else {
        match rec_expr(ts, at + 1) {
            Ok(m) => if !after(ts, at, m) {
                Err(Fault::UnexpectedEof)
            } else if kind_at(ts, m) != Some(TokenKind::Colon) {
                Err(Fault::MissingColon(at))
            } else {
                match rec_stmts(ts, m + 1) {
                    Ok(n) => if !(m < n <= ts.len()) {
                        Err(Fault::UnexpectedEof)
                    } else if kind_at(ts, n) == Some(TokenKind::Else) {
                        match rec_stmts(ts, n + 1) {
                            Ok(q) => if kind_at(ts, q) != Some(TokenKind::Semicolon) {
                                Err(Fault::MissingSemicolon(at))
                            } else {
                                Ok(q + 1)
                            },
                            Err(f) => Err(f),
                        }
                    } else if kind_at(ts, n) == Some(TokenKind::Semicolon) {
                        Ok(n + 1)
                    } else {
                        Err(Fault::MissingSemicolon(at))
                    },
                    Err(f) => Err(f),
                }
            },
            Err(f) => Err(f),
        }
    }
}

pub open spec fn rec_while(ts: Seq<TokenView>, at: int) -> Result<int, Fault>
    decreases ts.len() - at, 11nat,
{
    if !(0 <= at < ts.len()) {
        Err(Fault::UnexpectedEof)
    } else {
        match rec_expr(ts, at + 1) {
            Ok(m) => if !after(ts, at, m) {
                Err(Fault::UnexpectedEof)
            } else if kind_at(ts, m) != Some(TokenKind::Colon) {
                Err(Fault::MissingColon(at))
            } else {
                match rec_stmts(ts, m + 1) {
                    Ok(n) => if kind_at(ts, n) != Some(TokenKind::Semicolon) {
                        Err(Fault::MissingSemicolon(at))
                    } else {
                        Ok(n + 1)
                    },
                    Err(f) => Err(f),
                }
            },
            Err(f) => Err(f),
        }
    }
}

pub open spec fn rec_fn(ts: Seq<TokenView>, at: int) -> Result<int, Fault>
    decreases ts.len() - at, 11nat,
{
    if !(0 <= at < ts.len()) {
        Err(Fault::UnexpectedEof)
    } else if kind_at(ts, at + 1) != Some(TokenKind::Identifier) {
        Err(Fault::MissingIdentifier(at))
    } else if kind_at(ts, at + 2) != Some(TokenKind::OpenParen) {
        Err(Fault::MissingParen(at))
    } else if kind_at(ts, at + 3) == Some(TokenKind::Identifier) {
        rec_params(ts, at, at + 4)
    } else {
        rec_fn_rest(ts, at, at + 3)
    }
}

/// The rest of the parameter list after a name that ended at `p`.
pub open spec fn rec_params(ts: Seq<TokenView>, at: int, p: int) -> Result<int, Fault>
    decreases ts.len() - p, 1nat,
{
    if !(0 <= at < p <= ts.len()) {
        Err(Fault::UnexpectedEof)
    } else if kind_at(ts, p) != Some(TokenKind::Comma) {
        rec_fn_rest(ts, at, p)
    } else if kind_at(ts, p + 1) != Some(TokenKind::Identifier) {
        Err(Fault::MissingIdentifier(at))
    } else {
        rec_params(ts, at, p + 2)
    }
}

/// After the parameters, which ended at `p`: `) : BLOCK ;`.
pub open spec fn rec_fn_rest(ts: Seq<TokenView>, at: int, p: int) -> Result<int, Fault>
    decreases ts.len() - p, 0nat,
{
    if !(0 <= at < p <= ts.len()) {
        Err(Fault::UnexpectedEof)
    } else if kind_at(ts, p) != Some(TokenKind::CloseParen) {
        Err(Fault::MissingParen(at))
    } else if kind_at(ts, p + 1) != Some(TokenKind::Colon) {
        Err(Fault::MissingColon(at))
    } else {
        match rec_stmts(ts, p + 2) {
            Ok(n) => if kind_at(ts, n) != Some(TokenKind::Semicolon) {
                Err(Fault::MissingSemicolon(at))
            } else {
                Ok(n + 1)
            },
            Err(f) => Err(f),
        }
    }
}

/// What reading all of the tokens as a program comes to.
pub open spec fn rec_checked(ts: Seq<TokenView>) -> Result<int, Fault> {
    match rec_stmts(ts, 0) {
        Ok(end) => if end < ts.len() {
            Err(Fault::UnexpectedToken(end))
        } else {
            Ok(end)
        },
        Err(f) => Err(f),
    }
}

/// A binary operator read at or below rule `r` belongs to that rule or a
/// tighter one.
proof fn lemma_binary_rank(ts: Seq<TokenView>, r: Rule, a: int, e: AstNode)
    requires
        rank(r) <= 8,
        reads(ts, r, a, e) is Some,
        e is BinaryExpr,
    ensures
        rank(rule_of(e->BinaryExpr_operator)) <= rank(r),
        is_binary_rule(rule_of(e->BinaryExpr_operator)),
    decreases rank(r),
{
    if r == Rule::Unary {
        assert(reads(ts, Rule::Primary, a, e) is Some);
    } else if is_binary_rule(r) && rule_of(e->BinaryExpr_operator) != r {
        lemma_binary_rank(ts, operand_rule(r), a, e);
    }
}

/// What a binary rule's operand rule reads, the rule reads the same way.
proof fn lemma_lift(ts: Seq<TokenView>, r: Rule, a: int, e: AstNode)
    requires
        is_binary_rule(r),
        reads(ts, operand_rule(r), a, e) is Some,
    ensures
        reads(ts, r, a, e) == reads(ts, operand_rule(r), a, e),
{
    if e is BinaryExpr {
        lemma_binary_rank(ts, operand_rule(r), a, e);
    }
}

/// Expressions are never statements of their own kind.
proof fn lemma_expression_shape(ts: Seq<TokenView>, r: Rule, a: int, e: AstNode)
    requires
        rank(r) <= 8,
        reads(ts, r, a, e) is Some,
    ensures
        !is_special(e),
        !(e is Program),
        !(e is ProgramRoot),
    decreases rank(r),
{
    if r == Rule::Unary {
        if !(e is UnaryExpr) {
            lemma_expression_shape(ts, Rule::Primary, a, e);
        }
    } else if is_binary_rule(r) {
        if !(e is BinaryExpr) || rule_of(e->BinaryExpr_operator) != r {
            lemma_expression_shape(ts, operand_rule(r), a, e);
        }
    }
}

/// An expression is a statement too.
proof fn lemma_statement(ts: Seq<TokenView>, a: int, e: AstNode)
    requires
        reads(ts, Rule::Disjunction, a, e) is Some,
    ensures
        reads(ts, Rule::Statement, a, e) == reads(ts, Rule::Disjunction, a, e),
{
    lemma_expression_shape(ts, Rule::Disjunction, a, e);
}

/// Where a list that gains one more item ends.
proof fn lemma_push_list(
    ts: Seq<TokenView>,
    a: int,
    s: Seq<AstNode>,
    x: AstNode,
    statements: bool,
    i: int,
)
    requires
        s.len() == 0 ==> i == a,
        s.len() > 0 ==> (reads_list(ts, a, s, statements) matches Some(m) && if statements {
            next_start(ts, m, s[s.len() - 1]) == Some(i)
        } else {
            kind_at(ts, m) == Some(TokenKind::Comma) && i == m + 1
        }),
    ensures
        reads_list(ts, a, s.push(x), statements) == reads(
            ts,
            if statements {
                Rule::Statement
            } else {
                Rule::Disjunction
            },
            i,
            x,
        ),
{
    let t = s.push(x);
    assert(t.subrange(0, t.len() - 1) =~= s);
    assert(t[t.len() - 1] == x);
    if s.len() > 0 {
        assert(t[t.len() - 2] == s[s.len() - 1]);
    }
}

/// Where a parameter list that gains one more name ends.
proof fn lemma_push_param(ts: Seq<TokenView>, a: int, ps: Seq<Vec<u8>>, x: Vec<u8>, i: int)
    requires
        ps.len() == 0 ==> i == a,
        ps.len() > 0 ==> (reads_params(ts, a, ps) matches Some(m) && kind_at(ts, m) == Some(
            TokenKind::Comma,
        ) && i == m + 1),
        kind_at(ts, i) == Some(TokenKind::Identifier),
        ts[i].text == x@,
    ensures
        reads_params(ts, a, ps.push(x)) == Some(i + 1),
{
    let t = ps.push(x);
    assert(t.subrange(0, t.len() - 1) =~= ps);
    assert(t[t.len() - 1] == x);
}

/// The tokens that can begin an expression.
pub open spec fn starts_expr(k: TokenKind) -> bool {
    match k {
        TokenKind::Number | TokenKind::Boolean(_) | TokenKind::StringLiteral | TokenKind::Nil
        | TokenKind::Identifier | TokenKind::OpenParen | TokenKind::Bang | TokenKind::Minus => true,
        _ => false,
    }
}

/// What is read ends after where it starts, within the tokens; a block may
/// be empty.
proof fn lemma_reads_bounds(ts: Seq<TokenView>, r: Rule, a: int, e: AstNode)
    requires
        reads(ts, r, a, e) is Some,
    ensures
        r != Rule::Block ==> a < reads(ts, r, a, e)->0,
        a <= reads(ts, r, a, e)->0 <= ts.len(),
    decreases e, rank(r), 1nat,
{
    match r {
        Rule::Primary => match e {
            AstNode::Grouping(x) => lemma_reads_bounds(ts, Rule::Disjunction, a + 1, *x),
            AstNode::Assignment { operand, .. } => lemma_reads_bounds(ts, Rule::Disjunction, a + 2, *operand),
            AstNode::FnCall { args, .. } => lemma_list_bounds(ts, a + 2, args@, false),
            _ => {},
        },
        Rule::Unary => match e {
            AstNode::UnaryExpr { operand, .. } => lemma_reads_bounds(ts, Rule::Unary, a + 1, *operand),
            _ => lemma_reads_bounds(ts, Rule::Primary, a, e),
        },
        Rule::Statement => match e {
            AstNode::IfStmt { condition, then_body, else_body } => {
                lemma_reads_bounds(ts, Rule::Disjunction, a + 1, *condition);
                let m = reads(ts, Rule::Disjunction, a + 1, *condition)->0;
                lemma_reads_bounds(ts, Rule::Block, m + 1, *then_body);
                let n = reads(ts, Rule::Block, m + 1, *then_body)->0;
                if let Some(eb) = else_body {
                    lemma_reads_bounds(ts, Rule::Block, n + 1, *eb);
                }
            },
            AstNode::WhileStmt { condition, body } => {
                lemma_reads_bounds(ts, Rule::Disjunction, a + 1, *condition);
                let m = reads(ts, Rule::Disjunction, a + 1, *condition)->0;
                lemma_reads_bounds(ts, Rule::Block, m + 1, *body);
            },
            AstNode::FnStmt { params, body, .. } => {
                lemma_params_bounds(ts, a + 3, params@);
                let m = reads_params(ts, a + 3, params@)->0;
                lemma_reads_bounds(ts, Rule::Block, m + 2, *body);
            },
            AstNode::RetStmt(x) => lemma_reads_bounds(ts, Rule::Disjunction, a + 1, *x),
            AstNode::Assignment { operand, nonlocal, .. } => if nonlocal {
                lemma_reads_bounds(ts, Rule::Disjunction, a + 3, *operand);
            } else {
                lemma_reads_bounds(ts, Rule::Disjunction, a, e);
            },
            _ => lemma_reads_bounds(ts, Rule::Disjunction, a, e),
        },
        Rule::Block => match e {
            AstNode::Program(s) => lemma_list_bounds(ts, a, s@, true),
            _ => {},
        },
        _ => match e {
            AstNode::BinaryExpr { operator, lhs, rhs } => if rule_of(operator) == r {
                lemma_reads_bounds(ts, left_rule(r), a, *lhs);
                let m = reads(ts, left_rule(r), a, *lhs)->0;
                lemma_reads_bounds(ts, operand_rule(r), m + 1, *rhs);
            } else {
                lemma_reads_bounds(ts, operand_rule(r), a, e);
            },
            _ => lemma_reads_bounds(ts, operand_rule(r), a, e),
        },
    }
}

proof fn lemma_list_bounds(ts: Seq<TokenView>, a: int, s: Seq<AstNode>, statements: bool)
    requires
        reads_list(ts, a, s, statements) is Some,
    ensures
        a <= reads_list(ts, a, s, statements)->0 <= ts.len(),
        s.len() > 0 ==> a < reads_list(ts, a, s, statements)->0,
    decreases s, 0nat, 0nat,
{
    if s.len() > 0 {
        let init = s.subrange(0, s.len() - 1);
        let rule = if statements {
            Rule::Statement
        } else {
            Rule::Disjunction
        };
        if s.len() > 1 {
            lemma_list_bounds(ts, a, init, statements);
        }
        let start = if s.len() == 1 {
            a
        } else if statements {
            next_start(ts, reads_list(ts, a, init, statements)->0, s[s.len() - 2])->0
        } else {
            reads_list(ts, a, init, statements)->0 + 1
        };
        lemma_reads_bounds(ts, rule, start, s[s.len() - 1]);
    }
}

/// An expression begins with a literal, a name, `(`, `!` or `-`.
proof fn lemma_expr_start(ts: Seq<TokenView>, r: Rule, a: int, e: AstNode)
    requires
        rank(r) <= 8,
        reads(ts, r, a, e) is Some,
    ensures
        kind_at(ts, a) matches Some(k) && starts_expr(k),
        r == Rule::Primary ==> kind_at(ts, a) != Some(TokenKind::Bang) && kind_at(ts, a) != Some(
            TokenKind::Minus,
        ),
    decreases e, rank(r),
{
    if r == Rule::Unary {
        if !(e is UnaryExpr) {
            lemma_expr_start(ts, Rule::Primary, a, e);
        }
    } else if is_binary_rule(r) {
        match e {
            AstNode::BinaryExpr { operator, lhs, .. } => if rule_of(operator) == r {
                lemma_expr_start(ts, left_rule(r), a, *lhs);
            } else {
                lemma_expr_start(ts, operand_rule(r), a, e);
            },
            _ => lemma_expr_start(ts, operand_rule(r), a, e),
        }
    }
}

/// A statement begins with a keyword of its own kind, or as an expression.
proof fn lemma_stmt_start(ts: Seq<TokenView>, a: int, x: AstNode)
    requires
        reads(ts, Rule::Statement, a, x) is Some,
    ensures
        kind_at(ts, a) matches Some(k) && (if is_special(x) {
            starts_special(k)
        } else {
            starts_expr(k) && reads(ts, Rule::Statement, a, x) == reads(ts, Rule::Disjunction, a, x)
        }),
{
    if !is_special(x) {
        lemma_expr_start(ts, Rule::Disjunction, a, x);
    }
}

/// An operator looser than `r` never extends what `r` read.
proof fn lemma_looser_stops(ts: Seq<TokenView>, r: Rule, a: int, e: AstNode, o: Op)
    requires
        rank(r) <= 8,
        reads(ts, r, a, e) matches Some(b) && op_at(ts, b) == Some(o),
        rank(rule_of(o)) > rank(r),
    ensures
        !extends(r, e, o),
    decreases e, rank(r),
{
    if o != Op::Bang {
        if r == Rule::Unary {
            match e {
                AstNode::UnaryExpr { operand, .. } => lemma_looser_stops(ts, Rule::Unary, a + 1, *operand, o),
                _ => lemma_looser_stops(ts, Rule::Primary, a, e, o),
            }
        } else if is_binary_rule(r) {
            match e {
                AstNode::BinaryExpr { operator, lhs, rhs } => if rule_of(operator) == r {
                    let m = reads(ts, left_rule(r), a, *lhs)->0;
                    lemma_looser_stops(ts, operand_rule(r), m + 1, *rhs, o);
                } else {
                    lemma_looser_stops(ts, operand_rule(r), a, e, o);
                },
                _ => lemma_looser_stops(ts, operand_rule(r), a, e, o),
            }
        }
    }
}

/// A reading by a binary rule takes the recognizer through the same operand
/// chain.
proof fn lemma_chain(ts: Seq<TokenView>, r: Rule, a: int, e: AstNode)
    requires
        is_binary_rule(r),
        reads(ts, r, a, e) matches Some(b) && forall|o: Op|
            op_at(ts, b) == Some(o) && #[trigger] extends(r, e, o) ==> rule_of(o) == r,
    ensures
        rec_rule(ts, a, r) == rec_chain(
            ts,
            r,
            reads(ts, r, a, e)->0,
            !(e is BinaryExpr && rule_of(e->BinaryExpr_operator) == r),
        ),
    decreases e, rank(r), 0nat,
{
    let b = reads(ts, r, a, e)->0;
    let lower = operand_rule(r);
    lemma_reads_bounds(ts, r, a, e);
    if e is BinaryExpr && rule_of(e->BinaryExpr_operator) == r {
        let op = e->BinaryExpr_operator;
        let lhs = *e->BinaryExpr_lhs;
        let rhs = *e->BinaryExpr_rhs;
        let m = reads(ts, left_rule(r), a, lhs)->0;
        lemma_reads_bounds(ts, left_rule(r), a, lhs);
        lemma_reads_bounds(ts, lower, m + 1, rhs);
        assert forall|o: Op| op_at(ts, b) == Some(o) implies !extends(lower, rhs, o) by {
            if extends(lower, rhs, o) {
                assert(extends(r, e, o));
                lemma_looser_stops(ts, lower, m + 1, rhs, o);
            }
        }
        lemma_rule(ts, lower, m + 1, rhs);
        assert(op_at(ts, m) == Some(op));
        if chains(r) {
            assert forall|o: Op| op_at(ts, m) == Some(o) && #[trigger] extends(r, lhs, o) implies rule_of(o) == r by {}
            lemma_chain(ts, r, a, lhs);
            let first = !(lhs is BinaryExpr && rule_of(lhs->BinaryExpr_operator) == r);
            assert(rec_chain(ts, r, m, first) == rec_chain(ts, r, b, false));
        } else {
            lemma_looser_stops(ts, lower, a, lhs, op);
            lemma_rule(ts, lower, a, lhs);
            assert(rec_chain(ts, r, m, true) == rec_chain(ts, r, b, false));
        }
    } else {
        assert(reads(ts, lower, a, e) == Some(b));
        assert forall|o: Op| op_at(ts, b) == Some(o) implies !extends(lower, e, o) by {
            if extends(lower, e, o) {
                assert(extends(r, e, o));
                lemma_looser_stops(ts, lower, a, e, o);
            }
        }
        lemma_rule(ts, lower, a, e);
    }
}

/// What a rule reads, up to a token that does not extend it, the recognizer
/// reads too, to the same end.
proof fn lemma_rule(ts: Seq<TokenView>, r: Rule, a: int, e: AstNode)
    requires
        1 <= rank(r) <= 8,
        reads(ts, r, a, e) matches Some(b) && !extends_at(ts, b, r, e),
    ensures
        rec_rule(ts, a, r) == Ok::<int, Fault>(reads(ts, r, a, e)->0),
    decreases e, rank(r), 1nat,
{
    let b = reads(ts, r, a, e)->0;
    lemma_reads_bounds(ts, r, a, e);
    if r == Rule::Unary {
        lemma_unary(ts, a, e);
    } else {
        lemma_chain(ts, r, a, e);
    }
}

proof fn lemma_unary(ts: Seq<TokenView>, a: int, e: AstNode)
    requires
        reads(ts, Rule::Unary, a, e) matches Some(b) && !extends_at(ts, b, Rule::Unary, e),
    ensures
        rec_unary(ts, a) == Ok::<int, Fault>(reads(ts, Rule::Unary, a, e)->0),
    decreases e, 1nat, 0nat,
{
    lemma_reads_bounds(ts, Rule::Unary, a, e);
    match e {
        AstNode::UnaryExpr { operand, .. } => {
            lemma_unary(ts, a + 1, *operand);
        },
        _ => {
            lemma_expr_start(ts, Rule::Primary, a, e);
            lemma_primary(ts, a, e);
        },
    }
}

proof fn lemma_primary(ts: Seq<TokenView>, a: int, e: AstNode)
    requires
        reads(ts, Rule::Primary, a, e) is Some,
    ensures
        rec_primary(ts, a) == Ok::<int, Fault>(reads(ts, Rule::Primary, a, e)->0),
    decreases e, 0nat, 0nat,
{
    lemma_reads_bounds(ts, Rule::Primary, a, e);
    match e {
        AstNode::Grouping(x) => {
            lemma_rule(ts, Rule::Disjunction, a + 1, *x);
        },
        AstNode::Assignment { operand, .. } => {
            lemma_rule(ts, Rule::Disjunction, a + 2, *operand);
        },
        AstNode::FnCall { args, .. } => {
            let s = args@;
            if s.len() > 0 {
                lemma_args(ts, a, a + 2, s);
                lemma_list_bounds(ts, a + 2, s, false);
            }
        },
        _ => {},
    }
}

/// A call's arguments take the recognizer from the first one to the last.
proof fn lemma_args(ts: Seq<TokenView>, at: int, a: int, s: Seq<AstNode>)
    requires
        s.len() > 0,
        reads_list(ts, a, s, false) matches Some(m) && (kind_at(ts, m) == Some(TokenKind::Comma)
            || kind_at(ts, m) == Some(TokenKind::CloseParen)),
    ensures
        kind_at(ts, a) != Some(TokenKind::CloseParen),
        rec_expr(ts, a) matches Ok(m0) && after(ts, a, m0) && rec_args(ts, at, m0) == rec_args(
            ts,
            at,
            reads_list(ts, a, s, false)->0,
        ),
    decreases s, 0nat, 0nat,
{
    let m = reads_list(ts, a, s, false)->0;
    if s.len() == 1 {
        assert(reads(ts, Rule::Disjunction, a, s[0]) == Some(m));
        lemma_expr_start(ts, Rule::Disjunction, a, s[0]);
        lemma_reads_bounds(ts, Rule::Disjunction, a, s[0]);
        lemma_rule(ts, Rule::Disjunction, a, s[0]);
        assert(rec_expr(ts, a) == Ok::<int, Fault>(m));
    } else {
        let init = s.subrange(0, s.len() - 1);
        let m1 = reads_list(ts, a, init, false)->0;
        assert(kind_at(ts, m1) == Some(TokenKind::Comma));
        assert(reads(ts, Rule::Disjunction, m1 + 1, s[s.len() - 1]) == Some(m));
        lemma_args(ts, at, a, init);
        lemma_list_bounds(ts, a, init, false);
        lemma_reads_bounds(ts, Rule::Disjunction, m1 + 1, s[s.len() - 1]);
        lemma_rule(ts, Rule::Disjunction, m1 + 1, s[s.len() - 1]);
        assert(rec_expr(ts, m1 + 1) == Ok::<int, Fault>(m));
        assert(rec_args(ts, at, m1) == rec_args(ts, at, m));
    }
}

/// What the parser does after the statement `x` that ended at `n`.
pub open spec fn cont(ts: Seq<TokenView>, n: int, x: AstNode) -> Result<int, Fault> {
    if is_special(x) {
        rec_stmts(ts, n)
    } else if kind_at(ts, n) == Some(TokenKind::Comma) {
        rec_stmts(ts, n + 1)
    } else {
        Ok(n)
    }
}

/// What may follow the statement `x` where it ends, at `n`.
pub open spec fn follow_ok(ts: Seq<TokenView>, n: int, x: AstNode) -> bool {
    &&& !is_special(x) ==> (kind_at(ts, n) == Some(TokenKind::Comma) || op_at(ts, n) is None)
    &&& ends_open(x) ==> (op_at(ts, n) is None || op_at(ts, n) == Some(Op::Bang))
}

/// A list of statements takes the recognizer from its start to what follows
/// its last statement.
proof fn lemma_stmts(ts: Seq<TokenView>, a: int, s: Seq<AstNode>)
    requires
        s.len() > 0,
        reads_list(ts, a, s, true) matches Some(n) && follow_ok(ts, n, s[s.len() - 1]),
    ensures
        rec_stmts(ts, a) == cont(ts, reads_list(ts, a, s, true)->0, s[s.len() - 1]),
    decreases s, 0nat, 0nat,
{
    let n = reads_list(ts, a, s, true)->0;
    let x = s[s.len() - 1];
    let init = s.subrange(0, s.len() - 1);
    let i = if s.len() == 1 {
        a
    } else {
        next_start(ts, reads_list(ts, a, init, true)->0, s[s.len() - 2])->0
    };
    lemma_list_bounds(ts, a, s, true);
    if s.len() > 1 {
        let m = reads_list(ts, a, init, true)->0;
        let y = s[s.len() - 2];
        assert(init[init.len() - 1] == y);
        lemma_stmt_start(ts, i, x);
        lemma_stmts(ts, a, init);
        lemma_list_bounds(ts, a, init, true);
    }
    lemma_stmt_start(ts, i, x);
    lemma_reads_bounds(ts, Rule::Statement, i, x);
    assert(reads(ts, Rule::Statement, i, x) == Some(n));
    if is_special(x) {
        lemma_special(ts, i, x);
        assert(rec_stmts(ts, i) == rec_stmts_after(ts, i, rec_special(ts, i)));
        assert(rec_stmts(ts, i) == cont(ts, n, x));
    } else {
        lemma_rule(ts, Rule::Disjunction, i, x);
        assert(rec_expr(ts, i) == Ok::<int, Fault>(n));
        assert(rec_stmts(ts, i) == cont(ts, n, x));
    }
    if s.len() > 1 {
        let m = reads_list(ts, a, init, true)->0;
        let y = s[s.len() - 2];
        assert(cont(ts, m, y) == rec_stmts(ts, i));
    }
}

/// A block that a statement needs, followed by a token that is no operator,
/// takes the recognizer to its end.
proof fn lemma_block(ts: Seq<TokenView>, a: int, s: Seq<AstNode>)
    requires
        reads_list(ts, a, s, true) matches Some(n) && block_closes(ts, n, s) && op_at(
            ts,
            block_end(ts, n, s),
        ) is None,
    ensures
        rec_stmts(ts, a) == Ok::<int, Fault>(block_end(ts, reads_list(ts, a, s, true)->0, s)),
    decreases s, 1nat, 0nat,
{
    lemma_list_bounds(ts, a, s, true);
    if s.len() > 0 {
        lemma_stmts(ts, a, s);
        let n = reads_list(ts, a, s, true)->0;
        lemma_list_bounds(ts, a, s, true);
    }
}

/// The parameter names take the recognizer to the `)` after them.
proof fn lemma_params(ts: Seq<TokenView>, at: int, ps: Seq<Vec<u8>>)
    requires
        0 <= at,
        kind_at(ts, at + 1) == Some(TokenKind::Identifier),
        kind_at(ts, at + 2) == Some(TokenKind::OpenParen),
        ps.len() > 0,
        reads_params(ts, at + 3, ps) matches Some(p) && p <= ts.len(),
    ensures
        rec_fn(ts, at) == rec_params(ts, at, reads_params(ts, at + 3, ps)->0),
    decreases ps.len(),
{
    if ps.len() > 1 {
        let init = ps.subrange(0, ps.len() - 1);
        lemma_params_bounds(ts, at + 3, init);
        lemma_params(ts, at, init);
    }
}

proof fn lemma_params_bounds(ts: Seq<TokenView>, a: int, ps: Seq<Vec<u8>>)
    requires
        reads_params(ts, a, ps) is Some,
    ensures
        a + ps.len() <= reads_params(ts, a, ps)->0,
        ps.len() > 0 ==> reads_params(ts, a, ps)->0 <= ts.len(),
    decreases ps.len(),
{
    if ps.len() > 1 {
        lemma_params_bounds(ts, a, ps.subrange(0, ps.len() - 1));
    }
}

/// A statement that closes itself, followed by a token that does not extend
/// its last expression, takes the recognizer to its end.
#[verifier::rlimit(100)]
proof fn lemma_special(ts: Seq<TokenView>, i: int, x: AstNode)
    requires
        is_special(x),
        reads(ts, Rule::Statement, i, x) matches Some(n) && (ends_open(x) ==> (op_at(ts, n) is None
            || op_at(ts, n) == Some(Op::Bang))),
    ensures
        rec_special(ts, i) == Ok::<int, Fault>(reads(ts, Rule::Statement, i, x)->0),
    decreases x, 9nat, 0nat,
{
    lemma_reads_bounds(ts, Rule::Statement, i, x);
    match x {
        AstNode::IfStmt { condition, then_body, else_body } => {
            let m = reads(ts, Rule::Disjunction, i + 1, *condition)->0;
            lemma_reads_bounds(ts, Rule::Disjunction, i + 1, *condition);
            lemma_rule(ts, Rule::Disjunction, i + 1, *condition);
            let tb = *then_body;
            let nb = reads(ts, Rule::Block, m + 1, tb)->0;
            lemma_reads_bounds(ts, Rule::Block, m + 1, tb);
            let k = reads_list(ts, m + 1, tb->Program_0@, true)->0;
            assert(nb == block_end(ts, k, tb->Program_0@));
            lemma_block(ts, m + 1, tb->Program_0@);
            assert(rec_stmts(ts, m + 1) == Ok::<int, Fault>(nb));
            match else_body {
                Some(eb) => {
                    let ebv = *eb;
                    lemma_reads_bounds(ts, Rule::Block, nb + 1, ebv);
                    let q = reads(ts, Rule::Block, nb + 1, ebv)->0;
                    let k2 = reads_list(ts, nb + 1, ebv->Program_0@, true)->0;
                    assert(q == block_end(ts, k2, ebv->Program_0@));
                    lemma_block(ts, nb + 1, ebv->Program_0@);
                    assert(rec_stmts(ts, nb + 1) == Ok::<int, Fault>(q));
                    assert(rec_if(ts, i) == Ok::<int, Fault>(q + 1));
                },
                None => {
                    assert(rec_if(ts, i) == Ok::<int, Fault>(nb + 1));
                },
            }
        },
        AstNode::WhileStmt { condition, body } => {
            let m = reads(ts, Rule::Disjunction, i + 1, *condition)->0;
            lemma_reads_bounds(ts, Rule::Disjunction, i + 1, *condition);
            lemma_rule(ts, Rule::Disjunction, i + 1, *condition);
            let bv = *body;
            lemma_reads_bounds(ts, Rule::Block, m + 1, bv);
            let nb = reads(ts, Rule::Block, m + 1, bv)->0;
            let k = reads_list(ts, m + 1, bv->Program_0@, true)->0;
            assert(nb == block_end(ts, k, bv->Program_0@));
            lemma_block(ts, m + 1, bv->Program_0@);
            assert(rec_while(ts, i) == Ok::<int, Fault>(nb + 1));
        },
        AstNode::FnStmt { params, body, .. } => {
            lemma_params_bounds(ts, i + 3, params@);
            let p = reads_params(ts, i + 3, params@)->0;
            if params@.len() > 0 {
                lemma_params(ts, i, params@);
                assert(rec_params(ts, i, p) == rec_fn_rest(ts, i, p));
            } else {
                assert(rec_fn(ts, i) == rec_fn_rest(ts, i, p));
            }
            let bv = *body;
            lemma_reads_bounds(ts, Rule::Block, p + 2, bv);
            let nb = reads(ts, Rule::Block, p + 2, bv)->0;
            let k = reads_list(ts, p + 2, bv->Program_0@, true)->0;
            assert(nb == block_end(ts, k, bv->Program_0@));
            lemma_block(ts, p + 2, bv->Program_0@);
            assert(rec_fn_rest(ts, i, p) == Ok::<int, Fault>(nb + 1));
        },
        AstNode::RetStmt(y) => {
            lemma_rule(ts, Rule::Disjunction, i + 1, *y);
        },
        AstNode::Assignment { operand, .. } => {
            lemma_rule(ts, Rule::Disjunction, i + 3, *operand);
        },
        _ => {},
    }
}

/// Every program that spells the tokens is found by the recognizer.
proof fn lemma_program(ts: Seq<TokenView>, s: Seq<AstNode>)
    requires
        spells_program(ts, s),
    ensures
        rec_checked(ts) is Ok,
{
    lemma_block(ts, 0, s);
}

/// Reads a text by the grammar, from its tokens.
pub struct Parser {
    tokens: Vec<Token>,
}

impl Parser {
    /// The tokens of the text.
    pub closed spec fn tokens(&self) -> Seq<TokenView> {
        Seq::new(self.tokens@.len(), |i: int| self.tokens@[i]@)
    }

    /// A parser for `source`, which is expected to be ASCII.
    pub fn new(source: &str) -> (r: Self)
        requires
            source.spec_bytes().len() < usize::MAX,
        ensures
            r.tokens() == tokens_of(source.spec_bytes()),
            r.tokens().len() < usize::MAX,
    {
        proof {
            lemma_tokens_count(source.spec_bytes(), 0);
        }
        let mut lexer = Lexer::new(source);
        let tokens = lexer.tokenize();
        let r = Parser { tokens };
        assert(r.tokens() =~= tokens_of(source.spec_bytes()));
        r
    }

    fn kind_at(&self, i: usize) -> (r: Option<TokenKind>)
        ensures
            r == kind_at(self.tokens(), i as int),
    {
        if i < self.tokens.len() {
            Some(self.tokens[i].kind)
        } else {
            None
        }
    }

    fn parse_primary(&self, pos: usize) -> (r: Result<(AstNode, usize), ParseError>)
        requires
            pos <= self.tokens().len() < usize::MAX,
        ensures
            r matches Ok((e, end)) ==> !extends_at(self.tokens(), end as int, Rule::Primary, e),
            agrees(self.tokens(), r, rec_primary(self.tokens(), pos as int)),
            r matches Ok((e, end)) ==> pos < end <= self.tokens().len() && reads(self.tokens(), Rule::Primary, pos as int, e) == Some(end as int),
        decreases self.tokens@.len() - pos, 1nat,
    {
        if pos >= self.tokens.len() {
            return Err(ParseError::UnexpectedEof);
        }
        let t = &self.tokens[pos];
        assert(self.tokens()[pos as int] == t@);
        match t.kind {
            TokenKind::Number => Ok((AstNode::Number(copy_bytes(&t.text)), pos + 1)),
            TokenKind::Boolean(v) => Ok((AstNode::Boolean(v), pos + 1)),
            TokenKind::StringLiteral => Ok((AstNode::StringLiteral(copy_bytes(&t.text)), pos + 1)),
            TokenKind::Nil => Ok((AstNode::Nil, pos + 1)),
            TokenKind::Identifier => self.parse_identifier(pos),
            TokenKind::OpenParen => self.parse_grouping(pos),
            TokenKind::UnterminatedString => Err(ParseError::UnterminatedString(t.duplicate())),
            _ => Err(ParseError::UnexpectedToken(t.duplicate())),
        }
    }

    /// After a name: a call, an assignment, or a plain reference.
    fn parse_identifier(&self, pos: usize) -> (r: Result<(AstNode, usize), ParseError>)
        requires
            pos < self.tokens().len() < usize::MAX,
            self.tokens()[pos as int].kind == TokenKind::Identifier,
        ensures
            r matches Ok((e, end)) ==> !extends_at(self.tokens(), end as int, Rule::Primary, e),
            agrees(self.tokens(), r, rec_identifier(self.tokens(), pos as int)),
            r matches Ok((e, end)) ==> pos < end <= self.tokens().len() && reads(self.tokens(), Rule::Primary, pos as int, e) == Some(end as int),
        decreases self.tokens@.len() - pos, 0nat,
    {
        let ghost ts = self.tokens();
        let t = &self.tokens[pos];
        assert(ts[pos as int] == t@);
        let name = copy_bytes(&t.text);
        if self.kind_at(pos + 1) == Some(TokenKind::OpenParen) {
            if self.kind_at(pos + 2) == Some(TokenKind::CloseParen) {
                let args: Vec<AstNode> = Vec::new();
                assert(reads_list(ts, pos + 2, args@, false) == Some(pos + 2));
                return Ok((AstNode::FnCall { identifier: name, args }, pos + 3));
            }
            if pos + 2 >= self.tokens.len() {
                return Err(ParseError::FnCallMissingCloseParen(t.duplicate()));
            }
            let (first, mut p) = self.parse_expression(pos + 2)?;
            let mut args: Vec<AstNode> = Vec::new();
            proof {
                lemma_push_list(ts, pos + 2, args@, first, false, pos + 2);
            }
            args.push(first);
            loop
                invariant
                    pos + 2 < p <= ts.len() < usize::MAX,
                    ts == self.tokens(),
                    args@.len() > 0,
                    reads_list(ts, pos + 2, args@, false) == Some(p as int),
                    rec_identifier(ts, pos as int) == rec_args(ts, pos as int, p as int),
                ensures
                    pos + 2 < p <= ts.len() < usize::MAX,
                    reads_list(ts, pos + 2, args@, false) == Some(p as int),
                    rec_identifier(ts, pos as int) == rec_args(ts, pos as int, p as int),
                    kind_at(ts, p as int) != Some(TokenKind::Comma),
                decreases ts.len() - p,
            {
                if self.kind_at(p) == Some(TokenKind::Comma) {
                    let (arg, p2) = self.parse_expression(p + 1)?;
                    proof {
                        lemma_push_list(ts, pos + 2, args@, arg, false, p + 1);
                    }
                    args.push(arg);
                    p = p2;
                } else {
                    break;
                }
            }
            if self.kind_at(p) == Some(TokenKind::CloseParen) {
                Ok((AstNode::FnCall { identifier: name, args }, p + 1))
            } else {
                Err(ParseError::FnCallMissingCloseParen(t.duplicate()))
            }
        } else if self.kind_at(pos + 1) == Some(TokenKind::Equal) {
            let (operand, p) = self.parse_expression(pos + 2)?;
            Ok((AstNode::Assignment { identifier: name, operand: Box::new(operand), nonlocal: false }, p))
        } else {
            Ok((AstNode::Identifier(name), pos + 1))
        }
    }

    /// After `(`: an expression and its closing `)`.
    fn parse_grouping(&self, pos: usize) -> (r: Result<(AstNode, usize), ParseError>)
        requires
            pos < self.tokens().len() < usize::MAX,
            self.tokens()[pos as int].kind == TokenKind::OpenParen,
        ensures
            r matches Ok((e, end)) ==> !extends_at(self.tokens(), end as int, Rule::Primary, e),
            agrees(self.tokens(), r, rec_grouping(self.tokens(), pos as int)),
            r matches Ok((e, end)) ==> pos < end <= self.tokens().len() && reads(self.tokens(), Rule::Primary, pos as int, e) == Some(end as int),
        decreases self.tokens@.len() - pos, 0nat,
    {
        let (inner, p) = self.parse_expression(pos + 1)?;
        if self.kind_at(p) == Some(TokenKind::CloseParen) {
            Ok((AstNode::Grouping(Box::new(inner)), p + 1))
        } else {
            Err(ParseError::UnclosedGrouping(self.tokens[pos].duplicate()))
        }
    }

    fn parse_unary(&self, pos: usize) -> (r: Result<(AstNode, usize), ParseError>)
        requires
            pos <= self.tokens().len() < usize::MAX,
        ensures
            r matches Ok((e, end)) ==> !extends_at(self.tokens(), end as int, Rule::Unary, e),
            agrees(self.tokens(), r, rec_unary(self.tokens(), pos as int)),
            r matches Ok((e, end)) ==> pos < end <= self.tokens().len() && reads(self.tokens(), Rule::Unary, pos as int, e) == Some(end as int),
        decreases self.tokens@.len() - pos, 2nat,
    {
        let op = match self.kind_at(pos) {
            Some(TokenKind::Bang) => Some(Op::Bang),
            Some(TokenKind::Minus) => Some(Op::Minus),
            _ => None,
        };
        match op {
            Some(operator) => {
                let (operand, p) = self.parse_unary(pos + 1)?;
                Ok((AstNode::UnaryExpr { operator, operand: Box::new(operand) }, p))
            },
            None => self.parse_primary(pos),
        }
    }

    /// Reads by rule `r`, from the unary rule up to disjunction.
    fn parse_rule(&self, pos: usize, r: Rule) -> (res: Result<(AstNode, usize), ParseError>)
        requires
            pos <= self.tokens().len() < usize::MAX,
            1 <= rank(r) <= 8,
        ensures
            res matches Ok((e, end)) ==> !extends_at(self.tokens(), end as int, r, e),
            agrees(self.tokens(), res, rec_rule(self.tokens(), pos as int, r)),
            res matches Ok((e, end)) ==> pos < end <= self.tokens().len() && reads(self.tokens(), r, pos as int, e) == Some(end as int),
            res matches Ok((e, end)) ==> (rank(r) >= 3 ==> op_at(self.tokens(), end as int) != Some(Op::Minus)),
        decreases self.tokens@.len() - pos, rank(r) + 2,
    {
        let ghost ts = self.tokens();
        if r == Rule::Unary {
            return self.parse_unary(pos);
        }
        let lower = Self::lower_rule(r);
        let (mut acc, mut p) = self.parse_rule(pos, lower)?;
        proof {
            lemma_lift(ts, r, pos as int, acc);
            if acc is BinaryExpr {
                lemma_binary_rank(ts, lower, pos as int, acc);
            }
        }
        let mut first = true;
        loop
            invariant
                pos < p <= ts.len() < usize::MAX,
                ts == self.tokens(),
                is_binary_rule(r),
                lower == operand_rule(r),
                reads(ts, r, pos as int, acc) == Some(p as int),
                first ==> reads(ts, lower, pos as int, acc) == Some(p as int),
                rank(r) > 3 ==> op_at(ts, p as int) != Some(Op::Minus),
                rec_rule(ts, pos as int, r) == rec_chain(ts, r, p as int, first),
                forall|o: Op|
                    op_at(ts, p as int) == Some(o) && #[trigger] extends(r, acc, o) ==> rule_of(o) == r
                        && (chains(r) || first),
            ensures
                rank(r) >= 3 ==> op_at(ts, p as int) != Some(Op::Minus),
                rec_chain(ts, r, p as int, first) == Ok::<int, Fault>(p as int),
                !extends_at(ts, p as int, r, acc),
            decreases ts.len() - p,
        {
            if !first && !Self::chains_rule(r) {
                break;
            }
            let op = match self.kind_at(p) {
                Some(k) => Op::from_kind(&k),
                None => None,
            };
            match op {
                Some(operator) => {
                    if Self::rule_of_op(operator) == r {
                        let (rhs, p2) = self.parse_rule(p + 1, lower)?;
                        proof {
                            assert(self.tokens()[p as int].kind == ts[p as int].kind);
                        }
                        let ghost old_acc = acc;
                        acc = AstNode::BinaryExpr { operator, lhs: Box::new(acc), rhs: Box::new(rhs) };
                        proof {
                            assert(reads(ts, left_rule(r), pos as int, old_acc) == Some(p as int));
                            assert(reads(ts, r, pos as int, acc) == Some(p2 as int));
                        }
                        p = p2;
                        first = false;
                    } else {
                        break;
                    }
                },
                None => {
                    break;
                },
            }
        }
        Ok((acc, p))
    }

    fn lower_rule(r: Rule) -> (l: Rule)
        ensures
            l == operand_rule(r),
    {
        match r {
            Rule::Product => Rule::Unary,
            Rule::Sum => Rule::Product,
            Rule::Remainder => Rule::Sum,
            Rule::Comparison => Rule::Remainder,
            Rule::Equality => Rule::Comparison,
            Rule::Conjunction => Rule::Equality,
            _ => Rule::Conjunction,
        }
    }

    fn chains_rule(r: Rule) -> (c: bool)
        ensures
            c == chains(r),
    {
        r != Rule::Equality && r != Rule::Comparison
    }

    fn rule_of_op(op: Op) -> (r: Rule)
        ensures
            r == rule_of(op),
    {
        match op {
            Op::Star | Op::Slash => Rule::Product,
            Op::Plus | Op::Minus => Rule::Sum,
            Op::Percent => Rule::Remainder,
            Op::Greater | Op::GreaterEqual | Op::Less | Op::LessEqual => Rule::Comparison,
            Op::EqualEqual | Op::BangEqual => Rule::Equality,
            Op::And => Rule::Conjunction,
            Op::Or => Rule::Disjunction,
            Op::Bang => Rule::Unary,
        }
    }

    fn parse_expression(&self, pos: usize) -> (r: Result<(AstNode, usize), ParseError>)
        requires
            pos <= self.tokens().len() < usize::MAX,
        ensures
            r matches Ok((e, end)) ==> !extends_at(self.tokens(), end as int, Rule::Disjunction, e),
            agrees(self.tokens(), r, rec_expr(self.tokens(), pos as int)),
            r matches Ok((e, end)) ==> pos < end <= self.tokens().len() && reads(self.tokens(), Rule::Disjunction, pos as int, e) == Some(end as int),
            r matches Ok((e, end)) ==> op_at(self.tokens(), end as int) != Some(Op::Minus),
        decreases self.tokens@.len() - pos, 11nat,
    {
        self.parse_rule(pos, Rule::Disjunction)
    }
    /// A block: statements up to a `;` or the end of the text, or up to an
    /// expression that no comma follows.
    #[verifier::rlimit(80)]
    fn parse_program(&self, pos: usize) -> (r: Result<(Vec<AstNode>, usize), ParseError>)
        requires
            pos <= self.tokens().len() < usize::MAX,
        ensures
            agrees(self.tokens(), r, rec_stmts(self.tokens(), pos as int)),
            r matches Ok((s, end)) ==> pos <= end <= self.tokens().len() && (reads_list(
                self.tokens(),
                pos as int,
                s@,
                true,
            ) matches Some(n) && end == block_end(self.tokens(), n, s@) && block_closes(
                self.tokens(),
                n,
                s@,
            )),
        decreases self.tokens@.len() - pos, 13nat,
    {
        let ghost ts = self.tokens();
        let mut stmts: Vec<AstNode> = Vec::new();
        let mut p = pos;
        let ghost mut n: int = pos as int;
        loop
            invariant_except_break
                rec_stmts(ts, pos as int) == rec_stmts(ts, p as int),
                stmts@.len() == 0 ==> p == pos && n == pos,
                stmts@.len() > 0 ==> next_start(ts, n, stmts@[stmts@.len() - 1]) == Some(p as int),
            invariant
                pos <= p <= ts.len() < usize::MAX,
                ts == self.tokens(),
                reads_list(ts, pos as int, stmts@, true) == Some(n),
            ensures
                pos <= p <= ts.len(),
                reads_list(ts, pos as int, stmts@, true) == Some(n),
                p == block_end(ts, n, stmts@),
                block_closes(ts, n, stmts@),
                rec_stmts(ts, pos as int) == Ok::<int, Fault>(p as int),
            decreases ts.len() - p,
        {
            let k = match self.kind_at(p) {
                Some(k) => k,
                None => {
                    break;
                },
            };
            let ghost before = stmts@;
            match k {
                TokenKind::Semicolon => {
                    break;
                },
                TokenKind::If | TokenKind::While | TokenKind::Fn | TokenKind::Ret
                | TokenKind::Nonlocal => {
                    let (x, p2) = match self.parse_special(p) {
                        Ok(v) => v,
                        Err(e) => {
                            assert(rec_stmts(ts, p as int) == rec_stmts_after(
                                ts,
                                p as int,
                                rec_special(ts, p as int),
                            ));
                            return Err(e);
                        },
                    };
                    proof {
                        lemma_push_list(ts, pos as int, stmts@, x, true, p as int);
                        n = p2 as int;
                        assert(rec_stmts(ts, p as int) == rec_stmts_after(
                            ts,
                            p as int,
                            rec_special(ts, p as int),
                        ));
                    }
                    stmts.push(x);
                    p = p2;
                },
                _ => {
                    let (x, p2) = self.parse_expression(p)?;
                    proof {
                        lemma_statement(ts, p as int, x);
                        lemma_push_list(ts, pos as int, stmts@, x, true, p as int);
                        n = p2 as int;
                    }
                    stmts.push(x);
                    if self.kind_at(p2) == Some(TokenKind::Comma) {
                        p = p2 + 1;
                    } else {
                        p = p2;
                        break;
                    }
                },
            }
        }
        Ok((stmts, p))
    }

    /// A statement that closes itself: `if`, `while`, `fn`, `ret` or a
    /// `nonlocal` assignment, from its first token at `at`.
    fn parse_special(&self, at: usize) -> (r: Result<(AstNode, usize), ParseError>)
        requires
            at < self.tokens().len() < usize::MAX,
        ensures
            agrees(self.tokens(), r, rec_special(self.tokens(), at as int)),
            r matches Ok((e, end)) ==> at < end <= self.tokens().len() && is_special(e) && reads(
                self.tokens(),
                Rule::Statement,
                at as int,
                e,
            ) == Some(end as int) && (ends_open(e) ==> op_at(self.tokens(), end as int) != Some(
                Op::Minus,
            )),
        decreases self.tokens@.len() - at, 12nat,
    {
        let ghost ts = self.tokens();
        match self.kind_at(at) {
            Some(TokenKind::If) => self.parse_if(at),
            Some(TokenKind::While) => self.parse_while(at),
            Some(TokenKind::Fn) => self.parse_fn(at),
            Some(TokenKind::Ret) => {
                let (e, p2) = self.parse_expression(at + 1)?;
                Ok((AstNode::RetStmt(Box::new(e)), p2))
            },
            Some(TokenKind::Nonlocal) => {
                if self.kind_at(at + 1) != Some(TokenKind::Identifier) {
                    return Err(ParseError::MissingIdentifier(self.tokens[at].duplicate()));
                }
                if self.kind_at(at + 2) != Some(TokenKind::Equal) {
                    return Err(ParseError::AssignmentMissingEqual(self.tokens[at].duplicate()));
                }
                let name = copy_bytes(&self.tokens[at + 1].text);
                let (e, p2) = self.parse_expression(at + 3)?;
                proof {
                    assert(ts[at + 1] == self.tokens@[at + 1]@);
                }
                Ok((AstNode::Assignment { identifier: name, operand: Box::new(e), nonlocal: true }, p2))
            },
            _ => Err(ParseError::UnexpectedEof),
        }
    }

    /// `if COND : BLOCK (else BLOCK)? ;`, from the `if` at `at`.
    fn parse_if(&self, at: usize) -> (r: Result<(AstNode, usize), ParseError>)
        requires
            at < self.tokens().len() < usize::MAX,
            self.tokens()[at as int].kind == TokenKind::If,
        ensures
            agrees(self.tokens(), r, rec_if(self.tokens(), at as int)),
            r matches Ok((e, end)) ==> at < end <= self.tokens().len() && is_special(e) && reads(
                self.tokens(),
                Rule::Statement,
                at as int,
                e,
            ) == Some(end as int),
        decreases self.tokens@.len() - at, 11nat,
    {
        let (condition, m) = self.parse_expression(at + 1)?;
        if self.kind_at(m) != Some(TokenKind::Colon) {
            return Err(ParseError::MissingColon(self.tokens[at].duplicate()));
        }
        let (then_stmts, n) = self.parse_program(m + 1)?;
        let then_body = AstNode::Program(then_stmts);
        assert(reads(self.tokens(), Rule::Block, m + 1, then_body) == Some(n as int));
        if self.kind_at(n) == Some(TokenKind::Else) {
            let (else_stmts, q) = self.parse_program(n + 1)?;
            if self.kind_at(q) != Some(TokenKind::Semicolon) {
                return Err(ParseError::MissingSemicolon(self.tokens[at].duplicate()));
            }
            let else_body = AstNode::Program(else_stmts);
            assert(reads(self.tokens(), Rule::Block, n + 1, else_body) == Some(q as int));
            Ok((
                AstNode::IfStmt {
                    condition: Box::new(condition),
                    then_body: Box::new(then_body),
                    else_body: Some(Box::new(else_body)),
                },
                q + 1,
            ))
        } else if self.kind_at(n) == Some(TokenKind::Semicolon) {
            Ok((
                AstNode::IfStmt {
                    condition: Box::new(condition),
                    then_body: Box::new(then_body),
                    else_body: None,
                },
                n + 1,
            ))
        } else {
            Err(ParseError::MissingSemicolon(self.tokens[at].duplicate()))
        }
    }

    /// `while COND : BLOCK ;`, from the `while` at `at`.
    fn parse_while(&self, at: usize) -> (r: Result<(AstNode, usize), ParseError>)
        requires
            at < self.tokens().len() < usize::MAX,
            self.tokens()[at as int].kind == TokenKind::While,
        ensures
            agrees(self.tokens(), r, rec_while(self.tokens(), at as int)),
            r matches Ok((e, end)) ==> at < end <= self.tokens().len() && is_special(e) && reads(
                self.tokens(),
                Rule::Statement,
                at as int,
                e,
            ) == Some(end as int),
        decreases self.tokens@.len() - at, 11nat,
    {
        let (condition, m) = self.parse_expression(at + 1)?;
        if self.kind_at(m) != Some(TokenKind::Colon) {
            return Err(ParseError::MissingColon(self.tokens[at].duplicate()));
        }
        let (stmts, n) = self.parse_program(m + 1)?;
        if self.kind_at(n) != Some(TokenKind::Semicolon) {
            return Err(ParseError::MissingSemicolon(self.tokens[at].duplicate()));
        }
        let body = AstNode::Program(stmts);
        assert(reads(self.tokens(), Rule::Block, m + 1, body) == Some(n as int));
        Ok((
            AstNode::WhileStmt {
                condition: Box::new(condition),
                body: Box::new(body),
            },
            n + 1,
        ))
    }

    /// `fn NAME ( PARAM,* ) : BLOCK ;`, from the `fn` at `at`.
    #[verifier::rlimit(60)]
    fn parse_fn(&self, at: usize) -> (r: Result<(AstNode, usize), ParseError>)
        requires
            at < self.tokens().len() < usize::MAX,
            self.tokens()[at as int].kind == TokenKind::Fn,
        ensures
            agrees(self.tokens(), r, rec_fn(self.tokens(), at as int)),
            r matches Ok((e, end)) ==> at < end <= self.tokens().len() && is_special(e) && reads(
                self.tokens(),
                Rule::Statement,
                at as int,
                e,
            ) == Some(end as int),
        decreases self.tokens@.len() - at, 11nat,
    {
        let ghost ts = self.tokens();
        if self.kind_at(at + 1) != Some(TokenKind::Identifier) {
            return Err(ParseError::MissingIdentifier(self.tokens[at].duplicate()));
        }
        let identifier = copy_bytes(&self.tokens[at + 1].text);
        assert(ts[at + 1] == self.tokens@[at + 1]@);
        if self.kind_at(at + 2) != Some(TokenKind::OpenParen) {
            return Err(ParseError::MissingParen(self.tokens[at].duplicate()));
        }
        let mut params: Vec<Vec<u8>> = Vec::new();
        let mut p = at + 3;
        if self.kind_at(p) == Some(TokenKind::Identifier) {
            let name = copy_bytes(&self.tokens[p].text);
            proof {
                assert(ts[p as int] == self.tokens@[p as int]@);
                lemma_push_param(ts, at + 3, params@, name, p as int);
            }
            params.push(name);
            p = p + 1;
            loop
                invariant
                    at + 3 < p <= ts.len() < usize::MAX,
                    ts == self.tokens(),
                    params@.len() > 0,
                    reads_params(ts, at + 3, params@) == Some(p as int),
                    rec_fn(ts, at as int) == rec_params(ts, at as int, p as int),
                ensures
                    at + 3 < p <= ts.len() < usize::MAX,
                    reads_params(ts, at + 3, params@) == Some(p as int),
                    rec_fn(ts, at as int) == rec_fn_rest(ts, at as int, p as int),
                decreases ts.len() - p,
            {
                if self.kind_at(p) != Some(TokenKind::Comma) {
                    break;
                }
                if self.kind_at(p + 1) != Some(TokenKind::Identifier) {
                    return Err(ParseError::MissingIdentifier(self.tokens[at].duplicate()));
                }
                let name = copy_bytes(&self.tokens[p + 1].text);
                proof {
                    assert(ts[p + 1] == self.tokens@[p + 1]@);
                    lemma_push_param(ts, at + 3, params@, name, p + 1);
                }
                params.push(name);
                p = p + 2;
            }
        } else {
            assert(reads_params(ts, at + 3, params@) == Some(p as int));
            assert(rec_fn(ts, at as int) == rec_fn_rest(ts, at as int, p as int));
        }
        if self.kind_at(p) != Some(TokenKind::CloseParen) {
            return Err(ParseError::MissingParen(self.tokens[at].duplicate()));
        }
        if self.kind_at(p + 1) != Some(TokenKind::Colon) {
            return Err(ParseError::MissingColon(self.tokens[at].duplicate()));
        }
        let (stmts, n) = self.parse_program(p + 2)?;
        if self.kind_at(n) != Some(TokenKind::Semicolon) {
            return Err(ParseError::MissingSemicolon(self.tokens[at].duplicate()));
        }
        let body = AstNode::Program(stmts);
        assert(reads(self.tokens(), Rule::Block, p + 2, body) == Some(n as int));
        Ok((
            AstNode::FnStmt { identifier, params, body: Box::new(body) },
            n + 1,
        ))
    }

    /// The whole text as a program, or the first reason it is not one. Every
    /// token must belong to the program.
    pub fn parse_checked(&self) -> (r: Result<AstNode, ParseError>)
        requires
            self.tokens().len() < usize::MAX,
        ensures
            r is Ok ==> r->Ok_0 is ProgramRoot,
            r is Ok <==> rec_checked(self.tokens()) is Ok,
            r matches Err(e) ==> (rec_checked(self.tokens()) matches Err(f) && fault_is(self.tokens(), e, f)),
            r matches Ok(AstNode::ProgramRoot(s)) ==> spells_program(self.tokens(), s@),
            r is Err <==> !(exists|s: Seq<AstNode>| spells_program(self.tokens(), s)),
    {
        let ghost ts = self.tokens();
        proof {
            assert forall|s: Seq<AstNode>| spells_program(ts, s) implies rec_checked(ts) is Ok by {
                lemma_program(ts, s);
            }
        }
        let (stmts, end) = self.parse_program(0)?;
        if end < self.tokens.len() {
            return Err(ParseError::UnexpectedToken(self.tokens[end].duplicate()));
        }
        assert(spells_program(ts, stmts@));
        Ok(AstNode::ProgramRoot(stmts))
    }

    /// The whole text as a program; `Nil` when it is not one.
    pub fn parse(&self) -> (r: AstNode)
        requires
            self.tokens().len() < usize::MAX,
        ensures
            r is ProgramRoot || r is Nil,
            r matches AstNode::ProgramRoot(s) ==> spells_program(self.tokens(), s@),
            r is Nil <==> !(exists|s: Seq<AstNode>| spells_program(self.tokens(), s)),
    {
        match self.parse_checked() {
            Ok(program) => program,
            Err(_) => AstNode::Nil,
        }
    }
}

} // verus!
