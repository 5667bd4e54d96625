use vstd::prelude::*;
use crate::map::KeyMap;
use crate::text::{parse_i64, parse_i64_exec, parse_usize, parse_usize_exec};
use crate::lexer::views;
use crate::token::{Token, TokenInfo, TokenView};

verus! {

// Grammar.
//   <FuncDef> ::= TYPE VARIABLE '(' <Args> ')' <Block>
//   <Statement> ::= <If> | <While> | <For> | <Do> | 'continue' | 'break' | <Expression> ';'
//   <Assign> ::= VARIABLE '=' <Condition> | <Condition>
//   <CallFunc> ::= VARIABLE '(' <Argment> ')'
//   <Argment> ::= [ <Assign> [',' <Assign>]* ]
//   <Condition> ::= <Logical> <SubCondition>
//   <SubCondition> ::= '?' <Logical> ':' <Logical> <SubCondition>
//   <Logical> ::= <BitOp> <SubLogical>
//   <SubLogical> ::= ['&&' | '||' | '='] <BitOp> <SubLogical>
//   <BitOp> ::=  <Relation> <SubBitOp>
//   <SubBitOp> ::= ['&'|'|'|'^'] <Relation> <SubBitOp>
//   <Relation> ::= <Shift> <SubRelation>
//   <SubRelation> ::= ['==' | '!=' | '<' | '>' | '>=' | '<='] <Shift> <SubRelation>
//   <Shift> ::= <Expr> <SubShift>
//   <SubShift> ::= ['<<'|'>>'] <Expr> <SubShift>
//   <Expr> ::= <Term> <AddSubExpr>
//   <AddSubExpr> ::= ['+'|'-'] <Term> <AddSubExpr>
//   <Term> ::= <Factor> <MultiDivTerm>
//   <MultiDivTerm> ::= ['*'|'/'|'%'] <Factor> <MultiDivTerm>
//   <Factor> ::= NUMBER | ['!'|'+'|'-'|'~'|'&'|'*'] <Factor> | TYPE VARIABLE ['[' NUMBER ']']
//              | VARIABLE | <CallFunc> | '(' <Assign> ')'

/// Type of a variable or function in the syntax tree.
#[derive(Debug, Clone, PartialEq)]
pub enum Type {
    Int,
    Unknown(String),
}

pub ghost enum TypeView {
    Int,
    Unknown(Seq<char>),
}

impl View for Type {
    type V = TypeView;

    open spec fn view(&self) -> TypeView {
        match self {
            Type::Int => TypeView::Int,
            Type::Unknown(s) => TypeView::Unknown(s@),
        }
    }
}

impl Type {
    /// A copy with the same content.
    pub fn duplicate(&self) -> (r: Type)
        ensures
            r@ == self@,
    {
        match self {
            Type::Int => Type::Int,
            Type::Unknown(s) => Type::Unknown(s.clone()),
        }
    }
}

/// Shape of a variable: plain, pointer, array of a given length.
#[derive(Debug, Clone, Copy, PartialEq, Eq, Structural)]
pub enum Structure {
    Identifier,
    Pointer,
    Array(usize),
    Unknown,
}

/// A node of the syntax tree.
#[derive(Debug, PartialEq)]
pub enum AstType {
    FuncDef(Type, String, Box<AstType>, Box<AstType>),
    Statement(Vec<AstType>),
    While(Box<AstType>, Box<AstType>),
    Do(Box<AstType>, Box<AstType>),
    If(Box<AstType>, Box<AstType>, Box<Option<AstType>>),
    For(Box<Option<AstType>>, Box<Option<AstType>>, Box<Option<AstType>>, Box<AstType>),
    Continue(),
    Break(),
    Return(Box<AstType>),
    Condition(Box<AstType>, Box<AstType>, Box<AstType>),
    LogicalAnd(Box<AstType>, Box<AstType>),
    LogicalOr(Box<AstType>, Box<AstType>),
    BitAnd(Box<AstType>, Box<AstType>),
    BitOr(Box<AstType>, Box<AstType>),
    BitXor(Box<AstType>, Box<AstType>),
    Equal(Box<AstType>, Box<AstType>),
    NotEqual(Box<AstType>, Box<AstType>),
    LessThan(Box<AstType>, Box<AstType>),
    GreaterThan(Box<AstType>, Box<AstType>),
    LessThanEqual(Box<AstType>, Box<AstType>),
    GreaterThanEqual(Box<AstType>, Box<AstType>),
    Plus(Box<AstType>, Box<AstType>),
    Minus(Box<AstType>, Box<AstType>),
    LeftShift(Box<AstType>, Box<AstType>),
    RightShift(Box<AstType>, Box<AstType>),
    Multiple(Box<AstType>, Box<AstType>),
    Division(Box<AstType>, Box<AstType>),
    Remainder(Box<AstType>, Box<AstType>),
    UnPlus(Box<AstType>),
    UnMinus(Box<AstType>),
    Not(Box<AstType>),
    BitReverse(Box<AstType>),
    Assign(Box<AstType>, Box<AstType>),
    Factor(i64),
    Variable(Type, Structure, String),
    CallFunc(Box<AstType>, Box<AstType>),
    Argment(Vec<AstType>),
    Address(Box<AstType>),
    Indirect(Box<AstType>),
    Array(Vec<AstType>),
    Global(Vec<AstType>),
    PostInc(Box<AstType>),
    PostDec(Box<AstType>),
}

/// Mathematical content of a syntax tree node.
pub ghost enum AstView {
    FuncDef(TypeView, Seq<char>, Box<AstView>, Box<AstView>),
    Statement(Seq<AstView>),
    While(Box<AstView>, Box<AstView>),
    Do(Box<AstView>, Box<AstView>),
    If(Box<AstView>, Box<AstView>, Option<Box<AstView>>),
    For(Option<Box<AstView>>, Option<Box<AstView>>, Option<Box<AstView>>, Box<AstView>),
    Continue,
    Break,
    Return(Box<AstView>),
    Condition(Box<AstView>, Box<AstView>, Box<AstView>),
    LogicalAnd(Box<AstView>, Box<AstView>),
    LogicalOr(Box<AstView>, Box<AstView>),
    BitAnd(Box<AstView>, Box<AstView>),
    BitOr(Box<AstView>, Box<AstView>),
    BitXor(Box<AstView>, Box<AstView>),
    Equal(Box<AstView>, Box<AstView>),
    NotEqual(Box<AstView>, Box<AstView>),
    LessThan(Box<AstView>, Box<AstView>),
    GreaterThan(Box<AstView>, Box<AstView>),
    LessThanEqual(Box<AstView>, Box<AstView>),
    GreaterThanEqual(Box<AstView>, Box<AstView>),
    Plus(Box<AstView>, Box<AstView>),
    Minus(Box<AstView>, Box<AstView>),
    LeftShift(Box<AstView>, Box<AstView>),
    RightShift(Box<AstView>, Box<AstView>),
    Multiple(Box<AstView>, Box<AstView>),
    Division(Box<AstView>, Box<AstView>),
    Remainder(Box<AstView>, Box<AstView>),
    UnPlus(Box<AstView>),
    UnMinus(Box<AstView>),
    Not(Box<AstView>),
    BitReverse(Box<AstView>),
    Assign(Box<AstView>, Box<AstView>),
    Factor(i64),
    Variable(TypeView, Structure, Seq<char>),
    CallFunc(Box<AstView>, Box<AstView>),
    Argment(Seq<AstView>),
    Address(Box<AstView>),
    Indirect(Box<AstView>),
    Array(Seq<AstView>),
    Global(Seq<AstView>),
    PostInc(Box<AstView>),
    PostDec(Box<AstView>),
}

/// The content of a sequence of nodes.
pub open spec fn seq_view(v: Seq<AstType>) -> Seq<AstView>
    decreases v, 0int,
{
    Seq::new(v.len(), |i: int| if 0 <= i < v.len() { ast_view(&v[i]) } else { AstView::Continue })
}

pub open spec fn opt_view(o: Option<AstType>) -> Option<Box<AstView>>
    decreases o, 0int,
{
    match o {
        Some(a) => Some(Box::new(ast_view(&a))),
        None => None,
    }
}

/// The content of a node.
pub open spec fn ast_view(a: &AstType) -> AstView
    decreases a, 1int,
{
    match a {
        AstType::FuncDef(t, n, x, y) => AstView::FuncDef(t@, n@, Box::new(ast_view(x)), Box::new(ast_view(y))),
        AstType::Statement(v) => AstView::Statement(seq_view(v@)),
        AstType::While(x, y) => AstView::While(Box::new(ast_view(x)), Box::new(ast_view(y))),
        AstType::Do(x, y) => AstView::Do(Box::new(ast_view(x)), Box::new(ast_view(y))),
        AstType::If(x, y, z) => AstView::If(Box::new(ast_view(x)), Box::new(ast_view(y)), opt_view(**z)),
        AstType::For(a1, a2, a3, b) => AstView::For(opt_view(**a1), opt_view(**a2), opt_view(**a3), Box::new(ast_view(b))),
        AstType::Continue() => AstView::Continue,
        AstType::Break() => AstView::Break,
        AstType::Return(x) => AstView::Return(Box::new(ast_view(x))),
        AstType::Condition(x, y, z) => AstView::Condition(Box::new(ast_view(x)), Box::new(ast_view(y)), Box::new(ast_view(z))),
        AstType::LogicalAnd(x, y) => AstView::LogicalAnd(Box::new(ast_view(x)), Box::new(ast_view(y))),
        AstType::LogicalOr(x, y) => AstView::LogicalOr(Box::new(ast_view(x)), Box::new(ast_view(y))),
        AstType::BitAnd(x, y) => AstView::BitAnd(Box::new(ast_view(x)), Box::new(ast_view(y))),
        AstType::BitOr(x, y) => AstView::BitOr(Box::new(ast_view(x)), Box::new(ast_view(y))),
        AstType::BitXor(x, y) => AstView::BitXor(Box::new(ast_view(x)), Box::new(ast_view(y))),
        AstType::Equal(x, y) => AstView::Equal(Box::new(ast_view(x)), Box::new(ast_view(y))),
        AstType::NotEqual(x, y) => AstView::NotEqual(Box::new(ast_view(x)), Box::new(ast_view(y))),
        AstType::LessThan(x, y) => AstView::LessThan(Box::new(ast_view(x)), Box::new(ast_view(y))),
        AstType::GreaterThan(x, y) => AstView::GreaterThan(Box::new(ast_view(x)), Box::new(ast_view(y))),
        AstType::LessThanEqual(x, y) => AstView::LessThanEqual(Box::new(ast_view(x)), Box::new(ast_view(y))),
        AstType::GreaterThanEqual(x, y) => AstView::GreaterThanEqual(Box::new(ast_view(x)), Box::new(ast_view(y))),
        AstType::Plus(x, y) => AstView::Plus(Box::new(ast_view(x)), Box::new(ast_view(y))),
        AstType::Minus(x, y) => AstView::Minus(Box::new(ast_view(x)), Box::new(ast_view(y))),
        AstType::LeftShift(x, y) => AstView::LeftShift(Box::new(ast_view(x)), Box::new(ast_view(y))),
        AstType::RightShift(x, y) => AstView::RightShift(Box::new(ast_view(x)), Box::new(ast_view(y))),
        AstType::Multiple(x, y) => AstView::Multiple(Box::new(ast_view(x)), Box::new(ast_view(y))),
        AstType::Division(x, y) => AstView::Division(Box::new(ast_view(x)), Box::new(ast_view(y))),
        AstType::Remainder(x, y) => AstView::Remainder(Box::new(ast_view(x)), Box::new(ast_view(y))),
        AstType::UnPlus(x) => AstView::UnPlus(Box::new(ast_view(x))),
        AstType::UnMinus(x) => AstView::UnMinus(Box::new(ast_view(x))),
        AstType::Not(x) => AstView::Not(Box::new(ast_view(x))),
        AstType::BitReverse(x) => AstView::BitReverse(Box::new(ast_view(x))),
        AstType::Assign(x, y) => AstView::Assign(Box::new(ast_view(x)), Box::new(ast_view(y))),
        AstType::Factor(n) => AstView::Factor(*n),
        AstType::Variable(t, s, n) => AstView::Variable(t@, *s, n@),
        AstType::CallFunc(x, y) => AstView::CallFunc(Box::new(ast_view(x)), Box::new(ast_view(y))),
        AstType::Argment(v) => AstView::Argment(seq_view(v@)),
        AstType::Address(x) => AstView::Address(Box::new(ast_view(x))),
        AstType::Indirect(x) => AstView::Indirect(Box::new(ast_view(x))),
        AstType::Array(v) => AstView::Array(seq_view(v@)),
        AstType::Global(v) => AstView::Global(seq_view(v@)),
        AstType::PostInc(x) => AstView::PostInc(Box::new(ast_view(x))),
        AstType::PostDec(x) => AstView::PostDec(Box::new(ast_view(x))),
    }
}

impl View for AstType {
    type V = AstView;

    open spec fn view(&self) -> AstView {
        ast_view(self)
    }
}

pub proof fn lemma_seq_view_push(v: Seq<AstType>, a: AstType)
    ensures
        seq_view(v.push(a)) == seq_view(v).push(a@),
{
    assert(seq_view(v.push(a)) =~= seq_view(v).push(a@));
}

/// A node is a variable, or a number, exactly when its content is.
pub proof fn lemma_view_kind(a: &AstType)
    ensures
        (a@ is Variable) == (a is Variable),
        (a@ is Factor) == (a is Factor),
{
}

/// Statements are the nodes that leave no value behind.
pub open spec fn is_expr_view(a: AstView) -> bool {
    match a {
        AstView::If(..) | AstView::For(..) | AstView::Do(..) | AstView::Continue | AstView::Break
        | AstView::Return(..) | AstView::While(..) => false,
        _ => true,
    }
}

impl AstType {
    /// Whether the node is an expression (leaves a value) rather than a
    /// control statement.
    pub fn is_expr(&self) -> (r: bool)
        ensures
            r == is_expr_view(self@),
    {
        match self {
            AstType::If(_, _, _)
            | AstType::For(_, _, _, _)
            | AstType::Do(_, _)
            | AstType::Continue()
            | AstType::Break()
            | AstType::Return(_)
            | AstType::While(_, _) => false,
            _ => true,
        }
    }
}

// ---------------------------------------------------------------------------
// The grammar as functions of the token sequence. Each rule reads from
// position `p` with the name tables `tb` and gives the number of tokens it
// consumed, the updated tables and its node; `None` where parsing fails.

/// Names seen so far: variables and functions with their type and shape.
pub ghost struct Tables {
    pub vars: Map<Seq<char>, (TypeView, Structure)>,
    pub funcs: Map<Seq<char>, (TypeView, Structure)>,
}

/// Tokens left from `p` on (0 past the end).
pub open spec fn rem(toks: Seq<TokenView>, p: int) -> int {
    if p <= toks.len() { toks.len() - p } else { 0 }
}

pub open spec fn at(toks: Seq<TokenView>, p: int, t: Token) -> bool {
    0 <= p < toks.len() && toks[p].token == t
}

pub open spec fn present(toks: Seq<TokenView>, p: int) -> bool {
    0 <= p < toks.len()
}

pub open spec fn bx(a: AstView) -> Box<AstView> {
    Box::new(a)
}

/// A variable name; registered in the variable table if new.
pub open spec fn p_variable(toks: Seq<TokenView>, p: int, tb: Tables, t: TypeView, s: Structure) -> Option<(nat, Tables, AstView)> {
    if at(toks, p, Token::Variable) {
        let n = toks[p].val;
        let tb2 = if tb.vars.dom().contains(n) { tb } else { Tables { vars: tb.vars.insert(n, (t, s)), ..tb } };
        Some((1, tb2, AstView::Variable(t, s, n)))
    } else {
        None
    }
}

/// A function name (not registered).
pub open spec fn p_variable_func(toks: Seq<TokenView>, p: int, tb: Tables, t: TypeView, s: Structure) -> Option<(nat, Tables, AstView)> {
    if at(toks, p, Token::Variable) {
        Some((1, tb, AstView::Variable(t, s, toks[p].val)))
    } else {
        None
    }
}

/// An array declaration `name [ N ]`.
pub open spec fn p_variable_array(toks: Seq<TokenView>, p: int, tb: Tables, t: TypeView) -> Option<(nat, Tables, AstView)> {
    if at(toks, p, Token::Variable) && at(toks, p + 1, Token::LeftBracket) && present(toks, p + 2)
        && parse_usize(toks[p + 2].val) is Some && toks[p + 2].token == Token::Number
        && at(toks, p + 3, Token::RightBracket) {
        let n = toks[p].val;
        let s = Structure::Array(parse_usize(toks[p + 2].val)->0);
        let tb2 = if tb.vars.dom().contains(n) { tb } else { Tables { vars: tb.vars.insert(n, (t, s)), ..tb } };
        Some((4, tb2, AstView::Variable(t, s, n)))
    } else {
        None
    }
}

/// After `int`: an array or a plain variable, decided by a following `[`.
pub open spec fn p_factor_int(toks: Seq<TokenView>, p: int, tb: Tables) -> Option<(nat, Tables, AstView)> {
    if present(toks, p) && present(toks, p + 1) {
        if toks[p + 1].token == Token::LeftBracket {
            p_variable_array(toks, p, tb, TypeView::Int)
        } else {
            p_variable(toks, p, tb, TypeView::Int, Structure::Identifier)
        }
    } else {
        None
    }
}

pub open spec fn p_number(t: TokenView) -> Option<AstView> {
    match parse_i64(t.val) {
        Some(v) => Some(AstView::Factor(v)),
        None => None,
    }
}

/// Node for a binary operator token at the level of `&&`, `||` and `=`.
pub open spec fn logical_node(ope: Token, l: AstView, r: AstView) -> AstView {
    if ope == Token::LogicalAnd {
        AstView::LogicalAnd(bx(l), bx(r))
    } else if ope == Token::Assign {
        AstView::Assign(bx(l), bx(r))
    } else {
        AstView::LogicalOr(bx(l), bx(r))
    }
}

pub open spec fn is_logical_op(t: Token) -> bool {
    t == Token::LogicalAnd || t == Token::LogicalOr || t == Token::Assign
}

pub open spec fn bit_node(ope: Token, l: AstView, r: AstView) -> AstView {
    if ope == Token::BitOr {
        AstView::BitOr(bx(l), bx(r))
    } else if ope == Token::And {
        AstView::BitAnd(bx(l), bx(r))
    } else {
        AstView::BitXor(bx(l), bx(r))
    }
}

pub open spec fn is_bit_op(t: Token) -> bool {
    t == Token::BitOr || t == Token::And || t == Token::BitXor
}

pub open spec fn relation_node(ope: Token, l: AstView, r: AstView) -> AstView {
    if ope == Token::Equal {
        AstView::Equal(bx(l), bx(r))
    } else if ope == Token::NotEqual {
        AstView::NotEqual(bx(l), bx(r))
    } else if ope == Token::LessThan {
        AstView::LessThan(bx(l), bx(r))
    } else if ope == Token::GreaterThan {
        AstView::GreaterThan(bx(l), bx(r))
    } else if ope == Token::LessThanEqual {
        AstView::LessThanEqual(bx(l), bx(r))
    } else {
        AstView::GreaterThanEqual(bx(l), bx(r))
    }
}

pub open spec fn is_relation_op(t: Token) -> bool {
    t == Token::Equal || t == Token::NotEqual || t == Token::LessThan || t == Token::LessThanEqual
        || t == Token::GreaterThan || t == Token::GreaterThanEqual
}

pub open spec fn shift_node(ope: Token, l: AstView, r: AstView) -> AstView {
    if ope == Token::LeftShift {
        AstView::LeftShift(bx(l), bx(r))
    } else {
        AstView::RightShift(bx(l), bx(r))
    }
}

pub open spec fn is_shift_op(t: Token) -> bool {
    t == Token::LeftShift || t == Token::RightShift
}

pub open spec fn add_node(ope: Token, l: AstView, r: AstView) -> AstView {
    if ope == Token::Plus {
        AstView::Plus(bx(l), bx(r))
    } else {
        AstView::Minus(bx(l), bx(r))
    }
}

pub open spec fn is_add_op(t: Token) -> bool {
    t == Token::Plus || t == Token::Minus
}

pub open spec fn mul_node(ope: Token, l: AstView, r: AstView) -> AstView {
    if ope == Token::Multi {
        AstView::Multiple(bx(l), bx(r))
    } else if ope == Token::Division {
        AstView::Division(bx(l), bx(r))
    } else {
        AstView::Remainder(bx(l), bx(r))
    }
}

pub open spec fn is_mul_op(t: Token) -> bool {
    t == Token::Multi || t == Token::Division || t == Token::Remainder
}

/// Whether `t` is an operator of the given left-associative level (see
/// `p_level`).
pub open spec fn is_level_op(level: int, t: Token) -> bool {
    if level == 0 {
        is_logical_op(t)
    } else if level == 1 {
        is_bit_op(t)
    } else if level == 2 {
        is_relation_op(t)
    } else if level == 3 {
        is_shift_op(t)
    } else if level == 4 {
        is_add_op(t)
    } else {
        is_mul_op(t)
    }
}

pub open spec fn level_node(level: int, ope: Token, l: AstView, r: AstView) -> AstView {
    if level == 0 {
        logical_node(ope, l, r)
    } else if level == 1 {
        bit_node(ope, l, r)
    } else if level == 2 {
        relation_node(ope, l, r)
    } else if level == 3 {
        shift_node(ope, l, r)
    } else if level == 4 {
        add_node(ope, l, r)
    } else {
        mul_node(ope, l, r)
    }
}

/// One level of binary operators: level 0 is `&&`/`||`/`=`, 1 is
/// `&`/`|`/`^`, 2 the comparisons, 3 the shifts, 4 `+`/`-`, 5 `*`/`/`/`%`;
/// the operands are the next level (factors below level 5).
pub open spec fn p_level(toks: Seq<TokenView>, p: int, tb: Tables, level: int) -> Option<(nat, Tables, AstView)>
    decreases rem(toks, p), 2 * (5 - level) + 6,
{
    if 0 <= level <= 5 {
        let first = if level < 5 { p_level(toks, p, tb, level + 1) } else { p_factor(toks, p, tb) };
        match first {
            None => None,
            Some((k1, tb1, l)) => match p_sub_level(toks, p + k1, tb1, level, l) {
                None => None,
                Some((k2, tb2, r)) => Some((k1 + k2, tb2, r)),
            },
        }
    } else {
        None
    }
}

/// The rest of a level: `op operand` repeated, building left-associated nodes.
pub open spec fn p_sub_level(toks: Seq<TokenView>, p: int, tb: Tables, level: int, acc: AstView) -> Option<(nat, Tables, AstView)>
    decreases rem(toks, p), 2 * (5 - level) + 5,
{
    if present(toks, p) && 0 <= level <= 5 {
        let ope = toks[p].token;
        if is_level_op(level, ope) {
            let right = if level < 5 { p_level(toks, p + 1, tb, level + 1) } else { p_factor(toks, p + 1, tb) };
            match right {
                None => None,
                Some((k1, tb1, r)) => match p_sub_level(toks, p + 1 + k1, tb1, level, level_node(level, ope, acc, r)) {
                    None => None,
                    Some((k2, tb2, res)) => Some((1 + k1 + k2, tb2, res)),
                },
            }
        } else {
            Some((0, tb, acc))
        }
    } else {
        None
    }
}

/// Factors: numbers, unary operators, declarations, variables, calls and
/// parenthesized assignments.
pub open spec fn p_factor(toks: Seq<TokenView>, p: int, tb: Tables) -> Option<(nat, Tables, AstView)>
    decreases rem(toks, p), 4int,
{
    if present(toks, p) {
        let tok = toks[p];
        if tok.token == Token::Number {
            match p_number(tok) {
                Some(a) => Some((1, tb, a)),
                None => None,
            }
        } else if tok.token == Token::Plus {
            match p_factor(toks, p + 1, tb) { None => None, Some((k, tb1, a)) => Some((1 + k, tb1, AstView::UnPlus(bx(a)))) }
        } else if tok.token == Token::Minus {
            match p_factor(toks, p + 1, tb) { None => None, Some((k, tb1, a)) => Some((1 + k, tb1, AstView::UnMinus(bx(a)))) }
        } else if tok.token == Token::Not {
            match p_factor(toks, p + 1, tb) { None => None, Some((k, tb1, a)) => Some((1 + k, tb1, AstView::Not(bx(a)))) }
        } else if tok.token == Token::BitReverse {
            match p_factor(toks, p + 1, tb) { None => None, Some((k, tb1, a)) => Some((1 + k, tb1, AstView::BitReverse(bx(a)))) }
        } else if tok.token == Token::Int {
            match p_factor_int(toks, p + 1, tb) { None => None, Some((k, tb1, a)) => Some((1 + k, tb1, a)) }
        } else if tok.token == Token::IntPointer {
            match p_variable(toks, p + 1, tb, TypeView::Int, Structure::Pointer) { None => None, Some((k, tb1, a)) => Some((1 + k, tb1, a)) }
        } else if tok.token == Token::And {
            match p_factor(toks, p + 1, tb) { None => None, Some((k, tb1, a)) => Some((1 + k, tb1, AstView::Address(bx(a)))) }
        } else if tok.token == Token::Multi {
            match p_factor(toks, p + 1, tb) { None => None, Some((k, tb1, a)) => Some((1 + k, tb1, AstView::Indirect(bx(a)))) }
        } else if tok.token == Token::Variable && tb.vars.dom().contains(tok.val) {
            let sym = tb.vars[tok.val];
            p_variable(toks, p, tb, sym.0, sym.1)
        } else if tok.token == Token::Variable && tb.funcs.dom().contains(tok.val) {
            let sym = tb.funcs[tok.val];
            match p_variable_func(toks, p, tb, sym.0, sym.1) {
                None => None,
                Some((k1, tb1, f)) => match p_call_func(toks, p + k1, tb1, f) {
                    None => None,
                    Some((k2, tb2, c)) => Some((k1 + k2, tb2, c)),
                },
            }
        } else if tok.token == Token::LeftParen {
            match p_assign(toks, p + 1, tb) {
                None => None,
                Some((k, tb1, a)) => if at(toks, p + 1 + k, Token::RightParen) { Some((k + 2, tb1, a)) } else { None },
            }
        } else {
            None
        }
    } else {
        None
    }
}

/// A name followed by `=` is a single-token factor.
proof fn lemma_factor_before_assign(toks: Seq<TokenView>, p: int, tb: Tables)
    requires
        at(toks, p, Token::Variable),
        at(toks, p + 1, Token::Assign),
    ensures
        p_factor(toks, p, tb) matches Some((k, _, _)) ==> k == 1,
{
    let tok = toks[p];
    if !tb.vars.dom().contains(tok.val) && tb.funcs.dom().contains(tok.val) {
        let sym = tb.funcs[tok.val];
        assert(p_call_func(toks, p + 1, tb, AstView::Variable(sym.0, sym.1, tok.val)) is None);
    }
}

/// A call: `( arguments )` after the function's name.
pub open spec fn p_call_func(toks: Seq<TokenView>, p: int, tb: Tables, f: AstView) -> Option<(nat, Tables, AstView)>
    decreases rem(toks, p), 3int,
{
    if at(toks, p, Token::LeftParen) {
        match p_argment(toks, p + 1, tb, Seq::empty()) {
            None => None,
            Some((k, tb1, args)) => if at(toks, p + 1 + k, Token::RightParen) {
                Some((k + 2, tb1, AstView::CallFunc(bx(f), bx(AstView::Argment(args)))))
            } else {
                None
            },
        }
    } else {
        None
    }
}

/// Call arguments up to the closing `)`, separated by commas.
pub open spec fn p_argment(toks: Seq<TokenView>, p: int, tb: Tables, acc: Seq<AstView>) -> Option<(nat, Tables, Seq<AstView>)>
    decreases rem(toks, p), 20int,
{
    if present(toks, p) {
        if toks[p].token == Token::RightParen {
            Some((0, tb, acc))
        } else {
            match p_assign(toks, p, tb) {
                None => None,
                Some((k1, tb1, a)) => if present(toks, p + k1) {
                    if toks[p + k1].token == Token::Comma {
                        match p_argment(toks, p + k1 + 1, tb1, acc.push(a)) {
                            None => None,
                            Some((k2, tb2, r)) => Some((k1 + 1 + k2, tb2, r)),
                        }
                    } else {
                        Some((k1, tb1, acc.push(a)))
                    }
                } else {
                    None
                },
            }
        }
    } else {
        None
    }
}

/// An assignment `name = condition`, or a condition.
pub open spec fn p_assign(toks: Seq<TokenView>, p: int, tb: Tables) -> Option<(nat, Tables, AstView)>
    decreases rem(toks, p), 19int,
{
    if present(toks, p) && present(toks, p + 1) {
        if toks[p].token == Token::Variable && toks[p + 1].token == Token::Assign {
            match p_factor(toks, p, tb) {
                None => None,
                Some((k1, tb1, var)) => match p_condition(toks, p + k1 + 1, tb1) {
                    None => None,
                    Some((k2, tb2, c)) => Some((k1 + 1 + k2, tb2, AstView::Assign(bx(var), bx(c)))),
                },
            }
        } else {
            p_condition(toks, p, tb)
        }
    } else {
        None
    }
}

/// A conditional expression `a ? b : c`, or a logical expression.
pub open spec fn p_condition(toks: Seq<TokenView>, p: int, tb: Tables) -> Option<(nat, Tables, AstView)>
    decreases rem(toks, p), 18int,
{
    match p_level(toks, p, tb, 0) {
        None => None,
        Some((k1, tb1, l)) => match p_sub_condition(toks, p + k1, tb1, l) {
            None => None,
            Some((k2, tb2, r)) => Some((k1 + k2, tb2, r)),
        },
    }
}

pub open spec fn p_sub_condition(toks: Seq<TokenView>, p: int, tb: Tables, acc: AstView) -> Option<(nat, Tables, AstView)>
    decreases rem(toks, p), 17int,
{
    if present(toks, p) {
        if toks[p].token == Token::Question {
            match p_level(toks, p + 1, tb, 0) {
                None => None,
                Some((k1, tb1, m)) => if at(toks, p + 1 + k1, Token::Colon) {
                    match p_level(toks, p + 2 + k1, tb1, 0) {
                        None => None,
                        Some((k2, tb2, r)) => match p_sub_condition(
                            toks,
                            p + 2 + k1 + k2,
                            tb2,
                            AstView::Condition(bx(acc), bx(m), bx(r)),
                        ) {
                            None => None,
                            Some((k3, tb3, res)) => Some((2 + k1 + k2 + k3, tb3, res)),
                        },
                    }
                } else {
                    None
                },
            }
        } else {
            Some((0, tb, acc))
        }
    } else {
        None
    }
}

/// The value of a `return`, read after the keyword.
pub open spec fn p_statement_return(toks: Seq<TokenView>, p: int, tb: Tables) -> Option<(nat, Tables, AstView)> {
    match p_assign(toks, p, tb) {
        None => None,
        Some((k, tb1, a)) => Some((k, tb1, AstView::Return(bx(a)))),
    }
}

/// An expression statement ending in `;`, or `return expression ;`.
pub open spec fn p_expression(toks: Seq<TokenView>, p: int, tb: Tables) -> Option<(nat, Tables, AstView)> {
    if present(toks, p) {
        if toks[p].token == Token::Return {
            match p_statement_return(toks, p + 1, tb) {
                None => None,
                Some((k, tb1, a)) => if at(toks, p + 1 + k, Token::SemiColon) {
                    Some((k + 2, tb1, a))
                } else {
                    None
                },
            }
        } else {
            match p_assign(toks, p, tb) {
                None => None,
                Some((k, tb1, a)) => if at(toks, p + k, Token::SemiColon) {
                    Some((k + 1, tb1, a))
                } else {
                    None
                },
            }
        }
    } else {
        None
    }
}

pub proof fn lemma_expression_consumes(toks: Seq<TokenView>, p: int, tb: Tables)
    ensures
        p_expression(toks, p, tb) matches Some((k, _, _)) ==> k >= 1,
{
}

/// A block or a single expression statement, as a `Statement` node.
pub open spec fn p_block_or_expr(toks: Seq<TokenView>, p: int, tb: Tables) -> Option<(nat, Tables, AstView)>
    decreases rem(toks, p), 4int,
{
    if present(toks, p) {
        if toks[p].token == Token::LeftBrace {
            p_statement(toks, p, tb)
        } else {
            match p_expression(toks, p, tb) {
                None => None,
                Some((k, tb1, e)) => Some((k, tb1, AstView::Statement(seq![e]))),
            }
        }
    } else {
        None
    }
}

/// A block: statements up to the closing `}`.
pub open spec fn p_statement(toks: Seq<TokenView>, p: int, tb: Tables) -> Option<(nat, Tables, AstView)>
    decreases rem(toks, p), 2int,
{
    match p_sub_statement(toks, p, tb, Seq::empty()) {
        None => None,
        Some((k, tb1, v)) => Some((k, tb1, AstView::Statement(v))),
    }
}

/// Statements until a `}` is consumed; `{` and `;` are skipped.
pub open spec fn p_sub_statement(toks: Seq<TokenView>, p: int, tb: Tables, acc: Seq<AstView>) -> Option<(nat, Tables, Seq<AstView>)>
    decreases rem(toks, p), 1int,
    via p_sub_statement_decreases
{
    if present(toks, p) {
        let t = toks[p].token;
        if t == Token::If || t == Token::While || t == Token::For || t == Token::Do {
            let st = if t == Token::If {
                p_statement_if(toks, p + 1, tb)
            } else if t == Token::While {
                p_statement_while(toks, p + 1, tb)
            } else if t == Token::For {
                p_statement_for(toks, p + 1, tb)
            } else {
                p_statement_do(toks, p + 1, tb)
            };
            match st {
                None => None,
                Some((k1, tb1, a)) => match p_sub_statement(toks, p + 1 + k1, tb1, acc.push(a)) {
                    None => None,
                    Some((k2, tb2, r)) => Some((1 + k1 + k2, tb2, r)),
                },
            }
        } else if t == Token::Continue || t == Token::Break {
            let a = if t == Token::Continue { AstView::Continue } else { AstView::Break };
            match p_sub_statement(toks, p + 1, tb, acc.push(a)) {
                None => None,
                Some((k2, tb2, r)) => Some((1 + k2, tb2, r)),
            }
        } else if t == Token::LeftBrace || t == Token::SemiColon {
            match p_sub_statement(toks, p + 1, tb, acc) {
                None => None,
                Some((k2, tb2, r)) => Some((1 + k2, tb2, r)),
            }
        } else if t == Token::RightBrace {
            Some((1, tb, acc))
        } else {
            match p_expression(toks, p, tb) {
                None => None,
                Some((k1, tb1, e)) => match p_sub_statement(toks, p + k1, tb1, acc.push(e)) {
                    None => None,
                    Some((k2, tb2, r)) => Some((k1 + k2, tb2, r)),
                },
            }
        }
    } else {
        None
    }
}

#[via_fn]
proof fn p_sub_statement_decreases(toks: Seq<TokenView>, p: int, tb: Tables, acc: Seq<AstView>) {
    lemma_expression_consumes(toks, p, tb);
}

/// `( condition ) block [else block]`, after `if`.
pub open spec fn p_statement_if(toks: Seq<TokenView>, p: int, tb: Tables) -> Option<(nat, Tables, AstView)>
    decreases rem(toks, p), 0int,
{
    if at(toks, p, Token::LeftParen) {
        match p_assign(toks, p + 1, tb) {
            None => None,
            Some((k1, tb1, c)) => if at(toks, p + 1 + k1, Token::RightParen) {
                let q = p + 2 + k1;
                match p_block_or_expr(toks, q, tb1) {
                    None => None,
                    Some((k2, tb2, st)) => if present(toks, q + k2) {
                        if toks[q + k2].token == Token::Else {
                            match p_block_or_expr(toks, q + k2 + 1, tb2) {
                                None => None,
                                Some((k3, tb3, e)) => Some((2 + k1 + k2 + 1 + k3, tb3, AstView::If(bx(c), bx(st), Some(bx(e))))),
                            }
                        } else {
                            Some((2 + k1 + k2, tb2, AstView::If(bx(c), bx(st), None)))
                        }
                    } else {
                        None
                    },
                }
            } else {
                None
            },
        }
    } else {
        None
    }
}

/// `( condition ) block`, after `while`.
pub open spec fn p_statement_while(toks: Seq<TokenView>, p: int, tb: Tables) -> Option<(nat, Tables, AstView)>
    decreases rem(toks, p), 0int,
{
    if at(toks, p, Token::LeftParen) {
        match p_assign(toks, p + 1, tb) {
            None => None,
            Some((k1, tb1, c)) => if at(toks, p + 1 + k1, Token::RightParen) {
                match p_statement(toks, p + 2 + k1, tb1) {
                    None => None,
                    Some((k2, tb2, st)) => Some((2 + k1 + k2, tb2, AstView::While(bx(c), bx(st)))),
                }
            } else {
                None
            },
        }
    } else {
        None
    }
}

/// `block while ( condition )`, after `do`.
pub open spec fn p_statement_do(toks: Seq<TokenView>, p: int, tb: Tables) -> Option<(nat, Tables, AstView)>
    decreases rem(toks, p), 3int,
{
    match p_statement(toks, p, tb) {
        None => None,
        Some((k1, tb1, st)) => if at(toks, p + k1, Token::While) && at(toks, p + k1 + 1, Token::LeftParen) {
            match p_assign(toks, p + k1 + 2, tb1) {
                None => None,
                Some((k2, tb2, c)) => if at(toks, p + k1 + 2 + k2, Token::RightParen) {
                    Some((k1 + k2 + 3, tb2, AstView::Do(bx(st), bx(c))))
                } else {
                    None
                },
            }
        } else {
            None
        },
    }
}

/// An optional part of a `for` header: empty when `stop` comes next.
pub open spec fn p_for_part(toks: Seq<TokenView>, p: int, tb: Tables, stop: Token) -> Option<(nat, Tables, Option<Box<AstView>>)> {
    if present(toks, p) {
        if toks[p].token == stop {
            Some((0, tb, None))
        } else {
            match p_assign(toks, p, tb) {
                None => None,
                Some((k, tb1, a)) => Some((k, tb1, Some(bx(a)))),
            }
        }
    } else {
        None
    }
}

/// `( [init] ; [condition] ; [update] ) block`, after `for`.
pub open spec fn p_statement_for(toks: Seq<TokenView>, p: int, tb: Tables) -> Option<(nat, Tables, AstView)>
    decreases rem(toks, p), 0int,
{
    if at(toks, p, Token::LeftParen) {
        match p_for_part(toks, p + 1, tb, Token::SemiColon) {
            None => None,
            Some((k1, tb1, a)) => if at(toks, p + 1 + k1, Token::SemiColon) {
                let q = p + 2 + k1;
                match p_for_part(toks, q, tb1, Token::SemiColon) {
                    None => None,
                    Some((k2, tb2, b)) => if at(toks, q + k2, Token::SemiColon) {
                        let r = q + k2 + 1;
                        match p_for_part(toks, r, tb2, Token::RightParen) {
                            None => None,
                            Some((k3, tb3, c)) => if at(toks, r + k3, Token::RightParen) {
                                match p_statement(toks, r + k3 + 1, tb3) {
                                    None => None,
                                    Some((k4, tb4, st)) => Some((
                                        (r + k3 + 1 + k4 - p) as nat,
                                        tb4,
                                        AstView::For(a, b, c, bx(st)),
                                    )),
                                }
                            } else {
                                None
                            },
                        }
                    } else {
                        None
                    },
                }
            } else {
                None
            },
        }
    } else {
        None
    }
}

/// The type that starts a definition: `int`, `int*`, or an unknown name.
pub open spec fn p_generate_type(t: TokenView) -> (TypeView, Structure) {
    if t.token == Token::Int {
        (TypeView::Int, Structure::Identifier)
    } else if t.token == Token::IntPointer {
        (TypeView::Int, Structure::Pointer)
    } else {
        (TypeView::Unknown(t.val), Structure::Unknown)
    }
}

/// Parameters: each starts with a type token; separated by commas.
pub open spec fn p_recur_func_args(toks: Seq<TokenView>, p: int, tb: Tables, acc: Seq<AstView>) -> Option<(nat, Tables, Seq<AstView>)>
    decreases rem(toks, p),
{
    if present(toks, p) {
        if !(toks[p].token == Token::Int || toks[p].token == Token::IntPointer) {
            Some((0, tb, acc))
        } else {
            match p_assign(toks, p, tb) {
                None => None,
                Some((k1, tb1, a)) => if present(toks, p + k1) {
                    if toks[p + k1].token == Token::Comma {
                        match p_recur_func_args(toks, p + k1 + 1, tb1, acc.push(a)) {
                            None => None,
                            Some((k2, tb2, r)) => Some((k1 + 1 + k2, tb2, r)),
                        }
                    } else {
                        Some((k1, tb1, acc.push(a)))
                    }
                } else {
                    None
                },
            }
        }
    } else {
        None
    }
}

/// `( parameters )`.
pub open spec fn p_func_args(toks: Seq<TokenView>, p: int, tb: Tables) -> Option<(nat, Tables, AstView)> {
    if at(toks, p, Token::LeftParen) {
        match p_recur_func_args(toks, p + 1, tb, Seq::empty()) {
            None => None,
            Some((k, tb1, v)) => if at(toks, p + 1 + k, Token::RightParen) {
                Some((k + 2, tb1, AstView::Argment(v)))
            } else {
                None
            },
        }
    } else {
        None
    }
}

/// A function definition; its name must not be defined already.
#[verifier::opaque]
pub open spec fn p_func_def(toks: Seq<TokenView>, p: int, tb: Tables) -> Option<(nat, Tables, AstView)> {
    if present(toks, p) && at(toks, p + 1, Token::Variable) && !tb.funcs.dom().contains(toks[p + 1].val) {
        let (t, s) = p_generate_type(toks[p]);
        let name = toks[p + 1].val;
        let tb0 = Tables { funcs: tb.funcs.insert(name, (t, s)), ..tb };
        match p_func_args(toks, p + 2, tb0) {
            None => None,
            Some((k1, tb1, args)) => match p_statement(toks, p + 2 + k1, tb1) {
                None => None,
                Some((k2, tb2, st)) => Some((2 + k1 + k2, tb2, AstView::FuncDef(t, name, bx(args), bx(st)))),
            },
        }
    } else {
        None
    }
}

pub proof fn lemma_func_def_consumes(toks: Seq<TokenView>, p: int, tb: Tables)
    ensures
        p_func_def(toks, p, tb) matches Some((k, _, _)) ==> k >= 2,
{
    reveal(p_func_def);
}

/// Function definitions up to the `End` token.
pub open spec fn p_parse_from(toks: Seq<TokenView>, p: int, tb: Tables, acc: Seq<AstView>) -> Option<(Tables, Seq<AstView>)>
    decreases rem(toks, p),
    via p_parse_from_decreases
{
    if present(toks, p) {
        if toks[p].token == Token::End {
            Some((tb, acc))
        } else {
            match p_func_def(toks, p, tb) {
                None => None,
                Some((k, tb1, f)) => p_parse_from(toks, p + k, tb1, acc.push(f)),
            }
        }
    } else {
        None
    }
}

// ---------------------------------------------------------------------------
// Binary operators parse to their own nodes.

/// The node that C makes of the binary operator `t` between `l` and `r`.
pub open spec fn operator_node(t: Token, l: AstView, r: AstView) -> Option<AstView> {
    match t {
        Token::Multi => Some(AstView::Multiple(bx(l), bx(r))),
        Token::Division => Some(AstView::Division(bx(l), bx(r))),
        Token::Remainder => Some(AstView::Remainder(bx(l), bx(r))),
        Token::Plus => Some(AstView::Plus(bx(l), bx(r))),
        Token::Minus => Some(AstView::Minus(bx(l), bx(r))),
        Token::LeftShift => Some(AstView::LeftShift(bx(l), bx(r))),
        Token::RightShift => Some(AstView::RightShift(bx(l), bx(r))),
        Token::LessThan => Some(AstView::LessThan(bx(l), bx(r))),
        Token::LessThanEqual => Some(AstView::LessThanEqual(bx(l), bx(r))),
        Token::GreaterThan => Some(AstView::GreaterThan(bx(l), bx(r))),
        Token::GreaterThanEqual => Some(AstView::GreaterThanEqual(bx(l), bx(r))),
        Token::Equal => Some(AstView::Equal(bx(l), bx(r))),
        Token::NotEqual => Some(AstView::NotEqual(bx(l), bx(r))),
        Token::And => Some(AstView::BitAnd(bx(l), bx(r))),
        Token::BitOr => Some(AstView::BitOr(bx(l), bx(r))),
        Token::BitXor => Some(AstView::BitXor(bx(l), bx(r))),
        Token::LogicalAnd => Some(AstView::LogicalAnd(bx(l), bx(r))),
        Token::LogicalOr => Some(AstView::LogicalOr(bx(l), bx(r))),
        _ => None,
    }
}

/// The level of a binary operator (see `p_level`).
spec fn op_level(t: Token) -> int {
    if is_logical_op(t) {
        0
    } else if is_bit_op(t) {
        1
    } else if is_relation_op(t) {
        2
    } else if is_shift_op(t) {
        3
    } else if is_add_op(t) {
        4
    } else {
        5
    }
}

/// A number followed by a token that is no operator from `level` on is a
/// single factor at that level.
proof fn lemma_one_factor(toks: Seq<TokenView>, p: int, tb: Tables, level: int)
    requires
        0 <= level <= 5,
        0 <= p,
        p + 1 < toks.len(),
        toks[p].token == Token::Number,
        p_number(toks[p]) is Some,
        forall|l: int| level <= l <= 5 ==> !#[trigger] is_level_op(l, toks[p + 1].token),
    ensures
        p_level(toks, p, tb, level) == Some((1nat, tb, p_number(toks[p])->0)),
    decreases 5 - level,
{
    let a = p_number(toks[p])->0;
    if level < 5 {
        lemma_one_factor(toks, p, tb, level + 1);
    } else {
        assert(p_factor(toks, p, tb) == Some((1nat, tb, a)));
    }
    assert(!is_level_op(level, toks[p + 1].token));
    assert(p_sub_level(toks, p + 1, tb, level, a) == Some((0nat, tb, a)));
}

/// Below the level at which `k` tokens parse to `n`, when the next token is
/// no operator of those levels, the parse stays as it is.
proof fn lemma_levels_above(toks: Seq<TokenView>, p: int, tb: Tables, level: int, lo: int, k: nat, n: AstView)
    requires
        0 <= level <= lo <= 5,
        0 <= p,
        p + k < toks.len(),
        p_level(toks, p, tb, lo) == Some((k, tb, n)),
        forall|l: int| level <= l < lo ==> !#[trigger] is_level_op(l, toks[p + k].token),
    ensures
        p_level(toks, p, tb, level) == Some((k, tb, n)),
    decreases lo - level,
{
    if level < lo {
        lemma_levels_above(toks, p, tb, level + 1, lo, k, n);
        assert(!is_level_op(level, toks[p + k].token));
        assert(p_sub_level(toks, p + k, tb, level, n) == Some((0nat, tb, n)));
    }
}

/// Two numbers around an operator of level `lo`, followed by a token that
/// is no operator from `lo` on, parse at that level to its node.
proof fn lemma_binary_at(toks: Seq<TokenView>, p: int, tb: Tables, lo: int)
    requires
        0 <= lo <= 5,
        0 <= p,
        p + 3 < toks.len(),
        toks[p].token == Token::Number,
        toks[p + 2].token == Token::Number,
        p_number(toks[p]) is Some,
        p_number(toks[p + 2]) is Some,
        is_level_op(lo, toks[p + 1].token),
        forall|l: int| lo < l <= 5 ==> !#[trigger] is_level_op(l, toks[p + 1].token),
        forall|l: int| lo <= l <= 5 ==> !#[trigger] is_level_op(l, toks[p + 3].token),
    ensures
        p_level(toks, p, tb, lo) == Some((
            3nat,
            tb,
            level_node(lo, toks[p + 1].token, p_number(toks[p])->0, p_number(toks[p + 2])->0),
        )),
{
    let op = toks[p + 1].token;
    let a = p_number(toks[p])->0;
    let b = p_number(toks[p + 2])->0;
    if lo < 5 {
        lemma_one_factor(toks, p, tb, lo + 1);
        lemma_one_factor(toks, p + 2, tb, lo + 1);
    } else {
        assert(p_factor(toks, p, tb) == Some((1nat, tb, a)));
        assert(p_factor(toks, p + 2, tb) == Some((1nat, tb, b)));
    }
    let n = level_node(lo, op, a, b);
    assert(p_sub_level(toks, p + 3, tb, lo, n) == Some((0nat, tb, n)));
    assert(p_sub_level(toks, p + 1, tb, lo, a) == Some((2nat, tb, n)));
}

/// Two numbers around a binary operator, followed by `;`, parse to the
/// node of that operator with the numbers as its operands: `%` to a
/// remainder, `/` to a division, `<` to a less-than, and so on.
pub proof fn law_binary_operator_parse(toks: Seq<TokenView>, p: int, tb: Tables)
    requires
        0 <= p,
        p + 3 < toks.len(),
        toks[p].token == Token::Number,
        toks[p + 2].token == Token::Number,
        p_number(toks[p]) is Some,
        p_number(toks[p + 2]) is Some,
        operator_node(toks[p + 1].token, p_number(toks[p])->0, p_number(toks[p + 2])->0) is Some,
        toks[p + 3].token == Token::SemiColon,
    ensures
        p_assign(toks, p, tb) == Some((
            3nat,
            tb,
            operator_node(toks[p + 1].token, p_number(toks[p])->0, p_number(toks[p + 2])->0)->0,
        )),
{
    let op = toks[p + 1].token;
    let a = p_number(toks[p])->0;
    let b = p_number(toks[p + 2])->0;
    let lo = op_level(op);
    assert(is_level_op(lo, op));
    assert forall|l: int| lo < l <= 5 implies !#[trigger] is_level_op(l, op) by {}
    assert forall|l: int| 0 <= l <= 5 implies !#[trigger] is_level_op(l, toks[p + 3].token) by {}
    lemma_binary_at(toks, p, tb, lo);
    let n = level_node(lo, op, a, b);
    lemma_levels_above(toks, p, tb, 0, lo, 3, n);
    assert(p_sub_condition(toks, p + 3, tb, n) == Some((0nat, tb, n)));
    assert(p_condition(toks, p, tb) == Some((3nat, tb, n)));
    assert(n == operator_node(op, a, b)->0);
}

/// A known variable, `=` and a number, followed by `;`, parse to an
/// assignment of that number to that variable, with the type and shape the
/// variable was declared with; the tables stay as they were.
pub proof fn law_assign_parse(toks: Seq<TokenView>, p: int, tb: Tables)
    requires
        0 <= p,
        p + 3 < toks.len(),
        toks[p].token == Token::Variable,
        tb.vars.dom().contains(toks[p].val),
        toks[p + 1].token == Token::Assign,
        toks[p + 2].token == Token::Number,
        p_number(toks[p + 2]) is Some,
        toks[p + 3].token == Token::SemiColon,
    ensures
        p_assign(toks, p, tb) == Some((
            3nat,
            tb,
            AstView::Assign(
                bx(AstView::Variable(tb.vars[toks[p].val].0, tb.vars[toks[p].val].1, toks[p].val)),
                bx(p_number(toks[p + 2])->0),
            ),
        )),
{
    let n = toks[p].val;
    let x = AstView::Variable(tb.vars[n].0, tb.vars[n].1, n);
    let b = p_number(toks[p + 2])->0;
    assert(p_factor(toks, p, tb) == Some((1nat, tb, x)));
    assert forall|l: int| 0 <= l <= 5 implies !#[trigger] is_level_op(l, toks[p + 3].token) by {}
    lemma_one_factor(toks, p + 2, tb, 0);
    assert(p_sub_condition(toks, p + 3, tb, b) == Some((0nat, tb, b)));
    assert(p_condition(toks, p + 2, tb) == Some((1nat, tb, b)));
}

/// Three numbers in `a ? b : c`, followed by `;`, parse to a conditional
/// expression whose condition is `a`, whose value when it holds is `b` and
/// whose value otherwise is `c`.
pub proof fn law_condition_parse(toks: Seq<TokenView>, p: int, tb: Tables)
    requires
        0 <= p,
        p + 5 < toks.len(),
        toks[p].token == Token::Number,
        toks[p + 2].token == Token::Number,
        toks[p + 4].token == Token::Number,
        p_number(toks[p]) is Some,
        p_number(toks[p + 2]) is Some,
        p_number(toks[p + 4]) is Some,
        toks[p + 1].token == Token::Question,
        toks[p + 3].token == Token::Colon,
        toks[p + 5].token == Token::SemiColon,
    ensures
        p_assign(toks, p, tb) == Some((
            5nat,
            tb,
            AstView::Condition(bx(p_number(toks[p])->0), bx(p_number(toks[p + 2])->0), bx(p_number(toks[p + 4])->0)),
        )),
{
    let a = p_number(toks[p])->0;
    let b = p_number(toks[p + 2])->0;
    let c = p_number(toks[p + 4])->0;
    assert forall|l: int| 0 <= l <= 5 implies !#[trigger] is_level_op(l, toks[p + 1].token) by {}
    assert forall|l: int| 0 <= l <= 5 implies !#[trigger] is_level_op(l, toks[p + 3].token) by {}
    assert forall|l: int| 0 <= l <= 5 implies !#[trigger] is_level_op(l, toks[p + 5].token) by {}
    lemma_one_factor(toks, p, tb, 0);
    lemma_one_factor(toks, p + 2, tb, 0);
    lemma_one_factor(toks, p + 4, tb, 0);
    let n = AstView::Condition(bx(a), bx(b), bx(c));
    assert(p_sub_condition(toks, p + 5, tb, n) == Some((0nat, tb, n)));
    assert(p_sub_condition(toks, p + 1, tb, a) == Some((4nat, tb, n)));
    assert(p_condition(toks, p, tb) == Some((5nat, tb, n)));
}

/// A known function's name with two numbers in parentheses, separated by
/// a comma and followed by `;`, parse to a call of that function whose
/// arguments are the two numbers in the order written.
pub proof fn law_call_parse(toks: Seq<TokenView>, p: int, tb: Tables)
    requires
        0 <= p,
        p + 6 < toks.len(),
        toks[p].token == Token::Variable,
        !tb.vars.dom().contains(toks[p].val),
        tb.funcs.dom().contains(toks[p].val),
        toks[p + 1].token == Token::LeftParen,
        toks[p + 2].token == Token::Number,
        p_number(toks[p + 2]) is Some,
        toks[p + 3].token == Token::Comma,
        toks[p + 4].token == Token::Number,
        p_number(toks[p + 4]) is Some,
        toks[p + 5].token == Token::RightParen,
        toks[p + 6].token == Token::SemiColon,
    ensures
        p_assign(toks, p, tb) == Some((
            6nat,
            tb,
            AstView::CallFunc(
                bx(AstView::Variable(tb.funcs[toks[p].val].0, tb.funcs[toks[p].val].1, toks[p].val)),
                bx(AstView::Argment(seq![p_number(toks[p + 2])->0, p_number(toks[p + 4])->0])),
            ),
        )),
{
    let f = AstView::Variable(tb.funcs[toks[p].val].0, tb.funcs[toks[p].val].1, toks[p].val);
    let a = p_number(toks[p + 2])->0;
    let b = p_number(toks[p + 4])->0;
    assert forall|l: int| 0 <= l <= 5 implies !#[trigger] is_level_op(l, toks[p + 3].token) by {}
    assert forall|l: int| 0 <= l <= 5 implies !#[trigger] is_level_op(l, toks[p + 5].token) by {}
    assert forall|l: int| 0 <= l <= 5 implies !#[trigger] is_level_op(l, toks[p + 6].token) by {}
    lemma_one_factor(toks, p + 2, tb, 0);
    lemma_one_factor(toks, p + 4, tb, 0);
    assert(p_sub_condition(toks, p + 3, tb, a) == Some((0nat, tb, a)));
    assert(p_condition(toks, p + 2, tb) == Some((1nat, tb, a)));
    assert(p_assign(toks, p + 2, tb) == Some((1nat, tb, a)));
    assert(p_sub_condition(toks, p + 5, tb, b) == Some((0nat, tb, b)));
    assert(p_condition(toks, p + 4, tb) == Some((1nat, tb, b)));
    assert(p_assign(toks, p + 4, tb) == Some((1nat, tb, b)));
    assert(seq![a].push(b) =~= seq![a, b]);
    assert(p_argment(toks, p + 4, tb, seq![a]) == Some((1nat, tb, seq![a, b])));
    assert(Seq::<AstView>::empty().push(a) =~= seq![a]);
    assert(p_argment(toks, p + 2, tb, Seq::empty()) == Some((3nat, tb, seq![a, b])));
    let call = AstView::CallFunc(bx(f), bx(AstView::Argment(seq![a, b])));
    assert(p_call_func(toks, p + 1, tb, f) == Some((5nat, tb, call)));
    assert(p_factor(toks, p, tb) == Some((6nat, tb, call)));
    lemma_factor_levels(toks, p, tb, 0, 6, call);
    assert(p_sub_condition(toks, p + 6, tb, call) == Some((0nat, tb, call)));
    assert(p_condition(toks, p, tb) == Some((6nat, tb, call)));
}

/// A factor of `k` tokens followed by a token that is no operator from
/// `level` on is that factor at `level`.
proof fn lemma_factor_levels(toks: Seq<TokenView>, p: int, tb: Tables, level: int, k: nat, x: AstView)
    requires
        0 <= level <= 5,
        0 <= p,
        p + k < toks.len(),
        p_factor(toks, p, tb) == Some((k, tb, x)),
        forall|l: int| level <= l <= 5 ==> !#[trigger] is_level_op(l, toks[p + k].token),
    ensures
        p_level(toks, p, tb, level) == Some((k, tb, x)),
    decreases 5 - level,
{
    if level < 5 {
        lemma_factor_levels(toks, p, tb, level + 1, k, x);
    }
    assert(!is_level_op(level, toks[p + k].token));
    assert(p_sub_level(toks, p + k, tb, level, x) == Some((0nat, tb, x)));
}

/// The node that C makes of the prefix operator `t` on `x`.
pub open spec fn prefix_node(t: Token, x: AstView) -> Option<AstView> {
    match t {
        Token::Plus => Some(AstView::UnPlus(bx(x))),
        Token::Minus => Some(AstView::UnMinus(bx(x))),
        Token::Not => Some(AstView::Not(bx(x))),
        Token::BitReverse => Some(AstView::BitReverse(bx(x))),
        Token::And => Some(AstView::Address(bx(x))),
        Token::Multi => Some(AstView::Indirect(bx(x))),
        _ => None,
    }
}

/// A prefix operator before a number, followed by `;`, parses to that
/// operator's node on the number: `-` negates, `!` is a logical not, `~` a
/// bitwise complement, `&` takes an address, `*` reads through a pointer.
pub proof fn law_prefix_operator_parse(toks: Seq<TokenView>, p: int, tb: Tables)
    requires
        0 <= p,
        p + 2 < toks.len(),
        toks[p + 1].token == Token::Number,
        p_number(toks[p + 1]) is Some,
        prefix_node(toks[p].token, p_number(toks[p + 1])->0) is Some,
        toks[p + 2].token == Token::SemiColon,
    ensures
        p_assign(toks, p, tb) == Some((2nat, tb, prefix_node(toks[p].token, p_number(toks[p + 1])->0)->0)),
{
    let a = p_number(toks[p + 1])->0;
    let x = prefix_node(toks[p].token, a)->0;
    assert(p_factor(toks, p + 1, tb) == Some((1nat, tb, a)));
    assert(p_factor(toks, p, tb) == Some((2nat, tb, x)));
    assert forall|l: int| 0 <= l <= 5 implies !#[trigger] is_level_op(l, toks[p + 2].token) by {}
    lemma_factor_levels(toks, p, tb, 0, 2, x);
    assert(p_sub_condition(toks, p + 2, tb, x) == Some((0nat, tb, x)));
    assert(p_condition(toks, p, tb) == Some((2nat, tb, x)));
}

/// After `while`: `( c ) body` is a loop whose condition is `c` and whose
/// body is the block that follows the `)`.
pub proof fn law_while_parse(
    toks: Seq<TokenView>,
    p: int,
    tb: Tables,
    k1: nat,
    tb1: Tables,
    c: AstView,
    k2: nat,
    tb2: Tables,
    body: AstView,
)
    requires
        at(toks, p, Token::LeftParen),
        p_assign(toks, p + 1, tb) == Some((k1, tb1, c)),
        at(toks, p + 1 + k1, Token::RightParen),
        p_statement(toks, p + 2 + k1, tb1) == Some((k2, tb2, body)),
    ensures
        p_statement_while(toks, p, tb) == Some(((2 + k1 + k2) as nat, tb2, AstView::While(bx(c), bx(body)))),
{
}

/// After `for`: `( i ; c ; u ) body` is a loop whose initialisation is
/// `i`, whose condition is `c`, whose update is `u` and whose body is the
/// block, in that order.
pub proof fn law_for_parse(
    toks: Seq<TokenView>,
    p: int,
    tb: Tables,
    k1: nat,
    tb1: Tables,
    i: AstView,
    k2: nat,
    tb2: Tables,
    c: AstView,
    k3: nat,
    tb3: Tables,
    u: AstView,
    k4: nat,
    tb4: Tables,
    body: AstView,
)
    requires
        at(toks, p, Token::LeftParen),
        present(toks, p + 1) && toks[p + 1].token != Token::SemiColon,
        p_assign(toks, p + 1, tb) == Some((k1, tb1, i)),
        at(toks, p + 1 + k1, Token::SemiColon),
        present(toks, p + 2 + k1) && toks[p + 2 + k1].token != Token::SemiColon,
        p_assign(toks, p + 2 + k1, tb1) == Some((k2, tb2, c)),
        at(toks, p + 2 + k1 + k2, Token::SemiColon),
        present(toks, p + 3 + k1 + k2) && toks[p + 3 + k1 + k2].token != Token::RightParen,
        p_assign(toks, p + 3 + k1 + k2, tb2) == Some((k3, tb3, u)),
        at(toks, p + 3 + k1 + k2 + k3, Token::RightParen),
        p_statement(toks, p + 4 + k1 + k2 + k3, tb3) == Some((k4, tb4, body)),
    ensures
        p_statement_for(toks, p, tb) == Some((
            (4 + k1 + k2 + k3 + k4) as nat,
            tb4,
            AstView::For(Some(bx(i)), Some(bx(c)), Some(bx(u)), bx(body)),
        )),
{
}

/// After `do`: `body while ( c )` is a loop whose body is the block and
/// whose condition is `c`.
pub proof fn law_do_parse(
    toks: Seq<TokenView>,
    p: int,
    tb: Tables,
    k1: nat,
    tb1: Tables,
    body: AstView,
    k2: nat,
    tb2: Tables,
    c: AstView,
)
    requires
        p_statement(toks, p, tb) == Some((k1, tb1, body)),
        at(toks, p + k1, Token::While),
        at(toks, p + k1 + 1, Token::LeftParen),
        p_assign(toks, p + k1 + 2, tb1) == Some((k2, tb2, c)),
        at(toks, p + k1 + 2 + k2, Token::RightParen),
    ensures
        p_statement_do(toks, p, tb) == Some(((k1 + k2 + 3) as nat, tb2, AstView::Do(bx(body), bx(c)))),
{
}

/// After `if`: `( c ) then else other` is a choice whose condition is `c`,
/// whose first branch is `then` and whose second is `other`.
pub proof fn law_if_else_parse(
    toks: Seq<TokenView>,
    p: int,
    tb: Tables,
    k1: nat,
    tb1: Tables,
    c: AstView,
    k2: nat,
    tb2: Tables,
    then: AstView,
    k3: nat,
    tb3: Tables,
    other: AstView,
)
    requires
        at(toks, p, Token::LeftParen),
        p_assign(toks, p + 1, tb) == Some((k1, tb1, c)),
        at(toks, p + 1 + k1, Token::RightParen),
        p_block_or_expr(toks, p + 2 + k1, tb1) == Some((k2, tb2, then)),
        at(toks, p + 2 + k1 + k2, Token::Else),
        p_block_or_expr(toks, p + 2 + k1 + k2 + 1, tb2) == Some((k3, tb3, other)),
    ensures
        p_statement_if(toks, p, tb) == Some(
            ((2 + k1 + k2 + 1 + k3) as nat, tb3, AstView::If(bx(c), bx(then), Some(bx(other)))),
        ),
{
}

/// After `if`: `( c ) then` with no `else` next is a choice with no
/// `else` branch.
pub proof fn law_if_parse(
    toks: Seq<TokenView>,
    p: int,
    tb: Tables,
    k1: nat,
    tb1: Tables,
    c: AstView,
    k2: nat,
    tb2: Tables,
    then: AstView,
)
    requires
        at(toks, p, Token::LeftParen),
        p_assign(toks, p + 1, tb) == Some((k1, tb1, c)),
        at(toks, p + 1 + k1, Token::RightParen),
        p_block_or_expr(toks, p + 2 + k1, tb1) == Some((k2, tb2, then)),
        present(toks, p + 2 + k1 + k2),
        toks[p + 2 + k1 + k2].token != Token::Else,
    ensures
        p_statement_if(toks, p, tb) == Some(((2 + k1 + k2) as nat, tb2, AstView::If(bx(c), bx(then), None))),
{
}

/// `int name ( params ) { body }` (or `int* name ...`) with a name not yet
/// defined is a definition of a function of that name returning `int` (or
/// a pointer to `int`), recorded with that type in the function table
/// before its parameters and body are read.
pub proof fn law_func_def_parse(
    toks: Seq<TokenView>,
    p: int,
    tb: Tables,
    k1: nat,
    tb1: Tables,
    args: AstView,
    k2: nat,
    tb2: Tables,
    body: AstView,
)
    requires
        0 <= p,
        p + 1 < toks.len(),
        toks[p].token == Token::Int || toks[p].token == Token::IntPointer,
        toks[p + 1].token == Token::Variable,
        !tb.funcs.dom().contains(toks[p + 1].val),
        p_func_args(
            toks,
            p + 2,
            Tables {
                funcs: tb.funcs.insert(
                    toks[p + 1].val,
                    if toks[p].token == Token::Int {
                        (TypeView::Int, Structure::Identifier)
                    } else {
                        (TypeView::Int, Structure::Pointer)
                    },
                ),
                ..tb
            },
        ) == Some((k1, tb1, args)),
        p_statement(toks, p + 2 + k1, tb1) == Some((k2, tb2, body)),
    ensures
        p_func_def(toks, p, tb) == Some(
            ((2 + k1 + k2) as nat, tb2, AstView::FuncDef(TypeView::Int, toks[p + 1].val, bx(args), bx(body))),
        ),
{
    reveal(p_func_def);
}

/// `return e ;` is a return of the value `e`.
pub proof fn law_return_parse(toks: Seq<TokenView>, p: int, tb: Tables, k: nat, tb1: Tables, e: AstView)
    requires
        at(toks, p, Token::Return),
        p_assign(toks, p + 1, tb) == Some((k, tb1, e)),
        at(toks, p + 1 + k, Token::SemiColon),
    ensures
        p_expression(toks, p, tb) == Some(((k + 2) as nat, tb1, AstView::Return(bx(e)))),
{
}

/// How tightly a binary operator binds: `*`, `/`, `%` most, then `+`,
/// `-`, then the shifts, the comparisons, the bitwise `&`, `|`, `^`, and
/// last `&&` and `||`.
pub open spec fn binding(t: Token) -> int {
    match t {
        Token::Multi | Token::Division | Token::Remainder => 5,
        Token::Plus | Token::Minus => 4,
        Token::LeftShift | Token::RightShift => 3,
        Token::LessThan | Token::LessThanEqual | Token::GreaterThan | Token::GreaterThanEqual | Token::Equal
        | Token::NotEqual => 2,
        Token::And | Token::BitOr | Token::BitXor => 1,
        _ => 0,
    }
}

/// Three numbers with two binary operators between them, followed by `;`,
/// group by how tightly the operators bind: `a o1 b o2 c` is
/// `a o1 (b o2 c)` when `o2` binds more tightly than `o1`, and
/// `(a o1 b) o2 c` otherwise (operators of one level group to the left).
#[verifier::spinoff_prover]
#[verifier::rlimit(50)]
pub proof fn law_precedence(toks: Seq<TokenView>, p: int, tb: Tables)
    requires
        0 <= p,
        p + 5 < toks.len(),
        toks[p].token == Token::Number,
        toks[p + 2].token == Token::Number,
        toks[p + 4].token == Token::Number,
        p_number(toks[p]) is Some,
        p_number(toks[p + 2]) is Some,
        p_number(toks[p + 4]) is Some,
        operator_node(toks[p + 1].token, p_number(toks[p])->0, p_number(toks[p + 2])->0) is Some,
        operator_node(toks[p + 3].token, p_number(toks[p + 2])->0, p_number(toks[p + 4])->0) is Some,
        toks[p + 5].token == Token::SemiColon,
    ensures
        ({
            let o1 = toks[p + 1].token;
            let o2 = toks[p + 3].token;
            let a = p_number(toks[p])->0;
            let b = p_number(toks[p + 2])->0;
            let c = p_number(toks[p + 4])->0;
            p_assign(toks, p, tb) == Some((
                5nat,
                tb,
                if binding(o2) > binding(o1) {
                    operator_node(o1, a, operator_node(o2, b, c)->0)->0
                } else {
                    operator_node(o2, operator_node(o1, a, b)->0, c)->0
                },
            ))
        }),
{
    let o1 = toks[p + 1].token;
    let o2 = toks[p + 3].token;
    let a = p_number(toks[p])->0;
    let b = p_number(toks[p + 2])->0;
    let c = p_number(toks[p + 4])->0;
    let l1 = op_level(o1);
    let l2 = op_level(o2);
    assert(is_level_op(l1, o1) && is_level_op(l2, o2));
    assert forall|l: int| l1 < l <= 5 implies !#[trigger] is_level_op(l, o1) by {}
    assert forall|l: int| l2 < l <= 5 implies !#[trigger] is_level_op(l, o2) by {}
    assert forall|l: int| 0 <= l <= 5 implies !#[trigger] is_level_op(l, toks[p + 5].token) by {}
    assert(binding(o1) == l1 && binding(o2) == l2);
    let n = if l2 > l1 {
        // `b o2 c` first, at the level above `o1`.
        lemma_one_factor(toks, p, tb, l1 + 1);
        lemma_binary_at(toks, p + 2, tb, l2);
        let nb = level_node(l2, o2, b, c);
        lemma_levels_above(toks, p + 2, tb, l1 + 1, l2, 3, nb);
        let n = level_node(l1, o1, a, nb);
        assert(p_sub_level(toks, p + 5, tb, l1, n) == Some((0nat, tb, n)));
        assert(p_sub_level(toks, p + 1, tb, l1, a) == Some((4nat, tb, n)));
        assert(p_level(toks, p, tb, l1) == Some((5nat, tb, n)));
        lemma_levels_above(toks, p, tb, 0, l1, 5, n);
        n
    } else {
        let na = level_node(l1, o1, a, b);
        if l1 > l2 {
            lemma_binary_at(toks, p, tb, l1);
            lemma_levels_above(toks, p, tb, l2 + 1, l1, 3, na);
        } else if l1 < 5 {
            lemma_one_factor(toks, p, tb, l1 + 1);
            lemma_one_factor(toks, p + 2, tb, l1 + 1);
        } else {
            assert(p_factor(toks, p, tb) == Some((1nat, tb, a)));
            assert(p_factor(toks, p + 2, tb) == Some((1nat, tb, b)));
        }
        if l2 < 5 {
            lemma_one_factor(toks, p + 4, tb, l2 + 1);
        } else {
            assert(p_factor(toks, p + 4, tb) == Some((1nat, tb, c)));
        }
        let n = level_node(l2, o2, na, c);
        assert(p_sub_level(toks, p + 5, tb, l2, n) == Some((0nat, tb, n)));
        assert(p_sub_level(toks, p + 3, tb, l2, na) == Some((2nat, tb, n)));
        if l1 == l2 {
            assert(p_sub_level(toks, p + 1, tb, l1, a) == Some((4nat, tb, n)));
        }
        assert(p_level(toks, p, tb, l2) == Some((5nat, tb, n)));
        lemma_levels_above(toks, p, tb, 0, l2, 5, n);
        n
    };
    assert(p_sub_condition(toks, p + 5, tb, n) == Some((0nat, tb, n)));
    assert(p_condition(toks, p, tb) == Some((5nat, tb, n)));
}

// ---------------------------------------------------------------------------
// Only a function definition adds to the function table.

/// The rule left the function table as it was.
pub open spec fn funcs_kept<A>(tb: Tables, r: Option<(nat, Tables, A)>) -> bool {
    r matches Some((_, tb2, _)) ==> tb2.funcs == tb.funcs
}

proof fn lemma_kept_names(toks: Seq<TokenView>, p: int, tb: Tables, t: TypeView, s: Structure)
    ensures
        funcs_kept(tb, p_variable(toks, p, tb, t, s)),
        funcs_kept(tb, p_variable_func(toks, p, tb, t, s)),
        funcs_kept(tb, p_variable_array(toks, p, tb, t)),
        funcs_kept(tb, p_factor_int(toks, p, tb)),
{
}

proof fn lemma_kept_level(toks: Seq<TokenView>, p: int, tb: Tables, level: int)
    ensures
        funcs_kept(tb, p_level(toks, p, tb, level)),
    decreases rem(toks, p), 2 * (5 - level) + 6,
{
    if 0 <= level <= 5 {
        let first = if level < 5 { p_level(toks, p, tb, level + 1) } else { p_factor(toks, p, tb) };
        if level < 5 {
            lemma_kept_level(toks, p, tb, level + 1);
        } else {
            lemma_kept_factor(toks, p, tb);
        }
        if let Some((k1, tb1, l)) = first {
            lemma_kept_sub_level(toks, p + k1, tb1, level, l);
        }
    }
}

proof fn lemma_kept_sub_level(toks: Seq<TokenView>, p: int, tb: Tables, level: int, acc: AstView)
    ensures
        funcs_kept(tb, p_sub_level(toks, p, tb, level, acc)),
    decreases rem(toks, p), 2 * (5 - level) + 5,
{
    if present(toks, p) && 0 <= level <= 5 {
        let ope = toks[p].token;
        if is_level_op(level, ope) {
            let right = if level < 5 { p_level(toks, p + 1, tb, level + 1) } else { p_factor(toks, p + 1, tb) };
            if level < 5 {
                lemma_kept_level(toks, p + 1, tb, level + 1);
            } else {
                lemma_kept_factor(toks, p + 1, tb);
            }
            if let Some((k1, tb1, r)) = right {
                lemma_kept_sub_level(toks, p + 1 + k1, tb1, level, level_node(level, ope, acc, r));
            }
        }
    }
}

proof fn lemma_kept_factor(toks: Seq<TokenView>, p: int, tb: Tables)
    ensures
        funcs_kept(tb, p_factor(toks, p, tb)),
    decreases rem(toks, p), 4int,
{
    if present(toks, p) {
        let tok = toks[p];
        if tok.token == Token::Plus || tok.token == Token::Minus || tok.token == Token::Not
            || tok.token == Token::BitReverse || tok.token == Token::And || tok.token == Token::Multi {
            lemma_kept_factor(toks, p + 1, tb);
        } else if tok.token == Token::Int {
            lemma_kept_names(toks, p + 1, tb, TypeView::Int, Structure::Identifier);
        } else if tok.token == Token::IntPointer {
            lemma_kept_names(toks, p + 1, tb, TypeView::Int, Structure::Pointer);
        } else if tok.token == Token::Variable && tb.vars.dom().contains(tok.val) {
            let sym = tb.vars[tok.val];
            lemma_kept_names(toks, p, tb, sym.0, sym.1);
        } else if tok.token == Token::Variable && tb.funcs.dom().contains(tok.val) {
            let sym = tb.funcs[tok.val];
            lemma_kept_names(toks, p, tb, sym.0, sym.1);
            if let Some((k1, tb1, f)) = p_variable_func(toks, p, tb, sym.0, sym.1) {
                lemma_kept_call_func(toks, p + k1, tb1, f);
            }
        } else if tok.token == Token::LeftParen {
            lemma_kept_assign(toks, p + 1, tb);
        }
    }
}

proof fn lemma_kept_call_func(toks: Seq<TokenView>, p: int, tb: Tables, f: AstView)
    ensures
        funcs_kept(tb, p_call_func(toks, p, tb, f)),
    decreases rem(toks, p), 3int,
{
    if at(toks, p, Token::LeftParen) {
        lemma_kept_argment(toks, p + 1, tb, Seq::empty());
    }
}

proof fn lemma_kept_argment(toks: Seq<TokenView>, p: int, tb: Tables, acc: Seq<AstView>)
    ensures
        funcs_kept(tb, p_argment(toks, p, tb, acc)),
    decreases rem(toks, p), 20int,
{
    if present(toks, p) && toks[p].token != Token::RightParen {
        lemma_kept_assign(toks, p, tb);
        if let Some((k1, tb1, a)) = p_assign(toks, p, tb) {
            if present(toks, p + k1) && toks[p + k1].token == Token::Comma {
                lemma_kept_argment(toks, p + k1 + 1, tb1, acc.push(a));
            }
        }
    }
}

proof fn lemma_kept_assign(toks: Seq<TokenView>, p: int, tb: Tables)
    ensures
        funcs_kept(tb, p_assign(toks, p, tb)),
    decreases rem(toks, p), 19int,
{
    if present(toks, p) && present(toks, p + 1) {
        if toks[p].token == Token::Variable && toks[p + 1].token == Token::Assign {
            lemma_kept_factor(toks, p, tb);
            if let Some((k1, tb1, var)) = p_factor(toks, p, tb) {
                lemma_kept_condition(toks, p + k1 + 1, tb1);
            }
        } else {
            lemma_kept_condition(toks, p, tb);
        }
    }
}

proof fn lemma_kept_condition(toks: Seq<TokenView>, p: int, tb: Tables)
    ensures
        funcs_kept(tb, p_condition(toks, p, tb)),
    decreases rem(toks, p), 18int,
{
    lemma_kept_level(toks, p, tb, 0);
    if let Some((k1, tb1, l)) = p_level(toks, p, tb, 0) {
        lemma_kept_sub_condition(toks, p + k1, tb1, l);
    }
}

proof fn lemma_kept_sub_condition(toks: Seq<TokenView>, p: int, tb: Tables, acc: AstView)
    ensures
        funcs_kept(tb, p_sub_condition(toks, p, tb, acc)),
    decreases rem(toks, p), 17int,
{
    if present(toks, p) && toks[p].token == Token::Question {
        lemma_kept_level(toks, p + 1, tb, 0);
        if let Some((k1, tb1, m)) = p_level(toks, p + 1, tb, 0) {
            if at(toks, p + 1 + k1, Token::Colon) {
                lemma_kept_level(toks, p + 2 + k1, tb1, 0);
                if let Some((k2, tb2, r)) = p_level(toks, p + 2 + k1, tb1, 0) {
                    lemma_kept_sub_condition(toks, p + 2 + k1 + k2, tb2, AstView::Condition(bx(acc), bx(m), bx(r)));
                }
            }
        }
    }
}

proof fn lemma_kept_expression(toks: Seq<TokenView>, p: int, tb: Tables)
    ensures
        funcs_kept(tb, p_expression(toks, p, tb)),
        funcs_kept(tb, p_statement_return(toks, p, tb)),
        funcs_kept(tb, p_for_part(toks, p, tb, Token::SemiColon)),
        funcs_kept(tb, p_for_part(toks, p, tb, Token::RightParen)),
{
    lemma_kept_assign(toks, p, tb);
    lemma_kept_assign(toks, p + 1, tb);
}

proof fn lemma_kept_block_or_expr(toks: Seq<TokenView>, p: int, tb: Tables)
    ensures
        funcs_kept(tb, p_block_or_expr(toks, p, tb)),
    decreases rem(toks, p), 4int,
{
    if present(toks, p) {
        if toks[p].token == Token::LeftBrace {
            lemma_kept_statement(toks, p, tb);
        } else {
            lemma_kept_expression(toks, p, tb);
        }
    }
}

proof fn lemma_kept_statement(toks: Seq<TokenView>, p: int, tb: Tables)
    ensures
        funcs_kept(tb, p_statement(toks, p, tb)),
    decreases rem(toks, p), 2int,
{
    lemma_kept_sub_statement(toks, p, tb, Seq::empty());
}

proof fn lemma_kept_sub_statement(toks: Seq<TokenView>, p: int, tb: Tables, acc: Seq<AstView>)
    ensures
        funcs_kept(tb, p_sub_statement(toks, p, tb, acc)),
    decreases rem(toks, p), 1int,
{
    if present(toks, p) {
        let t = toks[p].token;
        if t == Token::If || t == Token::While || t == Token::For || t == Token::Do {
            let st = if t == Token::If {
                p_statement_if(toks, p + 1, tb)
            } else if t == Token::While {
                p_statement_while(toks, p + 1, tb)
            } else if t == Token::For {
                p_statement_for(toks, p + 1, tb)
            } else {
                p_statement_do(toks, p + 1, tb)
            };
            if t == Token::If {
                lemma_kept_if(toks, p + 1, tb);
            } else if t == Token::While {
                lemma_kept_while(toks, p + 1, tb);
            } else if t == Token::For {
                lemma_kept_for(toks, p + 1, tb);
            } else {
                lemma_kept_do(toks, p + 1, tb);
            }
            if let Some((k1, tb1, a)) = st {
                lemma_kept_sub_statement(toks, p + 1 + k1, tb1, acc.push(a));
            }
        } else if t == Token::Continue || t == Token::Break {
            let a = if t == Token::Continue { AstView::Continue } else { AstView::Break };
            lemma_kept_sub_statement(toks, p + 1, tb, acc.push(a));
        } else if t == Token::LeftBrace || t == Token::SemiColon {
            lemma_kept_sub_statement(toks, p + 1, tb, acc);
        } else if t != Token::RightBrace {
            lemma_kept_expression(toks, p, tb);
            lemma_expression_consumes(toks, p, tb);
            if let Some((k1, tb1, e)) = p_expression(toks, p, tb) {
                lemma_kept_sub_statement(toks, p + k1, tb1, acc.push(e));
            }
        }
    }
}

proof fn lemma_kept_if(toks: Seq<TokenView>, p: int, tb: Tables)
    ensures
        funcs_kept(tb, p_statement_if(toks, p, tb)),
    decreases rem(toks, p), 0int,
{
    if at(toks, p, Token::LeftParen) {
        lemma_kept_assign(toks, p + 1, tb);
        if let Some((k1, tb1, c)) = p_assign(toks, p + 1, tb) {
            if at(toks, p + 1 + k1, Token::RightParen) {
                let q = p + 2 + k1;
                lemma_kept_block_or_expr(toks, q, tb1);
                if let Some((k2, tb2, st)) = p_block_or_expr(toks, q, tb1) {
                    if present(toks, q + k2) && toks[q + k2].token == Token::Else {
                        lemma_kept_block_or_expr(toks, q + k2 + 1, tb2);
                    }
                }
            }
        }
    }
}

proof fn lemma_kept_while(toks: Seq<TokenView>, p: int, tb: Tables)
    ensures
        funcs_kept(tb, p_statement_while(toks, p, tb)),
    decreases rem(toks, p), 0int,
{
    if at(toks, p, Token::LeftParen) {
        lemma_kept_assign(toks, p + 1, tb);
        if let Some((k1, tb1, c)) = p_assign(toks, p + 1, tb) {
            if at(toks, p + 1 + k1, Token::RightParen) {
                lemma_kept_statement(toks, p + 2 + k1, tb1);
            }
        }
    }
}

proof fn lemma_kept_do(toks: Seq<TokenView>, p: int, tb: Tables)
    ensures
        funcs_kept(tb, p_statement_do(toks, p, tb)),
    decreases rem(toks, p), 3int,
{
    lemma_kept_statement(toks, p, tb);
    if let Some((k1, tb1, st)) = p_statement(toks, p, tb) {
        if at(toks, p + k1, Token::While) && at(toks, p + k1 + 1, Token::LeftParen) {
            lemma_kept_assign(toks, p + k1 + 2, tb1);
        }
    }
}

proof fn lemma_kept_for(toks: Seq<TokenView>, p: int, tb: Tables)
    ensures
        funcs_kept(tb, p_statement_for(toks, p, tb)),
    decreases rem(toks, p), 0int,
{
    if at(toks, p, Token::LeftParen) {
        lemma_kept_expression(toks, p + 1, tb);
        if let Some((k1, tb1, a)) = p_for_part(toks, p + 1, tb, Token::SemiColon) {
            if at(toks, p + 1 + k1, Token::SemiColon) {
                let q = p + 2 + k1;
                lemma_kept_expression(toks, q, tb1);
                if let Some((k2, tb2, b)) = p_for_part(toks, q, tb1, Token::SemiColon) {
                    if at(toks, q + k2, Token::SemiColon) {
                        let r = q + k2 + 1;
                        lemma_kept_expression(toks, r, tb2);
                        if let Some((k3, tb3, c)) = p_for_part(toks, r, tb2, Token::RightParen) {
                            if at(toks, r + k3, Token::RightParen) {
                                lemma_kept_statement(toks, r + k3 + 1, tb3);
                            }
                        }
                    }
                }
            }
        }
    }
}

proof fn lemma_kept_func_args(toks: Seq<TokenView>, p: int, tb: Tables, acc: Seq<AstView>)
    ensures
        funcs_kept(tb, p_recur_func_args(toks, p, tb, acc)),
    decreases rem(toks, p),
{
    if present(toks, p) && (toks[p].token == Token::Int || toks[p].token == Token::IntPointer) {
        lemma_kept_assign(toks, p, tb);
        if let Some((k1, tb1, a)) = p_assign(toks, p, tb) {
            if present(toks, p + k1) && toks[p + k1].token == Token::Comma {
                lemma_kept_func_args(toks, p + k1 + 1, tb1, acc.push(a));
            }
        }
    }
}

/// A definition adds its own name to the function table, which did not
/// hold it, and nothing else.
proof fn lemma_func_def_adds_its_name(toks: Seq<TokenView>, p: int, tb: Tables)
    ensures
        p_func_def(toks, p, tb) matches Some((_, tb2, f)) ==> f matches AstView::FuncDef(_, name, _, _)
            && !tb.funcs.dom().contains(name) && tb2.funcs.dom() == tb.funcs.dom().insert(name),
{
    reveal(p_func_def);
    if present(toks, p) && at(toks, p + 1, Token::Variable) && !tb.funcs.dom().contains(toks[p + 1].val) {
        let (t, s) = p_generate_type(toks[p]);
        let name = toks[p + 1].val;
        let tb0 = Tables { funcs: tb.funcs.insert(name, (t, s)), ..tb };
        lemma_kept_func_args(toks, p + 3, tb0, Seq::empty());
        if let Some((k1, tb1, args)) = p_func_args(toks, p + 2, tb0) {
            lemma_kept_statement(toks, p + 2 + k1, tb1);
        }
    }
}

/// The name a function definition gives.
pub open spec fn def_name(a: AstView) -> Seq<char> {
    match a {
        AstView::FuncDef(_, name, _, _) => name,
        _ => Seq::empty(),
    }
}

/// A program defines each function name once: the parser refuses a second
/// definition of a name.
pub proof fn law_parse_names_distinct(toks: Seq<TokenView>, p: int, tb: Tables, acc: Seq<AstView>)
    requires
        forall|i: int| 0 <= i < acc.len() ==> #[trigger] acc[i] is FuncDef,
        forall|i: int| 0 <= i < acc.len() ==> tb.funcs.dom().contains(#[trigger] def_name(acc[i])),
        forall|i: int, j: int| 0 <= i < j < acc.len() ==> #[trigger] def_name(acc[i]) != #[trigger] def_name(acc[j]),
    ensures
        p_parse_from(toks, p, tb, acc) matches Some((_, items)) ==> forall|i: int, j: int|
            0 <= i < j < items.len() ==> #[trigger] def_name(items[i]) != #[trigger] def_name(items[j]),
    decreases rem(toks, p),
{
    if present(toks, p) && toks[p].token != Token::End {
        lemma_func_def_consumes(toks, p, tb);
        lemma_func_def_adds_its_name(toks, p, tb);
        if let Some((k, tb1, f)) = p_func_def(toks, p, tb) {
            let acc2 = acc.push(f);
            assert forall|i: int| 0 <= i < acc2.len() implies #[trigger] acc2[i] is FuncDef by {
                if i < acc.len() {
                    assert(acc2[i] == acc[i]);
                }
            }
            assert forall|i: int| 0 <= i < acc2.len() implies tb1.funcs.dom().contains(#[trigger] def_name(acc2[i])) by {
                if i < acc.len() {
                    assert(acc2[i] == acc[i]);
                }
            }
            assert forall|i: int, j: int| 0 <= i < j < acc2.len() implies #[trigger] def_name(acc2[i]) != #[trigger] def_name(acc2[j]) by {
                assert(acc2[i] == acc[i]);
                if j < acc.len() {
                    assert(acc2[j] == acc[j]);
                } else {
                    assert(tb.funcs.dom().contains(def_name(acc[i])));
                }
            }
            law_parse_names_distinct(toks, p + k, tb1, acc2);
        }
    }
}

/// Every item of a parsed program is a function definition.
pub proof fn law_parse_items_are_functions(toks: Seq<TokenView>, p: int, tb: Tables, acc: Seq<AstView>)
    requires
        forall|i: int| 0 <= i < acc.len() ==> #[trigger] acc[i] is FuncDef,
    ensures
        p_parse_from(toks, p, tb, acc) matches Some((_, items)) ==> forall|i: int|
            0 <= i < items.len() ==> #[trigger] items[i] is FuncDef,
    decreases rem(toks, p),
{
    if present(toks, p) && toks[p].token != Token::End {
        reveal(p_func_def);
        lemma_func_def_consumes(toks, p, tb);
        if let Some((k, tb1, f)) = p_func_def(toks, p, tb) {
            let acc2 = acc.push(f);
            assert forall|i: int| 0 <= i < acc2.len() implies #[trigger] acc2[i] is FuncDef by {
                if i < acc.len() {
                    assert(acc2[i] == acc[i]);
                }
            }
            law_parse_items_are_functions(toks, p + k, tb1, acc2);
        }
    }
}

#[via_fn]
proof fn p_parse_from_decreases(toks: Seq<TokenView>, p: int, tb: Tables, acc: Seq<AstView>) {
    lemma_func_def_consumes(toks, p, tb);
}

pub open spec fn empty_tables() -> Tables {
    Tables { vars: Map::empty(), funcs: Map::empty() }
}

/// The syntax tree of a token sequence with the final tables; `None` where
/// the tokens do not form a program.
pub open spec fn parse_tokens(toks: Seq<TokenView>) -> Option<(Tables, Seq<AstView>)> {
    p_parse_from(toks, 0, empty_tables(), Seq::empty())
}

// ---------------------------------------------------------------------------
// The parser.

/// The node a parsing method gave, as content.
pub open spec fn node_opt(r: Option<AstType>) -> Option<AstView> {
    match r {
        Some(a) => Some(a@),
        None => None,
    }
}

/// The nodes a parsing method gave, as content.
pub open spec fn nodes_opt(r: Option<Vec<AstType>>) -> Option<Seq<AstView>> {
    match r {
        Some(v) => Some(seq_view(v@)),
        None => None,
    }
}

/// What a method returned and where it left the cursor and tables agree
/// with the rule's result `res`: on success the node, the tokens consumed
/// and the new tables; on failure, `None`.
pub open spec fn outcome<A>(res: Option<(nat, Tables, A)>, r: Option<A>, p0: int, p1: int, tb1: Tables) -> bool {
    match res {
        Some((k, t, a)) => r == Some(a) && p1 == p0 + k && tb1 == t,
        None => r is None,
    }
}

/// A name table as the map of names to their type and shape.
pub open spec fn table_view(m: KeyMap<(Type, Structure)>) -> Map<Seq<char>, (TypeView, Structure)> {
    m.view_map().map_values(|e: (Type, Structure)| (e.0@, e.1))
}

proof fn lemma_table_insert(m1: KeyMap<(Type, Structure)>, m2: KeyMap<(Type, Structure)>, k: Seq<char>, v: (Type, Structure))
    requires
        m2.view_map() == m1.view_map().insert(k, v),
    ensures
        table_view(m2) == table_view(m1).insert(k, (v.0@, v.1)),
{
    assert(table_view(m2) =~= table_view(m1).insert(k, (v.0@, v.1)));
}

/// Builds the syntax tree from a token sequence.
#[derive(Debug)]
pub struct AstGen<'a> {
    tokens: &'a Vec<TokenInfo>,
    current_pos: usize,
    var_table: KeyMap<(Type, Structure)>,
    func_table: KeyMap<(Type, Structure)>,
}

/// The syntax tree: one node per function definition.
pub struct AstTree {
    pub tree: Vec<AstType>,
}

impl AstTree {
    fn new(tree: Vec<AstType>) -> (r: AstTree)
        ensures
            r.tree == tree,
    {
        AstTree { tree: tree }
    }

    /// The function definitions.
    pub fn get_tree(&self) -> (r: &Vec<AstType>)
        ensures
            r == &self.tree,
    {
        &self.tree
    }
}

impl<'a> AstGen<'a> {
    /// The tokens being parsed.
    pub closed spec fn toks(&self) -> Seq<TokenView> {
        views(self.tokens@)
    }

    /// The reading position.
    pub closed spec fn pos(&self) -> int {
        self.current_pos as int
    }

    /// The names registered so far.
    pub closed spec fn tb(&self) -> Tables {
        Tables { vars: table_view(self.var_table), funcs: table_view(self.func_table) }
    }

    /// The tables are well formed and hold no more names than tokens read.
    pub closed spec fn wf(&self) -> bool {
        &&& self.var_table.wf()
        &&& self.func_table.wf()
        &&& self.var_table.count <= self.current_pos
        &&& self.func_table.count <= self.current_pos
    }

    /// After a method ran from `self` to `after`: still well formed, same
    /// tokens, and in agreement with the rule's result `res`.
    pub closed spec fn did<A>(&self, after: &Self, res: Option<(nat, Tables, A)>, r: Option<A>) -> bool {
        &&& after.wf()
        &&& after.tokens == self.tokens
        &&& outcome(res, r, self.pos(), after.pos(), after.tb())
    }

    pub fn new(tokens: &'a Vec<TokenInfo>) -> (g: AstGen<'a>)
        ensures
            g.wf(),
            g.toks() == views(tokens@),
            g.pos() == 0,
            g.tb() == empty_tables(),
    {
        let g = AstGen {
            current_pos: 0,
            tokens: tokens,
            var_table: KeyMap::new(),
            func_table: KeyMap::new(),
        };
        assert(table_view(g.var_table) =~= Map::empty());
        assert(table_view(g.func_table) =~= Map::empty());
        g
    }

    /// The variables registered while parsing.
    pub fn get_var_symbol_table(&self) -> (r: &KeyMap<(Type, Structure)>)
        ensures
            table_view(*r) == self.tb().vars,
            self.wf() ==> r.wf(),
    {
        &self.var_table
    }

    /// The functions registered while parsing.
    pub fn get_func_symbol_table(&self) -> (r: &KeyMap<(Type, Structure)>)
        ensures
            table_view(*r) == self.tb().funcs,
            self.wf() ==> r.wf(),
    {
        &self.func_table
    }

    /// The token at the cursor.
    fn next(&self) -> (r: Option<&'a TokenInfo>)
        ensures
            r matches Some(t) ==> present(self.toks(), self.pos()) && t@ == self.toks()[self.pos()],
            r is None ==> !present(self.toks(), self.pos()),
    {
        let toks: &'a Vec<TokenInfo> = self.tokens;
        if self.current_pos < toks.len() {
            Some(&toks[self.current_pos])
        } else {
            None
        }
    }

    /// The token at the cursor, which then moves past it.
    fn next_consume(&mut self) -> (r: Option<&'a TokenInfo>)
        requires
            old(self).wf(),
        ensures
            final(self).wf(),
            final(self).tokens == old(self).tokens,
            final(self).var_table == old(self).var_table,
            final(self).func_table == old(self).func_table,
            r matches Some(t) ==> present(old(self).toks(), old(self).pos()) && t@ == old(self).toks()[old(self).pos()]
                && final(self).pos() == old(self).pos() + 1,
            r is None ==> !present(old(self).toks(), old(self).pos()) && final(self).pos() == old(self).pos(),
    {
        let toks: &'a Vec<TokenInfo> = self.tokens;
        if self.current_pos < toks.len() {
            let t = &toks[self.current_pos];
            self.current_pos = self.current_pos + 1;
            Some(t)
        } else {
            None
        }
    }

    /// Moves past the token at the cursor.
    fn consume(&mut self)
        requires
            old(self).wf(),
            present(old(self).toks(), old(self).pos()),
        ensures
            final(self).wf(),
            final(self).tokens == old(self).tokens,
            final(self).var_table == old(self).var_table,
            final(self).func_table == old(self).func_table,
            final(self).pos() == old(self).pos() + 1,
    {
        assert(self.current_pos < self.tokens.len());
        self.current_pos = self.current_pos + 1;
    }

    /// Moves the cursor back by `i` tokens.
    fn back(&mut self, i: usize)
        requires
            old(self).wf(),
            i <= old(self).current_pos,
            old(self).var_table.count <= old(self).current_pos - i,
            old(self).func_table.count <= old(self).current_pos - i,
        ensures
            final(self).wf(),
            final(self).tokens == old(self).tokens,
            final(self).var_table == old(self).var_table,
            final(self).func_table == old(self).func_table,
            final(self).pos() == old(self).pos() - i,
    {
        self.current_pos = self.current_pos - i;
    }

    /// Reads one token, which must be of kind `t`.
    fn must_next(&mut self, t: Token) -> (r: bool)
        requires
            old(self).wf(),
        ensures
            final(self).wf(),
            final(self).tokens == old(self).tokens,
            final(self).var_table == old(self).var_table,
            final(self).func_table == old(self).func_table,
            r == at(old(self).toks(), old(self).pos(), t),
            r ==> final(self).pos() == old(self).pos() + 1,
    {
        match self.next_consume() {
            Some(token) => token.get_token_type() == t,
            None => false,
        }
    }

    /// A number literal.
    fn number(&self, token: &TokenInfo) -> (r: Option<AstType>)
        ensures
            node_opt(r) == p_number(token@),
    {
        match parse_i64_exec(&token.val) {
            Some(v) => Some(AstType::Factor(v)),
            None => None,
        }
    }

    /// A variable name of type `t` and shape `s`, registered if new.
    fn variable(&mut self, t: Type, s: Structure) -> (r: Option<AstType>)
        requires
            old(self).wf(),
        ensures
            old(self).did(final(self), p_variable(old(self).toks(), old(self).pos(), old(self).tb(), t@, s), node_opt(r)),
    {
        let token = match self.next_consume() {
            Some(token) => token,
            None => return None,
        };
        if token.get_token_type() != Token::Variable {
            return None;
        }
        let name = token.get_token_value();
        if self.var_table.search(&name).is_none() {
            let ghost m1 = self.var_table;
            let tt = t.duplicate();
            self.var_table.add(token.get_token_value(), (tt, s));
            proof {
                lemma_table_insert(m1, self.var_table, name@, (tt, s));
            }
        }
        Some(AstType::Variable(t, s, name))
    }

    /// A function name, which is not registered.
    fn variable_func(&mut self, t: Type, s: Structure) -> (r: Option<AstType>)
        requires
            old(self).wf(),
        ensures
            old(self).did(final(self), p_variable_func(old(self).toks(), old(self).pos(), old(self).tb(), t@, s), node_opt(r)),
    {
        let token = match self.next_consume() {
            Some(token) => token,
            None => return None,
        };
        if token.get_token_type() != Token::Variable {
            return None;
        }
        Some(AstType::Variable(t, s, token.get_token_value()))
    }

    /// An array declaration `name [ N ]`, registered if new.
    fn variable_array(&mut self, t: Type) -> (r: Option<AstType>)
        requires
            old(self).wf(),
        ensures
            old(self).did(final(self), p_variable_array(old(self).toks(), old(self).pos(), old(self).tb(), t@), node_opt(r)),
    {
        let token = match self.next_consume() {
            Some(token) => token,
            None => return None,
        };
        if token.get_token_type() != Token::Variable {
            return None;
        }
        if !self.must_next(Token::LeftBracket) {
            return None;
        }
        let size = match self.next() {
            Some(n) => n,
            None => return None,
        };
        let len = match parse_usize_exec(&size.val) {
            Some(len) => len,
            None => return None,
        };
        if !self.must_next(Token::Number) {
            return None;
        }
        if !self.must_next(Token::RightBracket) {
            return None;
        }
        let s = Structure::Array(len);
        let name = token.get_token_value();
        if self.var_table.search(&name).is_none() {
            let ghost m1 = self.var_table;
            let tt = t.duplicate();
            self.var_table.add(token.get_token_value(), (tt, s));
            proof {
                lemma_table_insert(m1, self.var_table, name@, (tt, s));
            }
        }
        Some(AstType::Variable(t, s, name))
    }

    /// After `int`: an array when `[` follows the name, else a variable.
    fn factor_int(&mut self) -> (r: Option<AstType>)
        requires
            old(self).wf(),
        ensures
            old(self).did(final(self), p_factor_int(old(self).toks(), old(self).pos(), old(self).tb()), node_opt(r)),
    {
        if self.next_consume().is_none() {
            return None;
        }
        let array = match self.next() {
            Some(token) => token.get_token_type() == Token::LeftBracket,
            None => return None,
        };
        self.back(1);
        if array {
            self.variable_array(Type::Int)
        } else {
            self.variable(Type::Int, Structure::Identifier)
        }
    }

    /// A factor: number, unary operator, declaration, variable, call or
    /// parenthesized assignment.
    #[verifier::rlimit(60)]
    fn factor(&mut self) -> (r: Option<AstType>)
        requires
            old(self).wf(),
        ensures
            old(self).did(final(self), p_factor(old(self).toks(), old(self).pos(), old(self).tb()), node_opt(r)),
        decreases rem(old(self).toks(), old(self).pos()), 4int,
    {
        let token = match self.next_consume() {
            Some(token) => token,
            None => return None,
        };
        match token.get_token_type() {
            Token::Number => self.number(token),
            Token::Plus => match self.factor() {
                Some(a) => Some(AstType::UnPlus(Box::new(a))),
                None => None,
            },
            Token::Minus => match self.factor() {
                Some(a) => Some(AstType::UnMinus(Box::new(a))),
                None => None,
            },
            Token::Not => match self.factor() {
                Some(a) => Some(AstType::Not(Box::new(a))),
                None => None,
            },
            Token::BitReverse => match self.factor() {
                Some(a) => Some(AstType::BitReverse(Box::new(a))),
                None => None,
            },
            Token::Int => self.factor_int(),
            Token::IntPointer => self.variable(Type::Int, Structure::Pointer),
            Token::And => match self.factor() {
                Some(a) => Some(AstType::Address(Box::new(a))),
                None => None,
            },
            Token::Multi => match self.factor() {
                Some(a) => Some(AstType::Indirect(Box::new(a))),
                None => None,
            },
            Token::Variable => {
                let name = token.get_token_value();
                let var = match self.var_table.search(&name) {
                    Some(sym) => Some((sym.0.duplicate(), sym.1)),
                    None => None,
                };
                match var {
                    Some((t, s)) => {
                        self.back(1);
                        self.variable(t, s)
                    },
                    None => {
                        let func = match self.func_table.search(&name) {
                            Some(sym) => Some((sym.0.duplicate(), sym.1)),
                            None => None,
                        };
                        match func {
                            Some((t, s)) => {
                                self.back(1);
                                let f = match self.variable_func(t, s) {
                                    Some(f) => f,
                                    None => return None,
                                };
                                self.call_func(f)
                            },
                            None => None,
                        }
                    },
                }
            },
            Token::LeftParen => {
                let tree = match self.assign() {
                    Some(tree) => tree,
                    None => return None,
                };
                if self.must_next(Token::RightParen) {
                    Some(tree)
                } else {
                    None
                }
            },
            _ => None,
        }
    }

    /// A call of the function `acc`: `( arguments )`.
    fn call_func(&mut self, acc: AstType) -> (r: Option<AstType>)
        requires
            old(self).wf(),
        ensures
            old(self).did(final(self), p_call_func(old(self).toks(), old(self).pos(), old(self).tb(), acc@), node_opt(r)),
        decreases rem(old(self).toks(), old(self).pos()), 3int,
    {
        if !self.must_next(Token::LeftParen) {
            return None;
        }
        let empty: Vec<AstType> = Vec::new();
        proof {
            assert(seq_view(empty@) =~= Seq::<AstView>::empty());
        }
        let args = match self.argment(empty) {
            Some(args) => args,
            None => return None,
        };
        let ghost argv = seq_view(args@);
        let args = AstType::Argment(args);
        assert(args@ == AstView::Argment(argv));
        if self.must_next(Token::RightParen) {
            Some(AstType::CallFunc(Box::new(acc), Box::new(args)))
        } else {
            None
        }
    }

    /// Call arguments after `acc`, up to the closing `)`.
    fn argment(&mut self, acc: Vec<AstType>) -> (r: Option<Vec<AstType>>)
        requires
            old(self).wf(),
        ensures
            old(self).did(final(self), p_argment(old(self).toks(), old(self).pos(), old(self).tb(), seq_view(acc@)), nodes_opt(r)),
        decreases rem(old(self).toks(), old(self).pos()), 20int,
    {
        match self.next() {
            Some(token) => if token.get_token_type() == Token::RightParen {
                return Some(acc);
            },
            None => return None,
        }
        let a = match self.assign() {
            Some(a) => a,
            None => return None,
        };
        let mut args = acc;
        let ghost before = args@;
        args.push(a);
        proof {
            lemma_seq_view_push(before, a);
        }
        match self.next() {
            Some(token) => if token.get_token_type() == Token::Comma {
                self.consume();
                self.argment(args)
            } else {
                Some(args)
            },
            None => None,
        }
    }

    /// An assignment `name = condition`, or a condition.
    #[verifier::rlimit(60)]
    fn assign(&mut self) -> (r: Option<AstType>)
        requires
            old(self).wf(),
        ensures
            old(self).did(final(self), p_assign(old(self).toks(), old(self).pos(), old(self).tb()), node_opt(r)),
        decreases rem(old(self).toks(), old(self).pos()), 19int,
    {
        let token = match self.next_consume() {
            Some(token) => token,
            None => return None,
        };
        let next_token = match self.next() {
            Some(next_token) => next_token,
            None => return None,
        };
        if token.get_token_type() == Token::Variable && next_token.get_token_type() == Token::Assign {
            self.back(1);
            let var = match self.factor() {
                Some(var) => var,
                None => return None,
            };
            proof {
                lemma_factor_before_assign(old(self).toks(), old(self).pos(), old(self).tb());
            }
            self.consume();
            match self.condition() {
                Some(c) => Some(AstType::Assign(Box::new(var), Box::new(c))),
                None => None,
            }
        } else {
            self.back(1);
            self.condition()
        }
    }

    /// A conditional expression `a ? b : c`, or a logical expression.
    fn condition(&mut self) -> (r: Option<AstType>)
        requires
            old(self).wf(),
        ensures
            old(self).did(final(self), p_condition(old(self).toks(), old(self).pos(), old(self).tb()), node_opt(r)),
        decreases rem(old(self).toks(), old(self).pos()), 18int,
    {
        let left = match self.logical() {
            Some(left) => left,
            None => return None,
        };
        self.sub_condition(left)
    }

    /// `? logical : logical` repeated after `acc`.
    fn sub_condition(&mut self, acc: AstType) -> (r: Option<AstType>)
        requires
            old(self).wf(),
        ensures
            old(self).did(final(self), p_sub_condition(old(self).toks(), old(self).pos(), old(self).tb(), acc@), node_opt(r)),
        decreases rem(old(self).toks(), old(self).pos()), 17int,
    {
        let ope = match self.next() {
            Some(token) => token.get_token_type(),
            None => return None,
        };
        if ope != Token::Question {
            return Some(acc);
        }
        self.consume();
        let middle = match self.logical() {
            Some(middle) => middle,
            None => return None,
        };
        if !self.must_next(Token::Colon) {
            return None;
        }
        let right = match self.logical() {
            Some(right) => right,
            None => return None,
        };
        let tree = AstType::Condition(Box::new(acc), Box::new(middle), Box::new(right));
        self.sub_condition(tree)
    }

    /// Operands joined by `&&`, `||` or `=`.
    fn logical(&mut self) -> (r: Option<AstType>)
        requires
            old(self).wf(),
        ensures
            old(self).did(final(self), p_level(old(self).toks(), old(self).pos(), old(self).tb(), 0), node_opt(r)),
        decreases rem(old(self).toks(), old(self).pos()), 16int,
    {
        let left = match self.bit_operator() {
            Some(left) => left,
            None => return None,
        };
        self.sub_logical(left)
    }

    fn sub_logical(&mut self, acc: AstType) -> (r: Option<AstType>)
        requires
            old(self).wf(),
        ensures
            old(self).did(final(self), p_sub_level(old(self).toks(), old(self).pos(), old(self).tb(), 0, acc@), node_opt(r)),
        decreases rem(old(self).toks(), old(self).pos()), 15int,
    {
        let ope = match self.next() {
            Some(token) => token.get_token_type(),
            None => return None,
        };
        match ope {
            Token::LogicalAnd | Token::LogicalOr | Token::Assign => {
                self.consume();
                let right = match self.bit_operator() {
                    Some(right) => right,
                    None => return None,
                };
                let tree = match ope {
                    Token::LogicalAnd => AstType::LogicalAnd(Box::new(acc), Box::new(right)),
                    Token::Assign => AstType::Assign(Box::new(acc), Box::new(right)),
                    _ => AstType::LogicalOr(Box::new(acc), Box::new(right)),
                };
                self.sub_logical(tree)
            },
            _ => Some(acc),
        }
    }

    /// Operands joined by `&`, `|` or `^`.
    fn bit_operator(&mut self) -> (r: Option<AstType>)
        requires
            old(self).wf(),
        ensures
            old(self).did(final(self), p_level(old(self).toks(), old(self).pos(), old(self).tb(), 1), node_opt(r)),
        decreases rem(old(self).toks(), old(self).pos()), 14int,
    {
        let left = match self.relation() {
            Some(left) => left,
            None => return None,
        };
        self.sub_bit_operator(left)
    }

    fn sub_bit_operator(&mut self, acc: AstType) -> (r: Option<AstType>)
        requires
            old(self).wf(),
        ensures
            old(self).did(final(self), p_sub_level(old(self).toks(), old(self).pos(), old(self).tb(), 1, acc@), node_opt(r)),
        decreases rem(old(self).toks(), old(self).pos()), 13int,
    {
        let ope = match self.next() {
            Some(token) => token.get_token_type(),
            None => return None,
        };
        match ope {
            Token::BitOr | Token::And | Token::BitXor => {
                self.consume();
                let right = match self.relation() {
                    Some(right) => right,
                    None => return None,
                };
                let tree = match ope {
                    Token::BitOr => AstType::BitOr(Box::new(acc), Box::new(right)),
                    Token::And => AstType::BitAnd(Box::new(acc), Box::new(right)),
                    _ => AstType::BitXor(Box::new(acc), Box::new(right)),
                };
                self.sub_bit_operator(tree)
            },
            _ => Some(acc),
        }
    }

    /// Operands joined by comparisons.
    fn relation(&mut self) -> (r: Option<AstType>)
        requires
            old(self).wf(),
        ensures
            old(self).did(final(self), p_level(old(self).toks(), old(self).pos(), old(self).tb(), 2), node_opt(r)),
        decreases rem(old(self).toks(), old(self).pos()), 12int,
    {
        let left = match self.shift() {
            Some(left) => left,
            None => return None,
        };
        self.sub_relation(left)
    }

    fn sub_relation(&mut self, acc: AstType) -> (r: Option<AstType>)
        requires
            old(self).wf(),
        ensures
            old(self).did(final(self), p_sub_level(old(self).toks(), old(self).pos(), old(self).tb(), 2, acc@), node_opt(r)),
        decreases rem(old(self).toks(), old(self).pos()), 11int,
    {
        let ope = match self.next() {
            Some(token) => token.get_token_type(),
            None => return None,
        };
        match ope {
            Token::Equal | Token::NotEqual | Token::LessThan | Token::LessThanEqual | Token::GreaterThan
            | Token::GreaterThanEqual => {
                self.consume();
                let right = match self.shift() {
                    Some(right) => right,
                    None => return None,
                };
                let tree = match ope {
                    Token::Equal => AstType::Equal(Box::new(acc), Box::new(right)),
                    Token::NotEqual => AstType::NotEqual(Box::new(acc), Box::new(right)),
                    Token::LessThan => AstType::LessThan(Box::new(acc), Box::new(right)),
                    Token::GreaterThan => AstType::GreaterThan(Box::new(acc), Box::new(right)),
                    Token::LessThanEqual => AstType::LessThanEqual(Box::new(acc), Box::new(right)),
                    _ => AstType::GreaterThanEqual(Box::new(acc), Box::new(right)),
                };
                self.sub_relation(tree)
            },
            _ => Some(acc),
        }
    }

    /// Operands joined by `<<` or `>>`.
    fn shift(&mut self) -> (r: Option<AstType>)
        requires
            old(self).wf(),
        ensures
            old(self).did(final(self), p_level(old(self).toks(), old(self).pos(), old(self).tb(), 3), node_opt(r)),
        decreases rem(old(self).toks(), old(self).pos()), 10int,
    {
        let left = match self.expr() {
            Some(left) => left,
            None => return None,
        };
        self.sub_shift(left)
    }

    fn sub_shift(&mut self, acc: AstType) -> (r: Option<AstType>)
        requires
            old(self).wf(),
        ensures
            old(self).did(final(self), p_sub_level(old(self).toks(), old(self).pos(), old(self).tb(), 3, acc@), node_opt(r)),
        decreases rem(old(self).toks(), old(self).pos()), 9int,
    {
        let ope = match self.next() {
            Some(token) => token.get_token_type(),
            None => return None,
        };
        match ope {
            Token::LeftShift | Token::RightShift => {
                self.consume();
                let right = match self.expr() {
                    Some(right) => right,
                    None => return None,
                };
                let tree = match ope {
                    Token::LeftShift => AstType::LeftShift(Box::new(acc), Box::new(right)),
                    _ => AstType::RightShift(Box::new(acc), Box::new(right)),
                };
                self.sub_shift(tree)
            },
            _ => Some(acc),
        }
    }

    /// Terms joined by `+` or `-`.
    fn expr(&mut self) -> (r: Option<AstType>)
        requires
            old(self).wf(),
        ensures
            old(self).did(final(self), p_level(old(self).toks(), old(self).pos(), old(self).tb(), 4), node_opt(r)),
        decreases rem(old(self).toks(), old(self).pos()), 8int,
    {
        let left = match self.term() {
            Some(left) => left,
            None => return None,
        };
        self.expr_add_sub(left)
    }

    fn expr_add_sub(&mut self, acc: AstType) -> (r: Option<AstType>)
        requires
            old(self).wf(),
        ensures
            old(self).did(final(self), p_sub_level(old(self).toks(), old(self).pos(), old(self).tb(), 4, acc@), node_opt(r)),
        decreases rem(old(self).toks(), old(self).pos()), 7int,
    {
        let ope = match self.next() {
            Some(token) => token.get_token_type(),
            None => return None,
        };
        match ope {
            Token::Plus | Token::Minus => {
                self.consume();
                let right = match self.term() {
                    Some(right) => right,
                    None => return None,
                };
                let tree = match ope {
                    Token::Plus => AstType::Plus(Box::new(acc), Box::new(right)),
                    _ => AstType::Minus(Box::new(acc), Box::new(right)),
                };
                self.expr_add_sub(tree)
            },
            _ => Some(acc),
        }
    }

    /// Factors joined by `*`, `/` or `%`.
    fn term(&mut self) -> (r: Option<AstType>)
        requires
            old(self).wf(),
        ensures
            old(self).did(final(self), p_level(old(self).toks(), old(self).pos(), old(self).tb(), 5), node_opt(r)),
        decreases rem(old(self).toks(), old(self).pos()), 6int,
    {
        let left = match self.factor() {
            Some(left) => left,
            None => return None,
        };
        self.term_multi_div(left)
    }

    fn term_multi_div(&mut self, acc: AstType) -> (r: Option<AstType>)
        requires
            old(self).wf(),
        ensures
            old(self).did(final(self), p_sub_level(old(self).toks(), old(self).pos(), old(self).tb(), 5, acc@), node_opt(r)),
        decreases rem(old(self).toks(), old(self).pos()), 5int,
    {
        let ope = match self.next() {
            Some(token) => token.get_token_type(),
            None => return None,
        };
        match ope {
            Token::Multi | Token::Division | Token::Remainder => {
                self.consume();
                let right = match self.factor() {
                    Some(right) => right,
                    None => return None,
                };
                let tree = match ope {
                    Token::Multi => AstType::Multiple(Box::new(acc), Box::new(right)),
                    Token::Division => AstType::Division(Box::new(acc), Box::new(right)),
                    _ => AstType::Remainder(Box::new(acc), Box::new(right)),
                };
                self.term_multi_div(tree)
            },
            _ => Some(acc),
        }
    }

    /// `return` followed by its value (the keyword is already read).
    fn statement_return(&mut self) -> (r: Option<AstType>)
        requires
            old(self).wf(),
        ensures
            old(self).did(final(self), p_statement_return(old(self).toks(), old(self).pos(), old(self).tb()), node_opt(r)),
    {
        match self.assign() {
            Some(expr) => Some(AstType::Return(Box::new(expr))),
            None => None,
        }
    }

    /// An expression statement ending in `;`, or a `return` statement.
    fn expression(&mut self) -> (r: Option<AstType>)
        requires
            old(self).wf(),
        ensures
            old(self).did(final(self), p_expression(old(self).toks(), old(self).pos(), old(self).tb()), node_opt(r)),
    {
        let is_return = match self.next() {
            Some(token) => token.get_token_type() == Token::Return,
            None => return None,
        };
        let expr = if is_return {
            self.consume();
            self.statement_return()
        } else {
            self.assign()
        };
        let expr = match expr {
            Some(expr) => expr,
            None => return None,
        };
        if self.must_next(Token::SemiColon) {
            Some(expr)
        } else {
            None
        }
    }

    /// `continue`.
    fn statement_continue(&self) -> (r: AstType)
        ensures
            r@ == AstView::Continue,
    {
        AstType::Continue()
    }

    /// `break`.
    fn statement_break(&self) -> (r: AstType)
        ensures
            r@ == AstView::Break,
    {
        AstType::Break()
    }

    /// A block, as a `Statement` node.
    fn statement(&mut self) -> (r: Option<AstType>)
        requires
            old(self).wf(),
        ensures
            old(self).did(final(self), p_statement(old(self).toks(), old(self).pos(), old(self).tb()), node_opt(r)),
        decreases rem(old(self).toks(), old(self).pos()), 2int,
    {
        let empty: Vec<AstType> = Vec::new();
        proof {
            assert(seq_view(empty@) =~= Seq::<AstView>::empty());
        }
        match self.sub_statement(empty) {
            Some(stmts) => {
                let ghost v = seq_view(stmts@);
                let r = AstType::Statement(stmts);
                assert(r@ == AstView::Statement(v));
                Some(r)
            },
            None => None,
        }
    }

    /// Statements after `acc` until a `}` is read; `{` and `;` are skipped.
    #[verifier::spinoff_prover]
    #[verifier::rlimit(50)]
    fn sub_statement(&mut self, acc: Vec<AstType>) -> (r: Option<Vec<AstType>>)
        requires
            old(self).wf(),
        ensures
            old(self).did(final(self), p_sub_statement(old(self).toks(), old(self).pos(), old(self).tb(), seq_view(acc@)), nodes_opt(r)),
        decreases rem(old(self).toks(), old(self).pos()), 1int,
    {
        let token = match self.next_consume() {
            Some(token) => token,
            None => return None,
        };
        let t = token.get_token_type();
        let mut stmt = acc;
        let ghost before = stmt@;
        match t {
            Token::If | Token::While | Token::For | Token::Do => {
                let st = match t {
                    Token::If => self.statement_if(),
                    Token::While => self.statement_while(),
                    Token::For => self.statement_for(),
                    _ => self.statement_do(),
                };
                let st = match st {
                    Some(st) => st,
                    None => return None,
                };
                stmt.push(st);
                proof {
                    lemma_seq_view_push(before, st);
                }
                self.sub_statement(stmt)
            },
            Token::Continue | Token::Break => {
                let st = if t == Token::Continue {
                    self.statement_continue()
                } else {
                    self.statement_break()
                };
                stmt.push(st);
                proof {
                    lemma_seq_view_push(before, st);
                }
                self.sub_statement(stmt)
            },
            Token::LeftBrace | Token::SemiColon => self.sub_statement(stmt),
            Token::RightBrace => Some(stmt),
            _ => {
                self.back(1);
                let e = match self.expression() {
                    Some(e) => e,
                    None => return None,
                };
                proof {
                    lemma_expression_consumes(old(self).toks(), old(self).pos(), old(self).tb());
                }
                stmt.push(e);
                proof {
                    lemma_seq_view_push(before, e);
                }
                self.sub_statement(stmt)
            },
        }
    }

    /// A block, or a single expression statement wrapped as a block.
    fn block_or_expr(&mut self) -> (r: Option<AstType>)
        requires
            old(self).wf(),
        ensures
            old(self).did(final(self), p_block_or_expr(old(self).toks(), old(self).pos(), old(self).tb()), node_opt(r)),
        decreases rem(old(self).toks(), old(self).pos()), 4int,
    {
        let brace = match self.next() {
            Some(token) => token.get_token_type() == Token::LeftBrace,
            None => return None,
        };
        if brace {
            self.statement()
        } else {
            match self.expression() {
                Some(e) => {
                    let ghost ev = e@;
                    let v = vec![e];
                    assert(seq_view(v@) =~= seq![ev]);
                    let r = AstType::Statement(v);
                    assert(r@ == AstView::Statement(seq![ev]));
                    Some(r)
                },
                None => None,
            }
        }
    }

    /// `( condition ) block [else block]`, after `if`.
    #[verifier::spinoff_prover]
    fn statement_if(&mut self) -> (r: Option<AstType>)
        requires
            old(self).wf(),
        ensures
            old(self).did(final(self), p_statement_if(old(self).toks(), old(self).pos(), old(self).tb()), node_opt(r)),
        decreases rem(old(self).toks(), old(self).pos()), 0int,
    {
        if !self.must_next(Token::LeftParen) {
            return None;
        }
        let condition = match self.assign() {
            Some(c) => c,
            None => return None,
        };
        if !self.must_next(Token::RightParen) {
            return None;
        }
        let stmt = match self.block_or_expr() {
            Some(st) => st,
            None => return None,
        };
        let has_else = match self.next() {
            Some(token) => token.get_token_type() == Token::Else,
            None => return None,
        };
        if has_else {
            self.consume();
            match self.block_or_expr() {
                Some(else_stmt) => {
                    let ghost e = else_stmt@;
                    let else_part = Some(else_stmt);
                    assert(opt_view(else_part) == Some(bx(e)));
                    Some(AstType::If(Box::new(condition), Box::new(stmt), Box::new(else_part)))
                },
                None => None,
            }
        } else {
            let else_part: Option<AstType> = None;
            assert(opt_view(else_part) is None);
            Some(AstType::If(Box::new(condition), Box::new(stmt), Box::new(else_part)))
        }
    }

    /// `( condition ) block`, after `while`.
    fn statement_while(&mut self) -> (r: Option<AstType>)
        requires
            old(self).wf(),
        ensures
            old(self).did(final(self), p_statement_while(old(self).toks(), old(self).pos(), old(self).tb()), node_opt(r)),
        decreases rem(old(self).toks(), old(self).pos()), 0int,
    {
        if !self.must_next(Token::LeftParen) {
            return None;
        }
        let condition = match self.assign() {
            Some(c) => c,
            None => return None,
        };
        if !self.must_next(Token::RightParen) {
            return None;
        }
        match self.statement() {
            Some(st) => Some(AstType::While(Box::new(condition), Box::new(st))),
            None => None,
        }
    }

    /// `block while ( condition )`, after `do`.
    fn statement_do(&mut self) -> (r: Option<AstType>)
        requires
            old(self).wf(),
        ensures
            old(self).did(final(self), p_statement_do(old(self).toks(), old(self).pos(), old(self).tb()), node_opt(r)),
        decreases rem(old(self).toks(), old(self).pos()), 3int,
    {
        let stmt = match self.statement() {
            Some(st) => st,
            None => return None,
        };
        if !self.must_next(Token::While) {
            return None;
        }
        if !self.must_next(Token::LeftParen) {
            return None;
        }
        let condition = match self.assign() {
            Some(c) => c,
            None => return None,
        };
        if self.must_next(Token::RightParen) {
            Some(AstType::Do(Box::new(stmt), Box::new(condition)))
        } else {
            None
        }
    }

    /// An optional part of a `for` header, empty when `stop` comes next.
    fn for_part(&mut self, stop: Token) -> (r: Option<Option<AstType>>)
        requires
            old(self).wf(),
        ensures
            final(self).wf(),
            final(self).tokens == old(self).tokens,
            outcome(
                p_for_part(old(self).toks(), old(self).pos(), old(self).tb(), stop),
                match r {
                    Some(o) => Some(opt_view(o)),
                    None => None,
                },
                old(self).pos(),
                final(self).pos(),
                final(self).tb(),
            ),
    {
        let empty = match self.next() {
            Some(token) => token.get_token_type() == stop,
            None => return None,
        };
        if empty {
            Some(None)
        } else {
            match self.assign() {
                Some(a) => Some(Some(a)),
                None => None,
            }
        }
    }

    /// `( [init] ; [condition] ; [update] ) block`, after `for`.
    fn statement_for(&mut self) -> (r: Option<AstType>)
        requires
            old(self).wf(),
        ensures
            old(self).did(final(self), p_statement_for(old(self).toks(), old(self).pos(), old(self).tb()), node_opt(r)),
        decreases rem(old(self).toks(), old(self).pos()), 0int,
    {
        if !self.must_next(Token::LeftParen) {
            return None;
        }
        let begin = match self.for_part(Token::SemiColon) {
            Some(b) => b,
            None => return None,
        };
        if !self.must_next(Token::SemiColon) {
            return None;
        }
        let condition = match self.for_part(Token::SemiColon) {
            Some(c) => c,
            None => return None,
        };
        if !self.must_next(Token::SemiColon) {
            return None;
        }
        let end = match self.for_part(Token::RightParen) {
            Some(e) => e,
            None => return None,
        };
        if !self.must_next(Token::RightParen) {
            return None;
        }
        match self.statement() {
            Some(st) => Some(AstType::For(Box::new(begin), Box::new(condition), Box::new(end), Box::new(st))),
            None => None,
        }
    }

    /// Whether the token at the cursor is a type (`int` or `int*`); `None`
    /// past the end.
    fn is_type_token(&self) -> (r: Option<bool>)
        ensures
            r matches Some(b) ==> present(self.toks(), self.pos())
                && b == (self.toks()[self.pos()].token == Token::Int || self.toks()[self.pos()].token == Token::IntPointer),
            r is None ==> !present(self.toks(), self.pos()),
    {
        match self.next() {
            Some(token) => Some(
                match token.get_token_type() {
                    Token::Int | Token::IntPointer => true,
                    _ => false,
                },
            ),
            None => None,
        }
    }

    /// Reads the type that starts a definition.
    fn generate_type(&mut self) -> (r: Option<(Type, Structure)>)
        requires
            old(self).wf(),
        ensures
            final(self).wf(),
            final(self).tokens == old(self).tokens,
            final(self).var_table == old(self).var_table,
            final(self).func_table == old(self).func_table,
            r matches Some((t, s)) ==> present(old(self).toks(), old(self).pos())
                && (t@, s) == p_generate_type(old(self).toks()[old(self).pos()])
                && final(self).pos() == old(self).pos() + 1,
            r is None ==> !present(old(self).toks(), old(self).pos()),
    {
        let token = match self.next_consume() {
            Some(token) => token,
            None => return None,
        };
        match token.get_token_type() {
            Token::Int => Some((Type::Int, Structure::Identifier)),
            Token::IntPointer => Some((Type::Int, Structure::Pointer)),
            _ => Some((Type::Unknown(token.get_token_value()), Structure::Unknown)),
        }
    }

    /// `( parameters )` of a definition.
    fn func_args(&mut self) -> (r: Option<AstType>)
        requires
            old(self).wf(),
        ensures
            old(self).did(final(self), p_func_args(old(self).toks(), old(self).pos(), old(self).tb()), node_opt(r)),
    {
        if !self.must_next(Token::LeftParen) {
            return None;
        }
        let empty: Vec<AstType> = Vec::new();
        proof {
            assert(seq_view(empty@) =~= Seq::<AstView>::empty());
        }
        let args = match self.recur_func_args(empty) {
            Some(args) => args,
            None => return None,
        };
        let ghost argv = seq_view(args@);
        let args = AstType::Argment(args);
        assert(args@ == AstView::Argment(argv));
        if self.must_next(Token::RightParen) {
            Some(args)
        } else {
            None
        }
    }

    /// Parameters after `a`: each starts with a type; separated by commas.
    fn recur_func_args(&mut self, a: Vec<AstType>) -> (r: Option<Vec<AstType>>)
        requires
            old(self).wf(),
        ensures
            old(self).did(final(self), p_recur_func_args(old(self).toks(), old(self).pos(), old(self).tb(), seq_view(a@)), nodes_opt(r)),
        decreases rem(old(self).toks(), old(self).pos()),
    {
        match self.is_type_token() {
            Some(true) => {},
            Some(false) => return Some(a),
            None => return None,
        }
        let x = match self.assign() {
            Some(x) => x,
            None => return None,
        };
        let mut args = a;
        let ghost before = args@;
        args.push(x);
        proof {
            lemma_seq_view_push(before, x);
        }
        match self.next() {
            Some(comma) => if comma.get_token_type() == Token::Comma {
                self.consume();
                self.recur_func_args(args)
            } else {
                Some(args)
            },
            None => None,
        }
    }

    /// A function definition; its name is registered as a function and
    /// must not be one already.
    fn func_def(&mut self) -> (r: Option<AstType>)
        requires
            old(self).wf(),
        ensures
            old(self).did(final(self), p_func_def(old(self).toks(), old(self).pos(), old(self).tb()), node_opt(r)),
    {
        reveal(p_func_def);
        let (t, s) = match self.generate_type() {
            Some(ts) => ts,
            None => return None,
        };
        let token = match self.next_consume() {
            Some(token) => token,
            None => return None,
        };
        if token.get_token_type() != Token::Variable {
            return None;
        }
        let name = token.get_token_value();
        if self.func_table.search(&name).is_some() {
            return None;
        }
        let ghost m1 = self.func_table;
        let tt = t.duplicate();
        self.func_table.add(token.get_token_value(), (tt, s));
        proof {
            lemma_table_insert(m1, self.func_table, name@, (tt, s));
        }
        let args = match self.func_args() {
            Some(args) => args,
            None => return None,
        };
        match self.statement() {
            Some(body) => Some(AstType::FuncDef(t, name, Box::new(args), Box::new(body))),
            None => None,
        }
    }

    /// Function definitions up to the `End` token, or `None` where the
    /// tokens do not form a program.
    pub fn try_parse(&mut self) -> (r: Option<AstTree>)
        requires
            old(self).wf(),
        ensures
            final(self).wf(),
            final(self).toks() == old(self).toks(),
            match p_parse_from(old(self).toks(), old(self).pos(), old(self).tb(), Seq::empty()) {
                Some((tb, v)) => r matches Some(t) && seq_view(t.tree@) == v && final(self).tb() == tb,
                None => r is None,
            },
    {
        let ghost res = p_parse_from(self.toks(), self.pos(), self.tb(), Seq::empty());
        let mut s: Vec<AstType> = Vec::new();
        proof {
            assert(seq_view(s@) =~= Seq::<AstView>::empty());
        }
        loop
            invariant
                self.wf(),
                self.tokens == old(self).tokens,
                res == p_parse_from(self.toks(), self.pos(), self.tb(), seq_view(s@)),
                res == p_parse_from(old(self).toks(), old(self).pos(), old(self).tb(), Seq::empty()),
            decreases rem(self.toks(), self.pos()),
        {
            let at_end = match self.next() {
                Some(token) => token.get_token_type() == Token::End,
                None => return None,
            };
            if at_end {
                return Some(AstTree::new(s));
            }
            let ghost before = s@;
            let ghost p0 = self.pos();
            let ghost tb0 = self.tb();
            let f = match self.func_def() {
                Some(f) => f,
                None => return None,
            };
            proof {
                lemma_func_def_consumes(self.toks(), p0, tb0);
            }
            s.push(f);
            proof {
                lemma_seq_view_push(before, f);
            }
        }
    }

    /// The syntax tree of the tokens (`parse_tokens` for a new parser).
    pub fn parse(&mut self) -> (r: AstTree)
        requires
            old(self).wf(),
            p_parse_from(old(self).toks(), old(self).pos(), old(self).tb(), Seq::empty()) is Some,
        ensures
            final(self).wf(),
            final(self).toks() == old(self).toks(),
            p_parse_from(old(self).toks(), old(self).pos(), old(self).tb(), Seq::empty())
                == Some((final(self).tb(), seq_view(r.tree@))),
    {
        match self.try_parse() {
            Some(t) => t,
            None => {
                proof {
                    assert(false);
                }
                AstTree::new(Vec::new())
            },
        }
    }
}

} // verus!
