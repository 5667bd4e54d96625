use vstd::prelude::*;

verus! {

/// Kinds of tokens produced by the lexical analysis.
#[derive(Debug, Clone, Copy, PartialEq, Eq, Structural)]
pub enum Token {
    If,
    Else,
    Do,
    While,
    For,
    Continue,
    Break,
    Return,
    BitReverse,
    And,
    BitOr,
    BitXor,
    LeftShift,
    RightShift,
    Question,
    Colon,
    Comma,
    LogicalAnd,
    LogicalOr,
    Equal,
    NotEqual,
    LessThan,
    GreaterThan,
    LessThanEqual,
    GreaterThanEqual,
    Number,
    Variable,
    Plus,
    Minus,
    Multi,
    Division,
    Remainder,
    LeftParen,
    RightParen,
    LeftBrace,
    RightBrace,
    LeftBracket,
    RightBracket,
    Not,
    SemiColon,
    Assign,
    Int,
    IntPointer,
    Char,
    CharPointer,
    Inc,
    Dec,
    StringLiteral,
    SizeOf,
    PlusAssign,
    MinusAssign,
    MultipleAssign,
    DivisionAssign,
    RemainderAssign,
    Struct,
    End,
}

/// Source position of a token: file name, row and column.
#[derive(Debug, Clone, PartialEq)]
pub struct PosInfo {
    pub name: String,
    pub row: usize,
    pub col: usize,
}

/// Mathematical content of a position.
pub ghost struct PosView {
    pub name: Seq<char>,
    pub row: usize,
    pub col: usize,
}

impl View for PosInfo {
    type V = PosView;

    open spec fn view(&self) -> PosView {
        PosView { name: self.name@, row: self.row, col: self.col }
    }
}

impl PosInfo {
    pub fn new(n: String, r: usize, c: usize) -> (p: PosInfo)
        ensures
            p@ == (PosView { name: n@, row: r, col: c }),
    {
        PosInfo { name: n, row: r, col: c }
    }
}

/// A token together with its text and position.
#[derive(Debug, Clone, PartialEq)]
pub struct TokenInfo {
    pub token: Token,
    pub val: String,
    pub pos: PosInfo,
}

/// Mathematical content of a token.
pub ghost struct TokenView {
    pub token: Token,
    pub val: Seq<char>,
    pub pos: PosView,
}

impl View for TokenInfo {
    type V = TokenView;

    open spec fn view(&self) -> TokenView {
        TokenView { token: self.token, val: self.val@, pos: self.pos@ }
    }
}

impl TokenInfo {
    pub fn new(t: Token, v: String, pos: (String, usize, usize)) -> (r: TokenInfo)
        ensures
            r@ == (TokenView {
                token: t,
                val: v@,
                pos: PosView { name: pos.0@, row: pos.1, col: pos.2 },
            }),
            r.val == v,
    {
        TokenInfo { token: t, val: v, pos: PosInfo::new(pos.0, pos.1, pos.2) }
    }

    pub fn get_token_type(&self) -> (t: Token)
        ensures
            t == self.token,
    {
        self.token
    }

    pub fn get_token_value(&self) -> (v: String)
        ensures
            v == self.val,
            v@ == self.val@,
    {
        self.val.clone()
    }
}

} // verus!
