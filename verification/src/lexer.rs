use vstd::prelude::*;
use crate::text::{char_to_string, is_digit, lit, string_push};
use crate::token::{PosView, Token, TokenInfo, TokenView};

verus! {

// ---------------------------------------------------------------------------
// The lexical rules, stated over the input's characters.

/// Reading position: index into the input, row and column.
pub ghost struct Cursor {
    pub pos: int,
    pub row: int,
    pub col: int,
}

/// The cursor moved `k` characters to the right on the same row.
pub open spec fn adv(c: Cursor, k: int) -> Cursor {
    Cursor { pos: c.pos + k, row: c.row, col: c.col + k }
}

/// ASCII whitespace: space, tab, line feed, form feed, carriage return.
pub open spec fn is_space(c: char) -> bool {
    c == ' ' || c == '\t' || c == '\n' || c == '\x0C' || c == '\r'
}

/// What `char::is_alphabetic` answers for `c`: whether it has the Unicode
/// `Alphabetic` property.
pub uninterp spec fn alphabetic(c: char) -> bool;

/// A letter, as `char::is_alphabetic` decides it: among ASCII characters
/// exactly the letters, beyond ASCII the characters with the Unicode
/// `Alphabetic` property.
pub open spec fn is_alpha(c: char) -> bool {
    if c <= '\x7F' {
        ('a' <= c && c <= 'z') || ('A' <= c && c <= 'Z')
    } else {
        alphabetic(c)
    }
}

/// A character that may continue a name.
pub open spec fn is_ident(c: char) -> bool {
    is_alpha(c) || c == '_' || is_digit(c)
}

/// Up to `n` characters from the cursor on.
pub open spec fn peek(inp: Seq<char>, c: Cursor, n: int) -> Seq<char> {
    if c.pos < 0 || c.pos >= inp.len() {
        Seq::empty()
    } else if c.pos + n <= inp.len() {
        inp.subrange(c.pos, c.pos + n)
    } else {
        inp.subrange(c.pos, inp.len() as int)
    }
}

/// Length of the run of characters satisfying `f` that starts at `p`.
pub open spec fn run(inp: Seq<char>, p: int, f: spec_fn(char) -> bool) -> int
    decreases inp.len() - p,
{
    if 0 <= p < inp.len() && f(inp[p]) {
        1 + run(inp, p + 1, f)
    } else {
        0
    }
}

pub open spec fn ident_run(inp: Seq<char>, p: int) -> int {
    run(inp, p, |c: char| is_ident(c))
}

pub open spec fn digit_run(inp: Seq<char>, p: int) -> int {
    run(inp, p, |c: char| is_digit(c))
}

pub open spec fn text_run(inp: Seq<char>, p: int) -> int {
    run(inp, p, |c: char| c != '"')
}

/// Skips whitespace; a line feed starts a new row whose first column is 1.
pub open spec fn skip_spaces(inp: Seq<char>, c: Cursor) -> Cursor
    decreases inp.len() - c.pos,
{
    if 0 <= c.pos < inp.len() && is_space(inp[c.pos]) {
        skip_spaces(
            inp,
            if inp[c.pos] == '\n' {
                Cursor { pos: c.pos + 1, row: c.row + 1, col: 1 }
            } else {
                adv(c, 1)
            },
        )
    } else {
        c
    }
}

/// Moves to the next line feed, or to the end.
pub open spec fn to_line_end(inp: Seq<char>, c: Cursor) -> Cursor
    decreases inp.len() - c.pos,
{
    if 0 <= c.pos < inp.len() && inp[c.pos] != '\n' {
        to_line_end(inp, adv(c, 1))
    } else {
        c
    }
}

/// Skips one `//` comment: up to and over its line feed (the new row starts
/// at column 0), then the whitespace that follows.
pub open spec fn skip_comment(inp: Seq<char>, c: Cursor) -> Cursor {
    if peek(inp, c, 2) == seq!['/', '/'] {
        let e = to_line_end(inp, adv(c, 2));
        if 0 <= e.pos < inp.len() && inp[e.pos] == '\n' {
            skip_spaces(inp, Cursor { pos: e.pos + 1, row: e.row + 1, col: 0 })
        } else {
            e
        }
    } else {
        c
    }
}

/// The word starting with `v` (already read) continues with `rest` and is
/// then followed by a character that cannot continue a name.
pub open spec fn keyword_at(inp: Seq<char>, c: Cursor, v: char, first: char, rest: Seq<char>) -> bool {
    let n: int = rest.len() as int + 1;
    let s = peek(inp, c, n);
    &&& v == first
    &&& s.len() == n
    &&& s.subrange(0, n - 1) == rest
    &&& !is_ident(s[n - 1])
}

pub open spec fn tok(name: Seq<char>, t: Token, val: Seq<char>, row: int, col: int) -> TokenView {
    TokenView { token: t, val, pos: PosView { name, row: row as usize, col: col as usize } }
}

/// A type keyword of `k + 1` letters; whitespace after it is skipped and a
/// following `*` makes it a pointer type. The token keeps the column where
/// the keyword started. `None` when the input ends after the whitespace.
pub open spec fn typed(
    inp: Seq<char>,
    name: Seq<char>,
    c: Cursor,
    k: int,
    t: Token,
    tp: Token,
    s: Seq<char>,
    sp: Seq<char>,
) -> Option<(Cursor, TokenView)> {
    let q = skip_spaces(inp, adv(c, k));
    if q.pos >= inp.len() {
        None
    } else if inp[q.pos] == '*' {
        Some((adv(q, 1), tok(name, tp, sp, q.row, c.col)))
    } else {
        Some((q, tok(name, t, s, q.row, c.col)))
    }
}

/// `int` or `char` (possibly a pointer). Outer `None`: the input ends where a
/// character is needed; inner `None`: not a type keyword.
pub open spec fn type_token(inp: Seq<char>, name: Seq<char>, c: Cursor, v: char) -> Option<
    Option<(Cursor, TokenView)>,
> {
    if keyword_at(inp, c, v, 'i', seq!['n', 't']) {
        match typed(inp, name, c, 2, Token::Int, Token::IntPointer, "int"@, "int*"@) {
            Some(r) => Some(Some(r)),
            None => None,
        }
    } else if keyword_at(inp, c, v, 'c', seq!['h', 'a', 'r']) {
        match typed(inp, name, c, 3, Token::Char, Token::CharPointer, "char"@, "char*"@) {
            Some(r) => Some(Some(r)),
            None => None,
        }
    } else {
        Some(None)
    }
}

/// A keyword token at the cursor's column, after which `k` more characters
/// are skipped.
pub open spec fn word(name: Seq<char>, c: Cursor, k: int, t: Token, s: Seq<char>) -> (Cursor, TokenView) {
    (adv(c, k), tok(name, t, s, c.row, c.col))
}

/// Statement keywords, tried in the order if, else, while, for, do,
/// continue, break, return.
pub open spec fn statement_token(inp: Seq<char>, name: Seq<char>, c: Cursor, v: char) -> Option<
    (Cursor, TokenView),
> {
    if keyword_at(inp, c, v, 'i', seq!['f']) {
        Some(word(name, c, 1, Token::If, "if"@))
    } else if keyword_at(inp, c, v, 'e', seq!['l', 's', 'e']) {
        Some(word(name, c, 3, Token::Else, "else"@))
    } else if keyword_at(inp, c, v, 'w', seq!['h', 'i', 'l', 'e']) {
        Some(word(name, c, 4, Token::While, "while"@))
    } else if keyword_at(inp, c, v, 'f', seq!['o', 'r']) {
        Some(word(name, c, 2, Token::For, "for"@))
    } else if keyword_at(inp, c, v, 'd', seq!['o']) {
        Some(word(name, c, 1, Token::Do, "do"@))
    } else if keyword_at(inp, c, v, 'c', seq!['o', 'n', 't', 'i', 'n', 'u', 'e']) {
        Some(word(name, c, 7, Token::Continue, "continue"@))
    } else if keyword_at(inp, c, v, 'b', seq!['r', 'e', 'a', 'k']) {
        Some(word(name, c, 4, Token::Break, "break"@))
    } else if keyword_at(inp, c, v, 'r', seq!['e', 't', 'u', 'r', 'n']) {
        Some(word(name, c, 5, Token::Return, "return"@))
    } else {
        None
    }
}

pub open spec fn sizeof_token(inp: Seq<char>, name: Seq<char>, c: Cursor, v: char) -> Option<
    (Cursor, TokenView),
> {
    if keyword_at(inp, c, v, 's', seq!['i', 'z', 'e', 'o', 'f']) {
        Some(word(name, c, 5, Token::SizeOf, "sizeof"@))
    } else {
        None
    }
}

/// A name: `v` and the characters that may continue it; the token is placed
/// at the column of its first character.
pub open spec fn variable_token(inp: Seq<char>, name: Seq<char>, c: Cursor, v: char) -> (Cursor, TokenView) {
    let k = ident_run(inp, c.pos);
    (adv(c, k), tok(name, Token::Variable, seq![v] + inp.subrange(c.pos, c.pos + k), c.row, c.col))
}

/// A token that starts with a letter or `_`; `None` when reading goes past
/// the end of the input.
pub open spec fn word_token(inp: Seq<char>, name: Seq<char>, c: Cursor, v: char) -> Option<(Cursor, TokenView)> {
    match type_token(inp, name, c, v) {
        None => None,
        Some(Some(r)) => Some(r),
        Some(None) => match statement_token(inp, name, c, v) {
            Some(r) => Some(r),
            None => match sizeof_token(inp, name, c, v) {
                Some(r) => Some(r),
                None => Some(variable_token(inp, name, c, v)),
            },
        },
    }
}

/// Tokens of a single character that never combine with the next one.
pub open spec fn single_token(v: char) -> Option<Token> {
    if v == '^' {
        Some(Token::BitXor)
    } else if v == '~' {
        Some(Token::BitReverse)
    } else if v == '(' {
        Some(Token::LeftParen)
    } else if v == ')' {
        Some(Token::RightParen)
    } else if v == '{' {
        Some(Token::LeftBrace)
    } else if v == '}' {
        Some(Token::RightBrace)
    } else if v == '[' {
        Some(Token::LeftBracket)
    } else if v == ']' {
        Some(Token::RightBracket)
    } else if v == '?' {
        Some(Token::Question)
    } else if v == ':' {
        Some(Token::Colon)
    } else if v == ';' {
        Some(Token::SemiColon)
    } else if v == ',' {
        Some(Token::Comma)
    } else {
        None
    }
}

/// The one-character token `v` at the cursor.
pub open spec fn one(name: Seq<char>, c: Cursor, t: Token, v: char) -> (Cursor, TokenView) {
    (c, tok(name, t, seq![v], c.row, c.col))
}

/// A two-character token: placed at the cursor, then the second character
/// is skipped.
pub open spec fn two(name: Seq<char>, c: Cursor, t: Token, s: Seq<char>) -> (Cursor, TokenView) {
    (adv(c, 1), tok(name, t, s, c.row, c.col))
}

/// A token that starts with the non-letter `v` (already read). Operators
/// look at the next character, which must exist. `None` when the input ends
/// where a character is needed, or `v` starts no token.
pub open spec fn symbol_token(inp: Seq<char>, name: Seq<char>, c: Cursor, v: char) -> Option<(Cursor, TokenView)> {
    let at = 0 <= c.pos < inp.len();
    let nx = inp[c.pos];
    if v == '=' {
        if !at { None } else if nx == '=' { Some(two(name, c, Token::Equal, "=="@)) } else { Some(one(name, c, Token::Assign, v)) }
    } else if v == '!' {
        if !at { None } else if nx == '=' { Some(two(name, c, Token::NotEqual, "!="@)) } else { Some(one(name, c, Token::Not, v)) }
    } else if v == '>' {
        if !at {
            None
        } else if nx == '=' {
            Some(two(name, c, Token::GreaterThanEqual, ">="@))
        } else if nx == '>' {
            Some(two(name, c, Token::RightShift, ">>"@))
        } else {
            Some(one(name, c, Token::GreaterThan, v))
        }
    } else if v == '<' {
        if !at {
            None
        } else if nx == '=' {
            Some(two(name, c, Token::LessThanEqual, "<="@))
        } else if nx == '<' {
            Some(two(name, c, Token::LeftShift, "<<"@))
        } else {
            Some(one(name, c, Token::LessThan, v))
        }
    } else if v == '&' {
        if !at {
            None
        } else if nx == '&' {
            Some((adv(c, 1), tok(name, Token::LogicalAnd, "&&"@, c.row, c.col + 1)))
        } else {
            Some(one(name, c, Token::And, v))
        }
    } else if v == '|' {
        if !at {
            None
        } else if nx == '|' {
            Some((adv(c, 1), tok(name, Token::LogicalOr, "||"@, c.row, c.col + 1)))
        } else {
            Some(one(name, c, Token::BitOr, v))
        }
    } else if v == '+' {
        if !at {
            None
        } else if nx == '+' {
            Some(two(name, c, Token::Inc, "++"@))
        } else if nx == '=' {
            Some(two(name, c, Token::PlusAssign, "+="@))
        } else {
            Some(one(name, c, Token::Plus, v))
        }
    } else if v == '-' {
        if !at {
            None
        } else if nx == '-' {
            Some(two(name, c, Token::Dec, "--"@))
        } else if nx == '=' {
            Some(two(name, c, Token::MinusAssign, "-="@))
        } else {
            Some(one(name, c, Token::Minus, v))
        }
    } else if v == '*' {
        if !at { None } else if nx == '=' { Some(two(name, c, Token::MultipleAssign, "*="@)) } else { Some(one(name, c, Token::Multi, v)) }
    } else if v == '/' {
        if !at { None } else if nx == '=' { Some(two(name, c, Token::DivisionAssign, "/="@)) } else { Some(one(name, c, Token::Division, v)) }
    } else if v == '%' {
        if !at { None } else if nx == '=' { Some(two(name, c, Token::RemainderAssign, "%="@)) } else { Some(one(name, c, Token::Remainder, v)) }
    } else if v == '"' {
        let k = text_run(inp, c.pos);
        if c.pos + k >= inp.len() {
            None
        } else {
            Some((adv(c, k + 1), tok(name, Token::StringLiteral, inp.subrange(c.pos, c.pos + k), c.row, c.col)))
        }
    } else if single_token(v) is Some {
        Some(one(name, c, single_token(v)->0, v))
    } else if is_digit(v) {
        let k = digit_run(inp, c.pos);
        Some((adv(c, k), tok(name, Token::Number, seq![v] + inp.subrange(c.pos, c.pos + k), c.row, c.col + k)))
    } else {
        None
    }
}

/// One round of the lexer: skip whitespace and a comment, read a character
/// and make the token it starts. Reading at the end gives no token (the
/// cursor still moves). `None` when the input cannot be tokenized here.
pub open spec fn step(inp: Seq<char>, name: Seq<char>, c: Cursor) -> Option<(Cursor, Option<TokenView>)> {
    let d = skip_comment(inp, skip_spaces(inp, c));
    if d.pos >= inp.len() {
        Some((adv(d, 1), None))
    } else {
        let v = inp[d.pos];
        let e = adv(d, 1);
        let r = if is_alpha(v) || v == '_' {
            word_token(inp, name, e, v)
        } else {
            symbol_token(inp, name, e, v)
        };
        match r {
            None => None,
            Some((f, t)) => Some((f, Some(t))),
        }
    }
}

/// The tokens read from the cursor on, ended by an `End` token at the final
/// position; `None` when the input cannot be tokenized.
pub open spec fn lex_from(inp: Seq<char>, name: Seq<char>, c: Cursor) -> Option<Seq<TokenView>>
    decreases inp.len() + 1 - c.pos,
    via lex_from_decreases
{
    if c.pos < 0 || c.pos >= inp.len() {
        Some(seq![tok(name, Token::End, "End"@, c.row, c.col)])
    } else {
        match step(inp, name, c) {
            None => None,
            Some((d, t)) => match lex_from(inp, name, d) {
                None => None,
                Some(rest) => Some(
                    match t {
                        Some(t) => seq![t] + rest,
                        None => rest,
                    },
                ),
            },
        }
    }
}

/// No token read by one round of the lexer is an `End` token.
proof fn lemma_step_not_end(inp: Seq<char>, name: Seq<char>, c: Cursor)
    ensures
        step(inp, name, c) matches Some((_, Some(t))) ==> t.token != Token::End,
{
    let d = skip_comment(inp, skip_spaces(inp, c));
    if d.pos < inp.len() {
        let v = inp[d.pos];
        let e = adv(d, 1);
        if is_alpha(v) || v == '_' {
            assert(word_token(inp, name, e, v) matches Some((_, t)) ==> t.token != Token::End);
        } else {
            assert(symbol_token(inp, name, e, v) matches Some((_, t)) ==> t.token != Token::End);
        }
    }
}

/// The tokens of a source end with one `End` token, the only one among
/// them.
pub proof fn law_lex_ends_with_end(inp: Seq<char>, name: Seq<char>, c: Cursor)
    ensures
        lex_from(inp, name, c) matches Some(ts) ==> ts.len() >= 1 && ts.last().token == Token::End
            && forall|i: int| 0 <= i < ts.len() - 1 ==> #[trigger] ts[i].token != Token::End,
    decreases inp.len() + 1 - c.pos,
{
    if !(c.pos < 0 || c.pos >= inp.len()) {
        lemma_step_advances(inp, name, c);
        lemma_step_not_end(inp, name, c);
        if let Some((d, t)) = step(inp, name, c) {
            law_lex_ends_with_end(inp, name, d);
            if let Some(rest) = lex_from(inp, name, d) {
                if let Some(tk) = t {
                    let ts = seq![tk] + rest;
                    assert forall|i: int| 0 <= i < ts.len() - 1 implies #[trigger] ts[i].token != Token::End by {
                        if i > 0 {
                            assert(ts[i] == rest[i - 1]);
                        }
                    }
                    assert(ts.last() == rest.last());
                }
            }
        }
    }
}

#[via_fn]
proof fn lex_from_decreases(inp: Seq<char>, name: Seq<char>, c: Cursor) {
    if !(c.pos < 0 || c.pos >= inp.len()) {
        lemma_step_advances(inp, name, c);
    }
}

/// The tokens of a whole input, read from row 1, column 0.
pub open spec fn lex(name: Seq<char>, inp: Seq<char>) -> Option<Seq<TokenView>> {
    lex_from(inp, name, Cursor { pos: 0, row: 1, col: 0 })
}

// ---------------------------------------------------------------------------
// Facts about the rules.

proof fn lemma_run(inp: Seq<char>, p: int, f: spec_fn(char) -> bool)
    requires
        0 <= p <= inp.len(),
    ensures
        0 <= run(inp, p, f),
        p + run(inp, p, f) <= inp.len(),
        forall|i: int| p <= i < p + run(inp, p, f) ==> f(#[trigger] inp[i]),
        p + run(inp, p, f) < inp.len() ==> !f(inp[p + run(inp, p, f)]),
    decreases inp.len() - p,
{
    if p < inp.len() && f(inp[p]) {
        lemma_run(inp, p + 1, f);
    }
}

proof fn lemma_skip_spaces(inp: Seq<char>, c: Cursor)
    requires
        0 <= c.pos,
    ensures
        skip_spaces(inp, c).pos >= c.pos,
        c.pos <= inp.len() ==> skip_spaces(inp, c).pos <= inp.len(),
    decreases inp.len() - c.pos,
{
    if 0 <= c.pos < inp.len() && is_space(inp[c.pos]) {
        let d = if inp[c.pos] == '\n' {
            Cursor { pos: c.pos + 1, row: c.row + 1, col: 1 }
        } else {
            adv(c, 1)
        };
        lemma_skip_spaces(inp, d);
    }
}

proof fn lemma_to_line_end(inp: Seq<char>, c: Cursor)
    requires
        0 <= c.pos,
    ensures
        to_line_end(inp, c).pos >= c.pos,
        c.pos <= inp.len() ==> to_line_end(inp, c).pos <= inp.len(),
    decreases inp.len() - c.pos,
{
    if 0 <= c.pos < inp.len() && inp[c.pos] != '\n' {
        lemma_to_line_end(inp, adv(c, 1));
    }
}

proof fn lemma_skip_comment(inp: Seq<char>, c: Cursor)
    requires
        0 <= c.pos,
    ensures
        skip_comment(inp, c).pos >= c.pos,
        c.pos <= inp.len() ==> skip_comment(inp, c).pos <= inp.len(),
{
    if peek(inp, c, 2) == seq!['/', '/'] {
        assert(peek(inp, c, 2).len() == 2);
        lemma_to_line_end(inp, adv(c, 2));
        let e = to_line_end(inp, adv(c, 2));
        lemma_skip_spaces(inp, Cursor { pos: e.pos + 1, row: e.row + 1, col: 0 });
    }
}

proof fn lemma_step_advances(inp: Seq<char>, name: Seq<char>, c: Cursor)
    requires
        0 <= c.pos < inp.len(),
    ensures
        step(inp, name, c) matches Some((d, _)) ==> c.pos < d.pos <= inp.len() + 1,
{
    lemma_skip_spaces(inp, c);
    let s = skip_spaces(inp, c);
    lemma_skip_comment(inp, s);
    let d = skip_comment(inp, s);
    if d.pos < inp.len() {
        let e = adv(d, 1);
        lemma_skip_spaces(inp, adv(e, 2));
        lemma_skip_spaces(inp, adv(e, 3));
        lemma_run(inp, e.pos, |ch: char| is_ident(ch));
        lemma_run(inp, e.pos, |ch: char| is_digit(ch));
        lemma_run(inp, e.pos, |ch: char| ch != '"');
    }
}

// ---------------------------------------------------------------------------
// The tokens keep the text.

/// The characters of the input from position `i` up to `j` (both taken
/// within the input) that are not whitespace, in order.
pub open spec fn nonspace(inp: Seq<char>, i: int, j: int) -> Seq<char>
    decreases j - i,
{
    if 0 <= i && i < j && i < inp.len() {
        (if is_space(inp[i]) { Seq::empty() } else { seq![inp[i]] }) + nonspace(inp, i + 1, j)
    } else {
        Seq::empty()
    }
}

/// The texts of the tokens, one after the other.
pub open spec fn token_text(ts: Seq<TokenView>) -> Seq<char>
    decreases ts.len(),
{
    if ts.len() == 0 {
        Seq::empty()
    } else {
        ts[0].val + token_text(ts.drop_first())
    }
}

/// A source with no string literal and no comment.
pub open spec fn plain_source(inp: Seq<char>) -> bool {
    forall|i: int|
        0 <= i < inp.len() ==> #[trigger] inp[i] != '"' && !(i + 1 < inp.len() && inp[i] == '/' && inp[i + 1] == '/')
}

proof fn lemma_nonspace_split(inp: Seq<char>, i: int, j: int, k: int)
    requires
        0 <= i <= j <= k,
    ensures
        nonspace(inp, i, k) == nonspace(inp, i, j) + nonspace(inp, j, k),
    decreases j - i,
{
    if i == j {
        assert(nonspace(inp, i, j) + nonspace(inp, j, k) =~= nonspace(inp, j, k));
    } else if i >= inp.len() {
        assert(nonspace(inp, i, j) + nonspace(inp, j, k) =~= Seq::<char>::empty());
    } else {
        lemma_nonspace_split(inp, i + 1, j, k);
        let h = if is_space(inp[i]) { Seq::<char>::empty() } else { seq![inp[i]] };
        assert(h + (nonspace(inp, i + 1, j) + nonspace(inp, j, k)) =~= (h + nonspace(inp, i + 1, j)) + nonspace(inp, j, k));
    }
}

proof fn lemma_nonspace_clamp(inp: Seq<char>, i: int, j: int)
    requires
        0 <= i,
        j >= inp.len(),
    ensures
        nonspace(inp, i, j) == nonspace(inp, i, inp.len() as int),
    decreases j - i,
{
    if i < inp.len() {
        lemma_nonspace_clamp(inp, i + 1, j);
    }
}

proof fn lemma_nonspace_plain(inp: Seq<char>, i: int, j: int)
    requires
        0 <= i <= j <= inp.len(),
        forall|k: int| i <= k < j ==> !is_space(#[trigger] inp[k]),
    ensures
        nonspace(inp, i, j) == inp.subrange(i, j),
    decreases j - i,
{
    if i < j {
        lemma_nonspace_plain(inp, i + 1, j);
        assert(inp.subrange(i, j) =~= seq![inp[i]] + inp.subrange(i + 1, j));
    } else {
        assert(inp.subrange(i, j) =~= Seq::<char>::empty());
    }
}

proof fn lemma_skip_spaces_text(inp: Seq<char>, c: Cursor)
    requires
        0 <= c.pos,
    ensures
        c.pos <= skip_spaces(inp, c).pos,
        nonspace(inp, c.pos, skip_spaces(inp, c).pos) == Seq::<char>::empty(),
        skip_spaces(inp, c).pos < inp.len() ==> !is_space(inp[skip_spaces(inp, c).pos]),
    decreases inp.len() - c.pos,
{
    if 0 <= c.pos < inp.len() && is_space(inp[c.pos]) {
        let d = if inp[c.pos] == '\n' {
            Cursor { pos: c.pos + 1, row: c.row + 1, col: 1 }
        } else {
            adv(c, 1)
        };
        lemma_skip_spaces_text(inp, d);
    }
}

/// A keyword read at the cursor: its characters are the input's, none of
/// them whitespace.
proof fn lemma_keyword_plain(inp: Seq<char>, e: Cursor, v: char, first: char, rest: Seq<char>)
    requires
        1 <= e.pos <= inp.len(),
        inp[e.pos - 1] == v,
        is_alpha(first),
        forall|i: int| 0 <= i < rest.len() ==> is_alpha(#[trigger] rest[i]),
    ensures
        keyword_at(inp, e, v, first, rest) ==> nonspace(inp, e.pos - 1, e.pos + rest.len()) == seq![v] + rest,
{
    if keyword_at(inp, e, v, first, rest) {
        let k = rest.len() as int;
        let d = e.pos - 1;
        assert(peek(inp, e, k + 1).len() == k + 1);
        assert forall|j: int| d <= j < e.pos + k implies !is_space(#[trigger] inp[j]) by {
            if j > d {
                assert(inp[j] == peek(inp, e, k + 1)[j - e.pos]);
                assert(peek(inp, e, k + 1).subrange(0, k)[j - e.pos] == rest[j - e.pos]);
            }
        }
        lemma_nonspace_plain(inp, d, e.pos + k);
        assert(inp.subrange(d, e.pos + k) =~= seq![v] + peek(inp, e, k + 1).subrange(0, k));
    }
}

/// A word keeps its characters: `nonspace` of what it read is its text.
proof fn lemma_word_text(inp: Seq<char>, name: Seq<char>, e: Cursor, v: char)
    requires
        1 <= e.pos <= inp.len(),
        inp[e.pos - 1] == v,
        is_alpha(v) || v == '_',
    ensures
        word_token(inp, name, e, v) matches Some((f, t)) ==> e.pos <= f.pos && nonspace(inp, e.pos - 1, f.pos) == t.val,
{
    let d = e.pos - 1;
    reveal_strlit("int");
    reveal_strlit("int*");
    reveal_strlit("char");
    reveal_strlit("char*");
    reveal_strlit("if");
    reveal_strlit("else");
    reveal_strlit("while");
    reveal_strlit("for");
    reveal_strlit("do");
    reveal_strlit("continue");
    reveal_strlit("break");
    reveal_strlit("return");
    reveal_strlit("sizeof");
    if let Some((f, t)) = word_token(inp, name, e, v) {
        if keyword_at(inp, e, v, 'i', seq!['n', 't']) || keyword_at(inp, e, v, 'c', seq!['h', 'a', 'r']) {
            let k: int = if keyword_at(inp, e, v, 'i', seq!['n', 't']) { 2 } else { 3 };
            assert(peek(inp, e, k + 1).len() == k + 1);
            assert(e.pos + k + 1 <= inp.len());
            assert(inp.subrange(d, e.pos + k) =~= seq![v] + peek(inp, e, k + 1).subrange(0, k));
            assert forall|j: int| d <= j < e.pos + k implies !is_space(#[trigger] inp[j]) by {
                if j > d {
                    assert(inp[j] == peek(inp, e, k + 1)[j - e.pos]);
                }
            }
            lemma_nonspace_plain(inp, d, e.pos + k);
            let q = skip_spaces(inp, adv(e, k));
            lemma_skip_spaces_text(inp, adv(e, k));
            lemma_nonspace_split(inp, d, e.pos + k, q.pos);
            if q.pos < inp.len() && inp[q.pos] == '*' {
                lemma_nonspace_plain(inp, q.pos, q.pos + 1);
                assert(inp.subrange(q.pos, q.pos + 1) =~= seq!['*']);
                lemma_nonspace_split(inp, d, q.pos, q.pos + 1);
            }
        } else if statement_token(inp, name, e, v) is Some || sizeof_token(inp, name, e, v) is Some {
            lemma_keyword_plain(inp, e, v, 'i', seq!['f']);
            lemma_keyword_plain(inp, e, v, 'e', seq!['l', 's', 'e']);
            lemma_keyword_plain(inp, e, v, 'w', seq!['h', 'i', 'l', 'e']);
            lemma_keyword_plain(inp, e, v, 'f', seq!['o', 'r']);
            lemma_keyword_plain(inp, e, v, 'd', seq!['o']);
            lemma_keyword_plain(inp, e, v, 'c', seq!['o', 'n', 't', 'i', 'n', 'u', 'e']);
            lemma_keyword_plain(inp, e, v, 'b', seq!['r', 'e', 'a', 'k']);
            lemma_keyword_plain(inp, e, v, 'r', seq!['e', 't', 'u', 'r', 'n']);
            lemma_keyword_plain(inp, e, v, 's', seq!['i', 'z', 'e', 'o', 'f']);
        } else {
            let k = ident_run(inp, e.pos);
            lemma_run(inp, e.pos, |ch: char| is_ident(ch));
            assert forall|j: int| d <= j < e.pos + k implies !is_space(#[trigger] inp[j]) by {
                if j > d {
                    assert(is_ident(inp[j]));
                }
            }
            lemma_nonspace_plain(inp, d, e.pos + k);
            assert(inp.subrange(d, e.pos + k) =~= seq![v] + inp.subrange(e.pos, e.pos + k));
        }
    }
}

/// A symbol keeps its characters: `nonspace` of what it read is its text.
proof fn lemma_symbol_text(inp: Seq<char>, name: Seq<char>, e: Cursor, v: char)
    requires
        1 <= e.pos <= inp.len(),
        inp[e.pos - 1] == v,
        !is_space(v),
        v != '"',
    ensures
        symbol_token(inp, name, e, v) matches Some((f, t)) ==> e.pos <= f.pos && nonspace(inp, e.pos - 1, f.pos) == t.val,
{
    let d = e.pos - 1;
    reveal_strlit("==");
    reveal_strlit("!=");
    reveal_strlit(">=");
    reveal_strlit(">>");
    reveal_strlit("<=");
    reveal_strlit("<<");
    reveal_strlit("&&");
    reveal_strlit("||");
    reveal_strlit("++");
    reveal_strlit("+=");
    reveal_strlit("--");
    reveal_strlit("-=");
    reveal_strlit("*=");
    reveal_strlit("/=");
    reveal_strlit("%=");
    if let Some((f, t)) = symbol_token(inp, name, e, v) {
        if is_digit(v) && single_token(v) is None && !(v == '=' || v == '!' || v == '>' || v == '<' || v == '&'
            || v == '|' || v == '+' || v == '-' || v == '*' || v == '/' || v == '%') {
            let k = digit_run(inp, e.pos);
            lemma_run(inp, e.pos, |ch: char| is_digit(ch));
            assert forall|j: int| d <= j < e.pos + k implies !is_space(#[trigger] inp[j]) by {
                if j > d {
                    assert(is_digit(inp[j]));
                }
            }
            lemma_nonspace_plain(inp, d, e.pos + k);
            assert(inp.subrange(d, e.pos + k) =~= seq![v] + inp.subrange(e.pos, e.pos + k));
        } else if f.pos == e.pos {
            lemma_nonspace_plain(inp, d, e.pos);
            assert(inp.subrange(d, e.pos) =~= seq![v]);
        } else {
            assert(f.pos == e.pos + 1);
            let nx = inp[e.pos];
            assert(!is_space(nx));
            lemma_nonspace_plain(inp, d, e.pos + 1);
            assert(inp.subrange(d, e.pos + 1) =~= seq![v, nx]);
        }
    }
}

/// One round of the lexer on a plain source: what it skipped and read,
/// without whitespace, is the text of the token it made.
proof fn lemma_step_text(inp: Seq<char>, name: Seq<char>, c: Cursor)
    requires
        0 <= c.pos < inp.len(),
        plain_source(inp),
    ensures
        step(inp, name, c) matches Some((d, t)) ==> c.pos <= d.pos && nonspace(inp, c.pos, d.pos) == match t {
            Some(tk) => tk.val,
            None => Seq::<char>::empty(),
        },
{
    let s = skip_spaces(inp, c);
    lemma_skip_spaces_text(inp, c);
    lemma_skip_spaces(inp, c);
    assert(skip_comment(inp, s) == s) by {
        if peek(inp, s, 2) == seq!['/', '/'] {
            assert(peek(inp, s, 2).len() == 2);
            assert(inp[s.pos] == peek(inp, s, 2)[0]);
            assert(inp[s.pos + 1] == peek(inp, s, 2)[1]);
            assert(inp[s.pos] != '"');
        }
    }
    if let Some((f, t)) = step(inp, name, c) {
        if s.pos >= inp.len() {
            lemma_nonspace_clamp(inp, c.pos, f.pos);
            lemma_nonspace_clamp(inp, c.pos, s.pos);
        } else {
            let v = inp[s.pos];
            let e = adv(s, 1);
            assert(v != '"');
            if is_alpha(v) || v == '_' {
                lemma_word_text(inp, name, e, v);
            } else {
                lemma_symbol_text(inp, name, e, v);
            }
            lemma_nonspace_split(inp, c.pos, s.pos, f.pos);
        }
    }
}

/// The tokens of a source with no string literal and no comment, but for
/// the final `End`, hold all its characters other than whitespace: nothing
/// is lost, repeated or moved.
pub proof fn law_lex_keeps_text(inp: Seq<char>, name: Seq<char>, c: Cursor)
    requires
        0 <= c.pos,
        plain_source(inp),
    ensures
        lex_from(inp, name, c) matches Some(ts) ==> token_text(ts.drop_last()) == nonspace(
            inp,
            c.pos,
            inp.len() as int,
        ),
    decreases inp.len() + 1 - c.pos,
{
    if c.pos >= inp.len() {
        if let Some(ts) = lex_from(inp, name, c) {
            assert(ts.drop_last() =~= Seq::<TokenView>::empty());
        }
    } else {
        lemma_step_advances(inp, name, c);
        lemma_step_text(inp, name, c);
        if let Some((d, t)) = step(inp, name, c) {
            law_lex_keeps_text(inp, name, d);
            law_lex_ends_with_end(inp, name, d);
            if let Some(rest) = lex_from(inp, name, d) {
                if d.pos <= inp.len() {
                    lemma_nonspace_split(inp, c.pos, d.pos, inp.len() as int);
                } else {
                    lemma_nonspace_clamp(inp, c.pos, d.pos);
                    assert(nonspace(inp, d.pos, inp.len() as int) =~= Seq::<char>::empty());
                }
                if let Some(tk) = t {
                    let ts = seq![tk] + rest;
                    assert(ts.drop_last() =~= seq![tk] + rest.drop_last());
                    assert((seq![tk] + rest.drop_last()).drop_first() =~= rest.drop_last());
                } else {
                    assert(Seq::<char>::empty() + nonspace(inp, d.pos, inp.len() as int) =~= nonspace(inp, d.pos, inp.len() as int));
                }
            }
        }
    }
}

// ---------------------------------------------------------------------------
// Which sources can be read.

/// Whitespace, an ASCII letter, a digit, `_`, or a character of an operator
/// or a punctuation token.
pub open spec fn lexable(c: char) -> bool {
    ||| is_space(c)
    ||| ('a' <= c && c <= 'z') || ('A' <= c && c <= 'Z') || is_digit(c) || c == '_'
    ||| c == '=' || c == '!' || c == '<' || c == '>' || c == '&' || c == '|' || c == '+' || c == '-'
    ||| c == '*' || c == '/' || c == '%' || c == '^' || c == '~' || c == '(' || c == ')' || c == '{'
    ||| c == '}' || c == '[' || c == ']' || c == '?' || c == ':' || c == ';' || c == ','
}

/// Skipping whitespace before the last character, which is not whitespace,
/// stops at or before it.
proof fn lemma_skip_before_last(inp: Seq<char>, c: Cursor)
    requires
        0 <= c.pos < inp.len(),
        !is_space(inp[inp.len() - 1]),
    ensures
        skip_spaces(inp, c).pos < inp.len(),
    decreases inp.len() - c.pos,
{
    if is_space(inp[c.pos]) {
        let d = if inp[c.pos] == '\n' {
            Cursor { pos: c.pos + 1, row: c.row + 1, col: 1 }
        } else {
            adv(c, 1)
        };
        lemma_skip_before_last(inp, d);
    }
}

/// One round of the lexer on such a source always makes progress.
proof fn lemma_step_some(inp: Seq<char>, name: Seq<char>, c: Cursor)
    requires
        0 <= c.pos < inp.len(),
        plain_source(inp),
        forall|i: int| 0 <= i < inp.len() ==> lexable(#[trigger] inp[i]),
        inp[inp.len() - 1] == ';' || inp[inp.len() - 1] == '}',
    ensures
        step(inp, name, c) is Some,
{
    let s = skip_spaces(inp, c);
    lemma_skip_spaces_text(inp, c);
    lemma_skip_before_last(inp, c);
    assert(skip_comment(inp, s) == s) by {
        if peek(inp, s, 2) == seq!['/', '/'] {
            assert(peek(inp, s, 2).len() == 2);
            assert(inp[s.pos] == peek(inp, s, 2)[0]);
            assert(inp[s.pos + 1] == peek(inp, s, 2)[1]);
            assert(inp[s.pos] != '"');
        }
    }
    let v = inp[s.pos];
    let e = adv(s, 1);
    assert(lexable(v));
    assert(v != '"');
    if is_alpha(v) || v == '_' {
        if keyword_at(inp, e, v, 'i', seq!['n', 't']) {
            assert(peek(inp, e, 3).len() == 3);
            lemma_skip_before_last(inp, adv(e, 2));
        } else if keyword_at(inp, e, v, 'c', seq!['h', 'a', 'r']) {
            assert(peek(inp, e, 4).len() == 4);
            lemma_skip_before_last(inp, adv(e, 3));
        }
    } else {
        if s.pos == inp.len() - 1 {
            assert(v == ';' || v == '}');
        }
    }
}

/// A source of such characters, with no string literal and no comment,
/// that ends with `;` or `}`, can always be read into tokens.
pub proof fn law_lex_succeeds(inp: Seq<char>, name: Seq<char>, c: Cursor)
    requires
        0 <= c.pos,
        inp.len() > 0,
        plain_source(inp),
        forall|i: int| 0 <= i < inp.len() ==> lexable(#[trigger] inp[i]),
        inp[inp.len() - 1] == ';' || inp[inp.len() - 1] == '}',
    ensures
        lex_from(inp, name, c) is Some,
    decreases inp.len() + 1 - c.pos,
{
    if c.pos < inp.len() {
        lemma_step_advances(inp, name, c);
        lemma_step_some(inp, name, c);
        let (d, _) = step(inp, name, c)->0;
        law_lex_succeeds(inp, name, d);
    }
}

/// What `read_token` gives from the start of such a source: tokens exist,
/// the last is the only `End`, and the texts of the others are the
/// source's characters without whitespace.
pub proof fn law_read_token_keeps_text(inp: Seq<char>, name: Seq<char>)
    requires
        inp.len() > 0,
        plain_source(inp),
        forall|i: int| 0 <= i < inp.len() ==> lexable(#[trigger] inp[i]),
        inp[inp.len() - 1] == ';' || inp[inp.len() - 1] == '}',
    ensures
        lex(name, inp) matches Some(ts) && ts.len() >= 1 && ts.last().token == Token::End
            && (forall|i: int| 0 <= i < ts.len() - 1 ==> #[trigger] ts[i].token != Token::End)
            && token_text(ts.drop_last()) == nonspace(inp, 0, inp.len() as int),
{
    let c = Cursor { pos: 0, row: 1, col: 0 };
    law_lex_succeeds(inp, name, c);
    law_lex_ends_with_end(inp, name, c);
    law_lex_keeps_text(inp, name, c);
}

// ---------------------------------------------------------------------------
// Each token's kind is the one its text names.

/// The kind of a token of one character.
pub open spec fn char_kind(c: char) -> Option<Token> {
    if c == '^' { Some(Token::BitXor) }
    else if c == '~' { Some(Token::BitReverse) }
    else if c == '(' { Some(Token::LeftParen) }
    else if c == ')' { Some(Token::RightParen) }
    else if c == '{' { Some(Token::LeftBrace) }
    else if c == '}' { Some(Token::RightBrace) }
    else if c == '[' { Some(Token::LeftBracket) }
    else if c == ']' { Some(Token::RightBracket) }
    else if c == '?' { Some(Token::Question) }
    else if c == ':' { Some(Token::Colon) }
    else if c == ';' { Some(Token::SemiColon) }
    else if c == ',' { Some(Token::Comma) }
    else if c == '=' { Some(Token::Assign) }
    else if c == '!' { Some(Token::Not) }
    else if c == '>' { Some(Token::GreaterThan) }
    else if c == '<' { Some(Token::LessThan) }
    else if c == '&' { Some(Token::And) }
    else if c == '|' { Some(Token::BitOr) }
    else if c == '+' { Some(Token::Plus) }
    else if c == '-' { Some(Token::Minus) }
    else if c == '*' { Some(Token::Multi) }
    else if c == '/' { Some(Token::Division) }
    else if c == '%' { Some(Token::Remainder) }
    else { None }
}

/// The kind of an operator of two characters.
pub open spec fn pair_kind(a: char, b: char) -> Option<Token> {
    if a == '=' && b == '=' { Some(Token::Equal) }
    else if a == '!' && b == '=' { Some(Token::NotEqual) }
    else if a == '>' && b == '=' { Some(Token::GreaterThanEqual) }
    else if a == '>' && b == '>' { Some(Token::RightShift) }
    else if a == '<' && b == '=' { Some(Token::LessThanEqual) }
    else if a == '<' && b == '<' { Some(Token::LeftShift) }
    else if a == '&' && b == '&' { Some(Token::LogicalAnd) }
    else if a == '|' && b == '|' { Some(Token::LogicalOr) }
    else if a == '+' && b == '+' { Some(Token::Inc) }
    else if a == '+' && b == '=' { Some(Token::PlusAssign) }
    else if a == '-' && b == '-' { Some(Token::Dec) }
    else if a == '-' && b == '=' { Some(Token::MinusAssign) }
    else if a == '*' && b == '=' { Some(Token::MultipleAssign) }
    else if a == '/' && b == '=' { Some(Token::DivisionAssign) }
    else if a == '%' && b == '=' { Some(Token::RemainderAssign) }
    else { None }
}

/// The kind of a keyword or type word.
pub open spec fn word_kind(w: Seq<char>) -> Option<Token> {
    if w.len() == 3 && w[0] == 'i' && w[1] == 'n' && w[2] == 't' {
        Some(Token::Int)
    } else if w.len() == 4 && w[0] == 'i' && w[1] == 'n' && w[2] == 't' && w[3] == '*' {
        Some(Token::IntPointer)
    } else if w.len() == 4 && w[0] == 'c' && w[1] == 'h' && w[2] == 'a' && w[3] == 'r' {
        Some(Token::Char)
    } else if w.len() == 5 && w[0] == 'c' && w[1] == 'h' && w[2] == 'a' && w[3] == 'r' && w[4] == '*' {
        Some(Token::CharPointer)
    } else if w.len() == 2 && w[0] == 'i' && w[1] == 'f' {
        Some(Token::If)
    } else if w.len() == 4 && w[0] == 'e' && w[1] == 'l' && w[2] == 's' && w[3] == 'e' {
        Some(Token::Else)
    } else if w.len() == 5 && w[0] == 'w' && w[1] == 'h' && w[2] == 'i' && w[3] == 'l' && w[4] == 'e' {
        Some(Token::While)
    } else if w.len() == 3 && w[0] == 'f' && w[1] == 'o' && w[2] == 'r' {
        Some(Token::For)
    } else if w.len() == 2 && w[0] == 'd' && w[1] == 'o' {
        Some(Token::Do)
    } else if w.len() == 8 && w[0] == 'c' && w[1] == 'o' && w[2] == 'n' && w[3] == 't' && w[4] == 'i' && w[5] == 'n' && w[6] == 'u' && w[7] == 'e' {
        Some(Token::Continue)
    } else if w.len() == 5 && w[0] == 'b' && w[1] == 'r' && w[2] == 'e' && w[3] == 'a' && w[4] == 'k' {
        Some(Token::Break)
    } else if w.len() == 6 && w[0] == 'r' && w[1] == 'e' && w[2] == 't' && w[3] == 'u' && w[4] == 'r' && w[5] == 'n' {
        Some(Token::Return)
    } else if w.len() == 6 && w[0] == 's' && w[1] == 'i' && w[2] == 'z' && w[3] == 'e' && w[4] == 'o' && w[5] == 'f' {
        Some(Token::SizeOf)
    } else {
        None
    }
}

/// The kind that the text of a token names: an operator or punctuation
/// character, an operator of two characters, or a keyword.
pub open spec fn text_kind(t: Seq<char>) -> Option<Token> {
    if t.len() == 1 {
        char_kind(t[0])
    } else if t.len() == 2 && pair_kind(t[0], t[1]) is Some {
        pair_kind(t[0], t[1])
    } else {
        word_kind(t)
    }
}

/// A token other than a name, a number, a string literal or the end.
pub open spec fn fixed_text(t: Token) -> bool {
    t != Token::Variable && t != Token::Number && t != Token::StringLiteral && t != Token::End
}

proof fn lemma_word_kind(inp: Seq<char>, name: Seq<char>, e: Cursor, v: char)
    ensures
        word_token(inp, name, e, v) matches Some((_, t)) ==> (fixed_text(t.token) ==> text_kind(t.val) == Some(t.token)),
{
    reveal_strlit("int");
    reveal_strlit("int*");
    reveal_strlit("char");
    reveal_strlit("char*");
    reveal_strlit("if");
    reveal_strlit("else");
    reveal_strlit("while");
    reveal_strlit("for");
    reveal_strlit("do");
    reveal_strlit("continue");
    reveal_strlit("break");
    reveal_strlit("return");
    reveal_strlit("sizeof");
}

proof fn lemma_symbol_kind(inp: Seq<char>, name: Seq<char>, e: Cursor, v: char)
    ensures
        symbol_token(inp, name, e, v) matches Some((_, t)) ==> (fixed_text(t.token) ==> text_kind(t.val) == Some(t.token)),
{
    reveal_strlit("==");
    reveal_strlit("!=");
    reveal_strlit(">=");
    reveal_strlit(">>");
    reveal_strlit("<=");
    reveal_strlit("<<");
    reveal_strlit("&&");
    reveal_strlit("||");
    reveal_strlit("++");
    reveal_strlit("+=");
    reveal_strlit("--");
    reveal_strlit("-=");
    reveal_strlit("*=");
    reveal_strlit("/=");
    reveal_strlit("%=");
}

/// Every token the lexer makes, other than names, numbers, string literals
/// and the end, has the kind its text names: `^` is `BitXor`, `|` is
/// `BitOr`, `<=` is `LessThanEqual`, `while` is `While`, and so on.
pub proof fn law_token_kind_follows_text(inp: Seq<char>, name: Seq<char>, c: Cursor)
    ensures
        lex_from(inp, name, c) matches Some(ts) ==> forall|i: int|
            0 <= i < ts.len() && fixed_text(#[trigger] ts[i].token) ==> text_kind(ts[i].val) == Some(ts[i].token),
    decreases inp.len() + 1 - c.pos,
{
    if !(c.pos < 0 || c.pos >= inp.len()) {
        lemma_step_advances(inp, name, c);
        let d0 = skip_comment(inp, skip_spaces(inp, c));
        if d0.pos < inp.len() {
            let v = inp[d0.pos];
            lemma_word_kind(inp, name, adv(d0, 1), v);
            lemma_symbol_kind(inp, name, adv(d0, 1), v);
        }
        if let Some((d, t)) = step(inp, name, c) {
            law_token_kind_follows_text(inp, name, d);
            if let Some(rest) = lex_from(inp, name, d) {
                if let Some(tk) = t {
                    let ts = seq![tk] + rest;
                    assert forall|i: int| 0 <= i < ts.len() && fixed_text(#[trigger] ts[i].token) implies text_kind(
                        ts[i].val,
                    ) == Some(ts[i].token) by {
                        if i > 0 {
                            assert(ts[i] == rest[i - 1]);
                        }
                    }
                }
            }
        }
    }
}

/// The first character and the rest of a word that the input spells at
/// the cursor, followed by a character that cannot continue a name, make
/// that word a keyword there.
proof fn lemma_spells(inp: Seq<char>, e: Cursor, v: char, rest: Seq<char>)
    requires
        1 <= e.pos,
        e.pos + rest.len() < inp.len(),
        rest == inp.subrange(e.pos, e.pos + rest.len()),
        !is_ident(inp[e.pos + rest.len()]),
    ensures
        keyword_at(inp, e, v, v, rest),
{
    let n: int = rest.len() + 1int;
    assert(peek(inp, e, n) =~= inp.subrange(e.pos, e.pos + n));
    assert(peek(inp, e, n).subrange(0, n - 1) =~= rest);
}

/// A name read from the input spells no keyword, unless it ends the input.
proof fn lemma_name_not_keyword(inp: Seq<char>, name: Seq<char>, e: Cursor, v: char)
    requires
        1 <= e.pos <= inp.len(),
    ensures
        word_token(inp, name, e, v) matches Some((f, t)) ==> (t.token == Token::Variable && word_kind(t.val) is Some
            ==> f.pos >= inp.len()),
{
    if let Some((f, t)) = word_token(inp, name, e, v) {
        if t.token == Token::Variable && word_kind(t.val) is Some {
            let k = ident_run(inp, e.pos);
            lemma_run(inp, e.pos, |ch: char| is_ident(ch));
            if e.pos + k < inp.len() {
                let rest = inp.subrange(e.pos, e.pos + k);
                assert(t.val == seq![v] + rest);
                assert(t.val[0] == v);
                assert forall|i: int| 0 <= i < rest.len() implies rest[i] == #[trigger] t.val[i + 1] by {}
                lemma_spells(inp, e, v, rest);
            if t.val.len() == 3 && t.val[0] == 'i' && t.val[1] == 'n' && t.val[2] == 't' {
                assert(rest =~= seq!['n', 't']);
            }
            if t.val.len() == 4 && t.val[0] == 'c' && t.val[1] == 'h' && t.val[2] == 'a' && t.val[3] == 'r' {
                assert(rest =~= seq!['h', 'a', 'r']);
            }
            if t.val.len() == 2 && t.val[0] == 'i' && t.val[1] == 'f' {
                assert(rest =~= seq!['f']);
            }
            if t.val.len() == 4 && t.val[0] == 'e' && t.val[1] == 'l' && t.val[2] == 's' && t.val[3] == 'e' {
                assert(rest =~= seq!['l', 's', 'e']);
            }
            if t.val.len() == 5 && t.val[0] == 'w' && t.val[1] == 'h' && t.val[2] == 'i' && t.val[3] == 'l' && t.val[4] == 'e' {
                assert(rest =~= seq!['h', 'i', 'l', 'e']);
            }
            if t.val.len() == 3 && t.val[0] == 'f' && t.val[1] == 'o' && t.val[2] == 'r' {
                assert(rest =~= seq!['o', 'r']);
            }
            if t.val.len() == 2 && t.val[0] == 'd' && t.val[1] == 'o' {
                assert(rest =~= seq!['o']);
            }
            if t.val.len() == 8 && t.val[0] == 'c' && t.val[1] == 'o' && t.val[2] == 'n' && t.val[3] == 't' && t.val[4] == 'i' && t.val[5] == 'n' && t.val[6] == 'u' && t.val[7] == 'e' {
                assert(rest =~= seq!['o', 'n', 't', 'i', 'n', 'u', 'e']);
            }
            if t.val.len() == 5 && t.val[0] == 'b' && t.val[1] == 'r' && t.val[2] == 'e' && t.val[3] == 'a' && t.val[4] == 'k' {
                assert(rest =~= seq!['r', 'e', 'a', 'k']);
            }
            if t.val.len() == 6 && t.val[0] == 'r' && t.val[1] == 'e' && t.val[2] == 't' && t.val[3] == 'u' && t.val[4] == 'r' && t.val[5] == 'n' {
                assert(rest =~= seq!['e', 't', 'u', 'r', 'n']);
            }
            if t.val.len() == 6 && t.val[0] == 's' && t.val[1] == 'i' && t.val[2] == 'z' && t.val[3] == 'e' && t.val[4] == 'o' && t.val[5] == 'f' {
                assert(rest =~= seq!['i', 'z', 'e', 'o', 'f']);
            }
            }
        }
    }
}

/// Every name the lexer makes, but one that ends the input, is no keyword:
/// a keyword followed by anything that cannot continue a name is read as
/// that keyword.
pub proof fn law_names_are_not_keywords(inp: Seq<char>, name: Seq<char>, c: Cursor)
    ensures
        lex_from(inp, name, c) matches Some(ts) ==> forall|i: int|
            0 <= i < ts.len() - 2 && #[trigger] ts[i].token == Token::Variable ==> word_kind(ts[i].val) is None,
    decreases inp.len() + 1 - c.pos,
{
    if !(c.pos < 0 || c.pos >= inp.len()) {
        lemma_step_advances(inp, name, c);
        lemma_skip_spaces(inp, c);
        lemma_skip_comment(inp, skip_spaces(inp, c));
        let d0 = skip_comment(inp, skip_spaces(inp, c));
        if d0.pos < inp.len() {
            lemma_name_not_keyword(inp, name, adv(d0, 1), inp[d0.pos]);
        }
        if let Some((d, t)) = step(inp, name, c) {
            law_names_are_not_keywords(inp, name, d);
            law_lex_ends_with_end(inp, name, d);
            if let Some(rest) = lex_from(inp, name, d) {
                if let Some(tk) = t {
                    let ts = seq![tk] + rest;
                    assert forall|i: int| 0 <= i < ts.len() - 2 && #[trigger] ts[i].token == Token::Variable implies word_kind(
                        ts[i].val,
                    ) is None by {
                        if i > 0 {
                            assert(ts[i] == rest[i - 1]);
                        } else {
                            if word_kind(tk.val) is Some && d.pos >= inp.len() {
                                assert(rest.len() == 1);
                            }
                        }
                    }
                }
            }
        }
    }
}

/// The text of a number token: one decimal digit or more, nothing else.
pub open spec fn digits_only(s: Seq<char>) -> bool {
    s.len() >= 1 && forall|j: int| 0 <= j < s.len() ==> '0' <= #[trigger] s[j] && s[j] <= '9'
}

/// The text of a name token: a letter or `_`, then letters, `_` and digits.
pub open spec fn name_text(s: Seq<char>) -> bool {
    s.len() >= 1 && (is_alpha(s[0]) || s[0] == '_') && forall|j: int| 0 <= j < s.len() ==> is_ident(#[trigger] s[j])
}

/// One round of the lexer makes a number only of digits and a name only
/// of a letter or `_` followed by characters that may continue a name.
proof fn lemma_step_number_name(inp: Seq<char>, name: Seq<char>, c: Cursor)
    requires
        0 <= c.pos < inp.len(),
    ensures
        step(inp, name, c) matches Some((_, Some(t))) ==> (t.token == Token::Number ==> digits_only(t.val)) && (
        t.token == Token::Variable ==> name_text(t.val)),
{
    lemma_skip_spaces(inp, c);
    let s = skip_spaces(inp, c);
    lemma_skip_comment(inp, s);
    let d = skip_comment(inp, s);
    if d.pos < inp.len() {
        let v = inp[d.pos];
        let e = adv(d, 1);
        lemma_run(inp, e.pos, |ch: char| is_ident(ch));
        lemma_run(inp, e.pos, |ch: char| is_digit(ch));
        if is_alpha(v) || v == '_' {
            if let Some((_, t)) = word_token(inp, name, e, v) {
                if t.token == Token::Variable {
                    let k = ident_run(inp, e.pos);
                    assert(t.val == seq![v] + inp.subrange(e.pos, e.pos + k));
                    assert forall|j: int| 0 <= j < t.val.len() implies is_ident(#[trigger] t.val[j]) by {
                        if j > 0 {
                            assert(t.val[j] == inp[e.pos + j - 1]);
                        }
                    }
                }
            }
        } else {
            if let Some((_, t)) = symbol_token(inp, name, e, v) {
                if t.token == Token::Number {
                    let k = digit_run(inp, e.pos);
                    assert(t.val == seq![v] + inp.subrange(e.pos, e.pos + k));
                    assert forall|j: int| 0 <= j < t.val.len() implies '0' <= #[trigger] t.val[j] && t.val[j] <= '9' by {
                        if j > 0 {
                            assert(t.val[j] == inp[e.pos + j - 1]);
                            assert(is_digit(inp[e.pos + j - 1]));
                        }
                    }
                }
            }
        }
    }
}

/// Every number the lexer makes is written with decimal digits only, and
/// every name starts with a letter or `_` and goes on with letters, `_`
/// and digits.
pub proof fn law_numbers_and_names_well_formed(inp: Seq<char>, name: Seq<char>, c: Cursor)
    ensures
        lex_from(inp, name, c) matches Some(ts) ==> forall|i: int|
            0 <= i < ts.len() ==> (#[trigger] ts[i].token == Token::Number ==> digits_only(ts[i].val)) && (
            ts[i].token == Token::Variable ==> name_text(ts[i].val)),
    decreases inp.len() + 1 - c.pos,
{
    if !(c.pos < 0 || c.pos >= inp.len()) {
        lemma_step_advances(inp, name, c);
        lemma_step_number_name(inp, name, c);
        if let Some((d, t)) = step(inp, name, c) {
            law_numbers_and_names_well_formed(inp, name, d);
            if let Some(rest) = lex_from(inp, name, d) {
                if let Some(tk) = t {
                    let ts = seq![tk] + rest;
                    assert forall|i: int| 0 <= i < ts.len() implies (#[trigger] ts[i].token == Token::Number
                        ==> digits_only(ts[i].val)) && (ts[i].token == Token::Variable ==> name_text(ts[i].val)) by {
                        if i > 0 {
                            assert(ts[i] == rest[i - 1]);
                        }
                    }
                }
            }
        }
    }
}

/// `r` with `p` in front of its tokens.
pub open spec fn prefixed(p: Seq<TokenView>, r: Option<Seq<TokenView>>) -> Option<Seq<TokenView>> {
    match r {
        Some(x) => Some(p + x),
        None => None,
    }
}

proof fn lemma_prefixed(p: Seq<TokenView>, q: Seq<TokenView>, r: Option<Seq<TokenView>>)
    ensures
        prefixed(p, prefixed(q, r)) == prefixed(p + q, r),
{
    if let Some(x) = r {
        assert(p + (q + x) =~= (p + q) + x);
    }
}

/// Skipping whitespace stops at the end of the run of whitespace.
proof fn lemma_skip_spaces_run(inp: Seq<char>, c: Cursor)
    requires
        0 <= c.pos <= inp.len(),
    ensures
        skip_spaces(inp, c).pos == c.pos + run(inp, c.pos, |ch: char| is_space(ch)),
    decreases inp.len() - c.pos,
{
    if 0 <= c.pos < inp.len() && is_space(inp[c.pos]) {
        let d = if inp[c.pos] == '\n' {
            Cursor { pos: c.pos + 1, row: c.row + 1, col: 1 }
        } else {
            adv(c, 1)
        };
        lemma_skip_spaces_run(inp, d);
    }
}

/// Whether `v` is a token by itself.
fn is_single(v: char) -> (r: bool)
    ensures
        r == single_token(v) is Some,
{
    v == '^' || v == '~' || v == '(' || v == ')' || v == '{' || v == '}' || v == '[' || v == ']' || v == '?'
        || v == ':' || v == ';' || v == ','
}

// ---------------------------------------------------------------------------
// The lexer.

/// Lexical analysis of a source text.
pub struct LexicalAnalysis {
    pub name: String,
    pub input: Vec<char>,
    pub row: usize,
    pub col: usize,
    pub pos: usize,
    pub tokens: Vec<TokenInfo>,
}

pub open spec fn views(ts: Seq<TokenInfo>) -> Seq<TokenView> {
    ts.map_values(|t: TokenInfo| t@)
}

impl LexicalAnalysis {
    pub open spec fn cur(&self) -> Cursor {
        Cursor { pos: self.pos as int, row: self.row as int, col: self.col as int }
    }

    /// The cursor stays within one character past the end, the column never
    /// exceeds the position and the row at most one more.
    pub open spec fn wf(&self) -> bool {
        &&& self.input@.len() + 16 < usize::MAX
        &&& self.pos <= self.input@.len() + 1
        &&& self.col <= self.pos
        &&& self.row <= self.pos + 1
    }

    /// Input, name and tokens are those of `other`.
    pub open spec fn same_text(&self, other: &Self) -> bool {
        &&& self.input@ == other.input@
        &&& self.name@ == other.name@
        &&& self.tokens@ == other.tokens@
    }

    pub fn new(n: String, i: &str) -> (r: LexicalAnalysis)
        ensures
            r.name@ == n@,
            r.input@ == i@,
            r.cur() == (Cursor { pos: 0, row: 1, col: 0 }),
            r.tokens@ == Seq::<TokenInfo>::empty(),
    {
        LexicalAnalysis {
            name: n,
            input: crate::text::chars_of(i),
            row: 1,
            col: 0,
            pos: 0,
            tokens: vec![],
        }
    }

    pub fn get_tokens(&self) -> (r: &Vec<TokenInfo>)
        ensures
            r == &self.tokens,
    {
        &self.tokens
    }

    /// Reads the whole input and appends its tokens, ended by `End`.
    pub fn read_token(&mut self)
        requires
            old(self).wf(),
            old(self).input@.len() > 0,
            lex_from(old(self).input@, old(self).name@, old(self).cur()) is Some,
        ensures
            views(final(self).tokens@) == views(old(self).tokens@) + lex_from(
                old(self).input@,
                old(self).name@,
                old(self).cur(),
            )->0,
    {
        let ok = self.try_read_token();
        assert(ok);
    }

    /// Reads the whole input as `read_token` does, stopping with `false`
    /// at the first character that starts no token (or on an empty input).
    pub fn try_read_token(&mut self) -> (ok: bool)
        requires
            old(self).wf(),
        ensures
            ok == (old(self).input@.len() > 0 && lex_from(old(self).input@, old(self).name@, old(self).cur()) is Some),
            ok ==> views(final(self).tokens@) == views(old(self).tokens@) + lex_from(
                old(self).input@,
                old(self).name@,
                old(self).cur(),
            )->0,
    {
        if self.input.len() == 0 {
            return false;
        }
        let ghost inp = self.input@;
        let ghost name = self.name@;
        let ghost whole = lex_from(inp, name, self.cur());
        let ghost before = views(self.tokens@);
        let ghost mut added: Seq<TokenView> = Seq::empty();
        assert(before + added =~= before);
        assert(prefixed(added, whole) == whole) by {
            if let Some(x) = whole {
                assert(added + x =~= x);
            }
        }
        while !self.is_eof()
            invariant
                self.wf(),
                self.input@ == inp,
                self.name@ == name,
                inp.len() > 0,
                views(self.tokens@) == before + added,
                whole == lex_from(inp, name, old(self).cur()),
                old(self).input@ == inp,
                old(self).name@ == name,
                whole == prefixed(added, lex_from(inp, name, self.cur())),
            decreases inp.len() + 1 - self.pos,
        {
            let ghost c0 = self.cur();
            let ghost tk0 = self.tokens@;
            proof {
                lemma_step_advances(inp, name, c0);
                lemma_skip_spaces(inp, c0);
                lemma_skip_comment(inp, skip_spaces(inp, c0));
            }
            self.skip_ascii_whitespace();
            self.skip_comment();
            if let Some(v) = self.next() {
                if !self.token_possible(v) {
                    proof {
                        assert(step(inp, name, c0) is None);
                        assert(lex_from(inp, name, c0) is None);
                        assert(whole == prefixed(added, lex_from(inp, name, c0)));
                        assert(whole is None);
                    }
                    return false;
                }
                let token = if self.is_alpha_or_underscore(v) {
                    if let Some(t) = self.generate_type(v) {
                        t
                    } else if let Some(t) = self.generate_statement(v) {
                        t
                    } else if let Some(t) = self.generate_sizeof(v) {
                        t
                    } else {
                        self.generate_variable_token(v)
                    }
                } else {
                    self.generate_symbol(v)
                };
                proof {
                    assert(step(inp, name, c0) == Some((self.cur(), Some(token@))));
                    lemma_prefixed(added, seq![token@], lex_from(inp, name, self.cur()));
                    added = added + seq![token@];
                }
                self.tokens.push(token);
                proof {
                    assert(views(self.tokens@) =~= views(tk0).push(token@));
                    assert(views(self.tokens@) =~= before + added);
                }
            } else {
                proof {
                    assert(step(inp, name, c0) == Some((self.cur(), None::<TokenView>)));
                    assert(prefixed(Seq::empty(), lex_from(inp, name, self.cur())) == lex_from(inp, name, self.cur())) by {
                        if let Some(x) = lex_from(inp, name, self.cur()) {
                            assert(Seq::<TokenView>::empty() + x =~= x);
                        }
                    }
                    lemma_prefixed(added, Seq::empty(), lex_from(inp, name, self.cur()));
                    assert(added + Seq::<TokenView>::empty() =~= added);
                }
            }
        }
        let end = self.create_token(Token::End, lit("End"));
        let ghost tk1 = self.tokens@;
        self.tokens.push(end);
        proof {
            assert(lex_from(inp, name, self.cur()) == Some(seq![end@]));
            assert(views(self.tokens@) =~= views(tk1).push(end@));
            assert(views(self.tokens@) =~= before + (added + seq![end@]));
        }
        true
    }

    /// Whether the character `v` just read starts a token here: a word
    /// unless it is a type keyword with nothing after its whitespace; an
    /// operator with a character after it; a closed string literal; a
    /// single-character token or a digit.
    fn token_possible(&mut self, v: char) -> (r: bool)
        requires
            old(self).wf(),
            old(self).input@.len() > 0,
            old(self).pos <= old(self).input@.len(),
        ensures
            r == if is_alpha(v) || v == '_' {
                word_token(old(self).input@, old(self).name@, old(self).cur(), v) is Some
            } else {
                symbol_token(old(self).input@, old(self).name@, old(self).cur(), v) is Some
            },
            final(self).cur() == old(self).cur(),
            final(self).same_text(old(self)),
            final(self).wf(),
    {
        let ghost inp = self.input@;
        let ghost c = self.cur();
        if self.is_alpha_or_underscore(v) {
            if self.is_type_int(v) {
                assert(peek(inp, c, 3).len() == 3);
                proof {
                    lemma_skip_spaces_run(inp, adv(c, 2));
                }
                self.space_end(self.pos + 2) < self.input.len()
            } else if self.is_type_char(v) {
                assert(peek(inp, c, 4).len() == 4);
                proof {
                    lemma_skip_spaces_run(inp, adv(c, 3));
                }
                self.space_end(self.pos + 3) < self.input.len()
            } else {
                true
            }
        } else {
            let at = self.pos < self.input.len();
            if v == '=' || v == '!' || v == '>' || v == '<' || v == '&' || v == '|' || v == '+' || v == '-' || v == '*'
                || v == '/' || v == '%' {
                at
            } else if v == '"' {
                self.quote_end(self.pos) < self.input.len()
            } else {
                is_single(v) || is_digit_char(v)
            }
        }
    }

    /// The end of the whitespace that starts at `from`.
    fn space_end(&self, from: usize) -> (r: usize)
        requires
            from <= self.input@.len(),
        ensures
            r == from + run(self.input@, from as int, |ch: char| is_space(ch)),
    {
        let mut j = from;
        while j < self.input.len() && is_space_char(self.input[j])
            invariant
                from <= j <= self.input@.len(),
                run(self.input@, from as int, |ch: char| is_space(ch)) == (j - from) + run(
                    self.input@,
                    j as int,
                    |ch: char| is_space(ch),
                ),
            decreases self.input@.len() - j,
        {
            j = j + 1;
        }
        j
    }

    /// The position of the first `"` from `from` on, or the end.
    fn quote_end(&self, from: usize) -> (r: usize)
        requires
            from <= self.input@.len(),
        ensures
            r == from + text_run(self.input@, from as int),
    {
        let mut j = from;
        while j < self.input.len() && self.input[j] != '"'
            invariant
                from <= j <= self.input@.len(),
                text_run(self.input@, from as int) == (j - from) + text_run(self.input@, j as int),
            decreases self.input@.len() - j,
        {
            j = j + 1;
        }
        j
    }
}


impl LexicalAnalysis {
    /// A token of the given kind and text at the current row and column.
    fn create_token(&self, t: Token, s: String) -> (r: TokenInfo)
        ensures
            r@ == tok(self.name@, t, s@, self.row as int, self.col as int),
    {
        TokenInfo::new(t, s, (self.name.clone(), self.row, self.col))
    }

    /// The character at the cursor.
    fn read(&self) -> (c: char)
        requires
            self.pos < self.input@.len(),
        ensures
            c == self.input@[self.pos as int],
    {
        self.input[self.pos]
    }

    /// Up to `n` characters from the cursor on; the cursor does not move.
    fn read_string(&mut self, n: usize) -> (r: Vec<char>)
        requires
            old(self).wf(),
            old(self).input@.len() > 0,
        ensures
            r@ == peek(old(self).input@, old(self).cur(), n as int),
            final(self).cur() == old(self).cur(),
            final(self).same_text(old(self)),
            final(self).wf(),
    {
        let ghost c0 = self.cur();
        let mut s: Vec<char> = Vec::new();
        let mut c: usize = 0;
        let mut k: usize = 0;
        while k < n
            invariant
                self.wf(),
                self.same_text(old(self)),
                self.input@.len() > 0,
                c0 == old(self).cur(),
                k <= n,
                self.pos == c0.pos + c,
                self.col == c0.col + c,
                self.row == c0.row,
                c <= k,
                s@.len() == c,
                c > 0 ==> self.pos <= self.input@.len(),
                c0.pos + c <= self.input@.len() || c == 0,
                s@ == peek(self.input@, c0, k as int),
            decreases n - k,
        {
            if !self.is_eof() {
                if let Some(ch) = self.next() {
                    s.push(ch);
                    c = c + 1;
                    assert(s@ =~= peek(self.input@, c0, k + 1));
                }
            } else {
                assert(peek(self.input@, c0, k + 1) =~= peek(self.input@, c0, k as int));
            }
            k = k + 1;
        }
        self.back(c);
        s
    }

    /// The character at the cursor, if any; the cursor moves one to the
    /// right in any case.
    fn next(&mut self) -> (r: Option<char>)
        requires
            old(self).wf(),
            old(self).pos <= old(self).input@.len(),
        ensures
            r == if old(self).pos < old(self).input@.len() {
                Some(old(self).input@[old(self).pos as int])
            } else {
                None
            },
            final(self).cur() == adv(old(self).cur(), 1),
            final(self).same_text(old(self)),
            final(self).wf(),
    {
        let s = if self.pos < self.input.len() {
            Some(self.input[self.pos])
        } else {
            None
        };
        self.skip(1);
        s
    }

    fn is_linefeed(&self, s: &Vec<char>) -> (r: bool)
        ensures
            r == (s@ == seq!['\n']),
    {
        let r = s.len() == 1 && s[0] == '\n';
        proof {
            if r {
                assert(s@ =~= seq!['\n']);
            }
        }
        r
    }

    /// Skips whitespace; a line feed moves to the next row.
    fn skip_ascii_whitespace(&mut self)
        requires
            old(self).wf(),
            old(self).input@.len() > 0,
        ensures
            final(self).cur() == skip_spaces(old(self).input@, old(self).cur()),
            final(self).same_text(old(self)),
            final(self).wf(),
    {
        let ghost c0 = self.cur();
        while !self.is_eof() && is_space_char(self.read())
            invariant
                self.wf(),
                self.same_text(old(self)),
                self.input@.len() > 0,
                c0 == old(self).cur(),
                skip_spaces(self.input@, self.cur()) == skip_spaces(self.input@, c0),
            decreases self.input@.len() + 1 - self.pos,
        {
            let ghost c1 = self.cur();
            let ghost ch = self.input@[self.pos as int];
            let next = self.read_string(1);
            assert(next@ =~= seq![ch]);
            let lf = self.is_linefeed(&next);
            assert(lf == (ch == '\n')) by {
                if lf {
                    assert(next@[0] == seq!['\n'][0]);
                }
            }
            if lf {
                self.row = self.row + 1;
                self.col = 0;
            }
            self.skip(1);
            assert(self.cur() == if ch == '\n' {
                Cursor { pos: c1.pos + 1, row: c1.row + 1, col: 1 }
            } else {
                adv(c1, 1)
            });
            assert(skip_spaces(self.input@, c1) == skip_spaces(self.input@, self.cur()));
        }
    }

    /// Skips one `//` comment with its line feed and the whitespace after it.
    fn skip_comment(&mut self)
        requires
            old(self).wf(),
            old(self).input@.len() > 0,
        ensures
            final(self).cur() == skip_comment(old(self).input@, old(self).cur()),
            final(self).same_text(old(self)),
            final(self).wf(),
    {
        let ghost c0 = self.cur();
        let s = self.read_string(2);
        if s.len() == 2 && s[0] == '/' && s[1] == '/' {
            assert(s@ =~= seq!['/', '/']);
            self.skip(2);
            let ghost c1 = self.cur();
            let mut next = self.read_string(1);
            while !self.is_eof() && !self.is_linefeed(&next)
                invariant
                    self.wf(),
                    self.same_text(old(self)),
                    self.input@.len() > 0,
                    next@ == peek(self.input@, self.cur(), 1),
                    to_line_end(self.input@, self.cur()) == to_line_end(self.input@, c1),
                decreases self.input@.len() + 1 - self.pos,
            {
                let ghost ch = self.input@[self.pos as int];
                assert(next@ =~= seq![ch]);
                assert(ch != '\n') by {
                    if ch == '\n' {
                        assert(next@ =~= seq!['\n']);
                    }
                }
                let ghost c2 = self.cur();
                self.skip(1);
                assert(to_line_end(self.input@, c2) == to_line_end(self.input@, self.cur()));
                next = self.read_string(1);
            }
            let ghost e = self.cur();
            let lf = self.is_linefeed(&next);
            proof {
                if self.pos < self.input@.len() {
                    let ch = self.input@[self.pos as int];
                    assert(next@ =~= seq![ch]);
                    if lf {
                        assert(next@[0] == seq!['\n'][0]);
                    }
                    assert(lf == (ch == '\n'));
                } else {
                    assert(next@.len() == 0);
                    assert(!lf) by {
                        if lf {
                            assert(seq!['\n'].len() == 1);
                        }
                    }
                }
                assert(e == to_line_end(self.input@, c1));
            }
            if lf {
                self.skip(1);
                self.row = self.row + 1;
                self.col = 0;
                self.skip_ascii_whitespace();
            }
        } else {
            proof {
                if peek(self.input@, c0, 2) == seq!['/', '/'] {
                    assert(s@[0] == '/' && s@[1] == '/');
                }
            }
        }
    }

    /// Moves the cursor `i` characters to the right.
    fn skip(&mut self, i: usize)
        requires
            old(self).pos + i <= usize::MAX,
            old(self).col + i <= usize::MAX,
        ensures
            final(self).cur() == adv(old(self).cur(), i as int),
            final(self).same_text(old(self)),
    {
        self.pos = self.pos + i;
        self.col = self.col + i;
    }

    /// Moves the cursor `n` characters back.
    fn back(&mut self, n: usize)
        requires
            n <= old(self).pos,
            n <= old(self).col,
        ensures
            final(self).cur() == adv(old(self).cur(), -n),
            final(self).same_text(old(self)),
    {
        self.pos = self.pos - n;
        self.col = self.col - n;
    }

    /// Whether the cursor is past the last character.
    fn is_eof(&self) -> (r: bool)
        requires
            self.input@.len() > 0,
        ensures
            r == (self.pos >= self.input@.len()),
    {
        self.pos > (self.input.len() - 1)
    }

    /// A character that may continue a name.
    fn is_variable(&self, c: char) -> (r: bool)
        ensures
            r == is_ident(c),
    {
        is_alpha_char(c) || c == '_' || is_digit_char(c)
    }

    fn is_alpha_or_underscore(&self, c: char) -> (r: bool)
        ensures
            r == (is_alpha(c) || c == '_'),
    {
        is_alpha_char(c) || c == '_'
    }

    /// A string literal; the opening quote has been read.
    fn generate_string(&mut self) -> (t: TokenInfo)
        requires
            old(self).wf(),
            old(self).input@.len() > 0,
            old(self).pos <= old(self).input@.len(),
            old(self).pos + text_run(old(self).input@, old(self).pos as int) < old(self).input@.len(),
        ensures
            (final(self).cur(), t@) == symbol_token(old(self).input@, old(self).name@, old(self).cur(), '"')->0,
            final(self).same_text(old(self)),
            final(self).wf(),
    {
        let ghost c0 = self.cur();
        let ghost k = text_run(self.input@, c0.pos);
        proof {
            lemma_run(self.input@, c0.pos, |ch: char| ch != '"');
        }
        let col = self.col;
        let mut s = String::new();
        while '"' != self.read() && !self.is_eof()
            invariant
                self.wf(),
                self.same_text(old(self)),
                self.input@.len() > 0,
                c0 == old(self).cur(),
                c0.pos <= self.pos <= c0.pos + k,
                c0.pos + k < self.input@.len(),
                self.cur() == adv(c0, self.pos - c0.pos),
                s@ == self.input@.subrange(c0.pos, self.pos as int),
                forall|i: int| c0.pos <= i < c0.pos + k ==> self.input@[i] != '"',
                self.input@[c0.pos + k] == '"',
            decreases c0.pos + k - self.pos,
        {
            let ghost p0 = self.pos as int;
            let ghost s0 = s@;
            let c = self.next();
            assert(self.pos == p0 + 1);
            assert(c == Some(self.input@[p0]));
            string_push(&mut s, c.unwrap());
            assert(s@ == s0.push(self.input@[p0]));
            assert(s0 == self.input@.subrange(c0.pos, p0));
            assert(0 <= c0.pos <= p0 < self.input@.len());
            assert(self.input@.subrange(c0.pos, p0 + 1) =~= self.input@.subrange(c0.pos, p0).push(self.input@[p0]));
            assert(s@ =~= self.input@.subrange(c0.pos, self.pos as int));
        }
        self.skip(1);
        let mut t = self.create_token(Token::StringLiteral, s);
        t.pos.col = col;
        t
    }

    /// A number; its first digit `v` has been read. The token is placed at
    /// the column of its last digit.
    fn generate_number_token(&mut self, v: char) -> (t: TokenInfo)
        requires
            old(self).wf(),
            old(self).input@.len() > 0,
            old(self).pos <= old(self).input@.len(),
            is_digit(v),
        ensures
            (final(self).cur(), t@) == symbol_token(old(self).input@, old(self).name@, old(self).cur(), v)->0,
            final(self).same_text(old(self)),
            final(self).wf(),
    {
        let ghost c0 = self.cur();
        let ghost k = digit_run(self.input@, c0.pos);
        proof {
            lemma_run(self.input@, c0.pos, |ch: char| is_digit(ch));
        }
        let mut s = String::new();
        string_push(&mut s, v);
        while !self.is_eof() && is_digit_char(self.read())
            invariant
                self.wf(),
                self.same_text(old(self)),
                self.input@.len() > 0,
                c0 == old(self).cur(),
                c0.pos <= self.pos <= c0.pos + k,
                c0.pos + k <= self.input@.len(),
                self.cur() == adv(c0, self.pos - c0.pos),
                s@ == seq![v] + self.input@.subrange(c0.pos, self.pos as int),
                forall|i: int| c0.pos <= i < c0.pos + k ==> is_digit(#[trigger] self.input@[i]),
                c0.pos + k < self.input@.len() ==> !is_digit(self.input@[c0.pos + k]),
            decreases c0.pos + k - self.pos,
        {
            let n = self.next();
            string_push(&mut s, n.unwrap());
            assert(s@ =~= seq![v] + self.input@.subrange(c0.pos, self.pos as int));
        }
        self.create_token(Token::Number, s)
    }

    /// A name; its first character `v` has been read.
    fn generate_variable_token(&mut self, v: char) -> (t: TokenInfo)
        requires
            old(self).wf(),
            old(self).input@.len() > 0,
            old(self).pos <= old(self).input@.len(),
        ensures
            (final(self).cur(), t@) == variable_token(old(self).input@, old(self).name@, old(self).cur(), v),
            final(self).same_text(old(self)),
            final(self).wf(),
    {
        let ghost c0 = self.cur();
        let ghost k = ident_run(self.input@, c0.pos);
        proof {
            lemma_run(self.input@, c0.pos, |ch: char| is_ident(ch));
        }
        let mut s = String::new();
        string_push(&mut s, v);
        let mut l: usize = 1;
        while !self.is_eof() && self.is_variable(self.read())
            invariant
                self.wf(),
                self.same_text(old(self)),
                self.input@.len() > 0,
                c0 == old(self).cur(),
                c0.pos <= self.pos <= c0.pos + k,
                c0.pos + k <= self.input@.len(),
                self.cur() == adv(c0, self.pos - c0.pos),
                l == 1 + self.pos - c0.pos,
                s@ == seq![v] + self.input@.subrange(c0.pos, self.pos as int),
                forall|i: int| c0.pos <= i < c0.pos + k ==> is_ident(#[trigger] self.input@[i]),
                c0.pos + k < self.input@.len() ==> !is_ident(self.input@[c0.pos + k]),
            decreases c0.pos + k - self.pos,
        {
            string_push(&mut s, self.read());
            self.skip(1);
            l = l + 1;
            assert(s@ =~= seq![v] + self.input@.subrange(c0.pos, self.pos as int));
        }
        let mut t = self.create_token(Token::Variable, s);
        t.pos.col = t.pos.col - (l - 1);
        t
    }

    fn is_equal(&self, v: char) -> (r: bool)
        requires
            v == '=' ==> self.pos < self.input@.len(),
        ensures
            r == (v == '=' && self.input@[self.pos as int] == '='),
    {
        v == '=' && self.read() == '='
    }

    fn is_not_equal(&self, v: char) -> (r: bool)
        requires
            v == '!' ==> self.pos < self.input@.len(),
        ensures
            r == (v == '!' && self.input@[self.pos as int] == '='),
    {
        v == '!' && self.read() == '='
    }

    fn is_greater_than_equal(&self, v: char) -> (r: bool)
        requires
            v == '>' ==> self.pos < self.input@.len(),
        ensures
            r == (v == '>' && self.input@[self.pos as int] == '='),
    {
        v == '>' && self.read() == '='
    }

    fn is_less_than_equal(&self, v: char) -> (r: bool)
        requires
            v == '<' ==> self.pos < self.input@.len(),
        ensures
            r == (v == '<' && self.input@[self.pos as int] == '='),
    {
        v == '<' && self.read() == '='
    }

    fn is_logical_and(&self, v: char) -> (r: bool)
        requires
            v == '&' ==> self.pos < self.input@.len(),
        ensures
            r == (v == '&' && self.input@[self.pos as int] == '&'),
    {
        v == '&' && self.read() == '&'
    }

    fn is_logical_or(&self, v: char) -> (r: bool)
        requires
            v == '|' ==> self.pos < self.input@.len(),
        ensures
            r == (v == '|' && self.input@[self.pos as int] == '|'),
    {
        v == '|' && self.read() == '|'
    }

    fn is_left_shift(&self, v: char) -> (r: bool)
        requires
            v == '<' ==> self.pos < self.input@.len(),
        ensures
            r == (v == '<' && self.input@[self.pos as int] == '<'),
    {
        v == '<' && self.read() == '<'
    }

    fn is_right_shift(&self, v: char) -> (r: bool)
        requires
            v == '>' ==> self.pos < self.input@.len(),
        ensures
            r == (v == '>' && self.input@[self.pos as int] == '>'),
    {
        v == '>' && self.read() == '>'
    }

    fn is_increment(&self, v: char) -> (r: bool)
        requires
            v == '+' ==> self.pos < self.input@.len(),
        ensures
            r == (v == '+' && self.input@[self.pos as int] == '+'),
    {
        v == '+' && self.read() == '+'
    }

    fn is_decrement(&self, v: char) -> (r: bool)
        requires
            v == '-' ==> self.pos < self.input@.len(),
        ensures
            r == (v == '-' && self.input@[self.pos as int] == '-'),
    {
        v == '-' && self.read() == '-'
    }

    fn is_plus_assign(&self, v: char) -> (r: bool)
        requires
            v == '+' ==> self.pos < self.input@.len(),
        ensures
            r == (v == '+' && self.input@[self.pos as int] == '='),
    {
        v == '+' && self.read() == '='
    }

    fn is_minus_assign(&self, v: char) -> (r: bool)
        requires
            v == '-' ==> self.pos < self.input@.len(),
        ensures
            r == (v == '-' && self.input@[self.pos as int] == '='),
    {
        v == '-' && self.read() == '='
    }

    fn is_multiple_assign(&self, v: char) -> (r: bool)
        requires
            v == '*' ==> self.pos < self.input@.len(),
        ensures
            r == (v == '*' && self.input@[self.pos as int] == '='),
    {
        v == '*' && self.read() == '='
    }

    fn is_division_assign(&self, v: char) -> (r: bool)
        requires
            v == '/' ==> self.pos < self.input@.len(),
        ensures
            r == (v == '/' && self.input@[self.pos as int] == '='),
    {
        v == '/' && self.read() == '='
    }

    fn is_remainder_assign(&self, v: char) -> (r: bool)
        requires
            v == '%' ==> self.pos < self.input@.len(),
        ensures
            r == (v == '%' && self.input@[self.pos as int] == '='),
    {
        v == '%' && self.read() == '='
    }

    /// A token that starts with the non-letter `v`, which has been read.
    fn generate_symbol(&mut self, v: char) -> (t: TokenInfo)
        requires
            old(self).wf(),
            old(self).input@.len() > 0,
            old(self).pos <= old(self).input@.len(),
            symbol_token(old(self).input@, old(self).name@, old(self).cur(), v) is Some,
        ensures
            (final(self).cur(), t@) == symbol_token(old(self).input@, old(self).name@, old(self).cur(), v)->0,
            final(self).same_text(old(self)),
            final(self).wf(),
    {
        let ghost c0 = self.cur();
        if v == '=' {
            if self.is_equal(v) {
                let t = self.create_token(Token::Equal, lit("=="));
                self.skip(1);
                t
            } else {
                self.create_token(Token::Assign, char_to_string(v))
            }
        } else if v == '!' {
            if self.is_not_equal(v) {
                let t = self.create_token(Token::NotEqual, lit("!="));
                self.skip(1);
                t
            } else {
                self.create_token(Token::Not, char_to_string(v))
            }
        } else if v == '>' {
            if self.is_greater_than_equal(v) {
                let t = self.create_token(Token::GreaterThanEqual, lit(">="));
                self.skip(1);
                t
            } else if self.is_right_shift(v) {
                let t = self.create_token(Token::RightShift, lit(">>"));
                self.skip(1);
                t
            } else {
                self.create_token(Token::GreaterThan, char_to_string(v))
            }
        } else if v == '<' {
            if self.is_less_than_equal(v) {
                let t = self.create_token(Token::LessThanEqual, lit("<="));
                self.skip(1);
                t
            } else if self.is_left_shift(v) {
                let t = self.create_token(Token::LeftShift, lit("<<"));
                self.skip(1);
                t
            } else {
                self.create_token(Token::LessThan, char_to_string(v))
            }
        } else if v == '&' {
            if self.is_logical_and(v) {
                self.skip(1);
                self.create_token(Token::LogicalAnd, lit("&&"))
            } else {
                self.create_token(Token::And, char_to_string(v))
            }
        } else if v == '|' {
            if self.is_logical_or(v) {
                self.skip(1);
                self.create_token(Token::LogicalOr, lit("||"))
            } else {
                self.create_token(Token::BitOr, char_to_string(v))
            }
        } else if v == '+' {
            if self.is_increment(v) {
                let token = self.create_token(Token::Inc, lit("++"));
                self.skip(1);
                token
            } else if self.is_plus_assign(v) {
                let token = self.create_token(Token::PlusAssign, lit("+="));
                self.skip(1);
                token
            } else {
                self.create_token(Token::Plus, char_to_string(v))
            }
        } else if v == '-' {
            if self.is_decrement(v) {
                let token = self.create_token(Token::Dec, lit("--"));
                self.skip(1);
                token
            } else if self.is_minus_assign(v) {
                let token = self.create_token(Token::MinusAssign, lit("-="));
                self.skip(1);
                token
            } else {
                self.create_token(Token::Minus, char_to_string(v))
            }
        } else if v == '*' {
            if self.is_multiple_assign(v) {
                let token = self.create_token(Token::MultipleAssign, lit("*="));
                self.skip(1);
                token
            } else {
                self.create_token(Token::Multi, char_to_string(v))
            }
        } else if v == '/' {
            if self.is_division_assign(v) {
                let token = self.create_token(Token::DivisionAssign, lit("/="));
                self.skip(1);
                token
            } else {
                self.create_token(Token::Division, char_to_string(v))
            }
        } else if v == '%' {
            if self.is_remainder_assign(v) {
                let token = self.create_token(Token::RemainderAssign, lit("%="));
                self.skip(1);
                token
            } else {
                self.create_token(Token::Remainder, char_to_string(v))
            }
        } else if v == '"' {
            self.generate_string()
        } else if v == '^' {
            self.create_token(Token::BitXor, char_to_string(v))
        } else if v == '~' {
            self.create_token(Token::BitReverse, char_to_string(v))
        } else if v == '(' {
            self.create_token(Token::LeftParen, char_to_string(v))
        } else if v == ')' {
            self.create_token(Token::RightParen, char_to_string(v))
        } else if v == '{' {
            self.create_token(Token::LeftBrace, char_to_string(v))
        } else if v == '}' {
            self.create_token(Token::RightBrace, char_to_string(v))
        } else if v == '[' {
            self.create_token(Token::LeftBracket, char_to_string(v))
        } else if v == ']' {
            self.create_token(Token::RightBracket, char_to_string(v))
        } else if v == '?' {
            self.create_token(Token::Question, char_to_string(v))
        } else if v == ':' {
            self.create_token(Token::Colon, char_to_string(v))
        } else if v == ';' {
            self.create_token(Token::SemiColon, char_to_string(v))
        } else if v == ',' {
            self.create_token(Token::Comma, char_to_string(v))
        } else {
            self.generate_number_token(v)
        }
    }

    /// The `int` keyword has been recognized; makes `int` or `int*`.
    fn generate_type_int(&mut self) -> (t: TokenInfo)
        requires
            old(self).wf(),
            old(self).input@.len() > 0,
            old(self).pos + 2 < old(self).input@.len(),
            typed(old(self).input@, old(self).name@, old(self).cur(), 2, Token::Int, Token::IntPointer, "int"@, "int*"@) is Some,
        ensures
            (final(self).cur(), t@) == typed(old(self).input@, old(self).name@, old(self).cur(), 2, Token::Int, Token::IntPointer, "int"@, "int*"@)->0,
            final(self).same_text(old(self)),
            final(self).wf(),
    {
        let col = self.col;
        self.skip(2);
        if self.is_pointer() {
            self.skip(1);
            let mut t = self.create_token(Token::IntPointer, lit("int*"));
            t.pos.col = col;
            t
        } else {
            let mut t = self.create_token(Token::Int, lit("int"));
            t.pos.col = col;
            t
        }
    }

    /// The `char` keyword has been recognized; makes `char` or `char*`.
    fn generate_type_char(&mut self) -> (t: TokenInfo)
        requires
            old(self).wf(),
            old(self).input@.len() > 0,
            old(self).pos + 3 < old(self).input@.len(),
            typed(old(self).input@, old(self).name@, old(self).cur(), 3, Token::Char, Token::CharPointer, "char"@, "char*"@) is Some,
        ensures
            (final(self).cur(), t@) == typed(old(self).input@, old(self).name@, old(self).cur(), 3, Token::Char, Token::CharPointer, "char"@, "char*"@)->0,
            final(self).same_text(old(self)),
            final(self).wf(),
    {
        let col = self.col;
        self.skip(3);
        if self.is_pointer() {
            self.skip(1);
            let mut t = self.create_token(Token::CharPointer, lit("char*"));
            t.pos.col = col;
            t
        } else {
            let mut t = self.create_token(Token::Char, lit("char"));
            t.pos.col = col;
            t
        }
    }

    /// A type token, when the word starting with `v` is `int` or `char`.
    fn generate_type(&mut self, c: char) -> (r: Option<TokenInfo>)
        requires
            old(self).wf(),
            old(self).input@.len() > 0,
            old(self).pos <= old(self).input@.len(),
            type_token(old(self).input@, old(self).name@, old(self).cur(), c) is Some,
        ensures
            match r {
                Some(t) => type_token(old(self).input@, old(self).name@, old(self).cur(), c) == Some(Some((final(self).cur(), t@))),
                None => type_token(old(self).input@, old(self).name@, old(self).cur(), c) == Some(None::<(Cursor, TokenView)>)
                    && final(self).cur() == old(self).cur(),
            },
            final(self).same_text(old(self)),
            final(self).wf(),
    {
        if self.is_type_int(c) {
            Some(self.generate_type_int())
        } else if self.is_type_char(c) {
            Some(self.generate_type_char())
        } else {
            None
        }
    }

    /// Whether the word starting with `v` is `v` followed by `rest` and a
    /// character that cannot continue a name.
    fn is_keyword(&mut self, v: char, first: char, rest: &[char]) -> (r: bool)
        requires
            old(self).wf(),
            old(self).input@.len() > 0,
            rest@.len() < 8,
        ensures
            r == keyword_at(old(self).input@, old(self).cur(), v, first, rest@),
            final(self).cur() == old(self).cur(),
            final(self).same_text(old(self)),
            final(self).wf(),
    {
        let n = rest.len() + 1;
        let s = self.read_string(n);
        if v != first || s.len() != n {
            return false;
        }
        let mut i: usize = 0;
        while i < rest.len()
            invariant
                i <= rest@.len(),
                n == rest@.len() + 1,
                s@.len() == rest@.len() + 1,
                s@ == peek(old(self).input@, old(self).cur(), n as int),
                v == first,
                self.cur() == old(self).cur(),
                self.same_text(old(self)),
                self.wf(),
                forall|j: int| 0 <= j < i ==> s@[j] == rest@[j],
            decreases rest.len() - i,
        {
            if s[i] != rest[i] {
                proof {
                    if s@.subrange(0, n - 1) == rest@ {
                        assert(s@.subrange(0, n - 1)[i as int] == s@[i as int]);
                    }
                }
                return false;
            }
            i = i + 1;
        }
        assert(s@.subrange(0, n - 1) =~= rest@);
        !self.is_variable(s[n - 1])
    }

    fn is_type_char(&mut self, c: char) -> (r: bool)
        requires
            old(self).wf(),
            old(self).input@.len() > 0,
        ensures
            r == keyword_at(old(self).input@, old(self).cur(), c, 'c', seq!['h', 'a', 'r']),
            final(self).cur() == old(self).cur(),
            final(self).same_text(old(self)),
            final(self).wf(),
    {
        let rest = ['h', 'a', 'r'];
        let r = self.is_keyword(c, 'c', &rest);
        assert(rest@ =~= seq!['h', 'a', 'r']);
        r
    }

    fn is_type_int(&mut self, c: char) -> (r: bool)
        requires
            old(self).wf(),
            old(self).input@.len() > 0,
        ensures
            r == keyword_at(old(self).input@, old(self).cur(), c, 'i', seq!['n', 't']),
            final(self).cur() == old(self).cur(),
            final(self).same_text(old(self)),
            final(self).wf(),
    {
        let rest = ['n', 't'];
        let r = self.is_keyword(c, 'i', &rest);
        assert(rest@ =~= seq!['n', 't']);
        r
    }

    /// The `sizeof` operator, when the word starting with `c` is `sizeof`.
    fn generate_sizeof(&mut self, c: char) -> (r: Option<TokenInfo>)
        requires
            old(self).wf(),
            old(self).input@.len() > 0,
        ensures
            match r {
                Some(t) => sizeof_token(old(self).input@, old(self).name@, old(self).cur(), c) == Some((final(self).cur(), t@)),
                None => sizeof_token(old(self).input@, old(self).name@, old(self).cur(), c) is None
                    && final(self).cur() == old(self).cur(),
            },
            final(self).same_text(old(self)),
            final(self).wf(),
    {
        if self.is_sizeof(c) {
            let t = Some(self.create_token(Token::SizeOf, lit("sizeof")));
            self.skip(5);
            t
        } else {
            None
        }
    }

    fn is_sizeof(&mut self, c: char) -> (r: bool)
        requires
            old(self).wf(),
            old(self).input@.len() > 0,
        ensures
            r == keyword_at(old(self).input@, old(self).cur(), c, 's', seq!['i', 'z', 'e', 'o', 'f']),
            final(self).cur() == old(self).cur(),
            final(self).same_text(old(self)),
            final(self).wf(),
    {
        let rest = ['i', 'z', 'e', 'o', 'f'];
        let r = self.is_keyword(c, 's', &rest);
        assert(rest@ =~= seq!['i', 'z', 'e', 'o', 'f']);
        r
    }

    /// Skips whitespace and tells whether a `*` follows.
    fn is_pointer(&mut self) -> (r: bool)
        requires
            old(self).wf(),
            old(self).input@.len() > 0,
            skip_spaces(old(self).input@, old(self).cur()).pos < old(self).input@.len(),
        ensures
            final(self).cur() == skip_spaces(old(self).input@, old(self).cur()),
            r == (old(self).input@[final(self).pos as int] == '*'),
            final(self).same_text(old(self)),
            final(self).wf(),
    {
        self.skip_ascii_whitespace();
        '*' == self.read()
    }

    /// A statement keyword token, when the word starting with `c` is one.
    fn generate_statement(&mut self, c: char) -> (r: Option<TokenInfo>)
        requires
            old(self).wf(),
            old(self).input@.len() > 0,
        ensures
            match r {
                Some(t) => statement_token(old(self).input@, old(self).name@, old(self).cur(), c) == Some((final(self).cur(), t@)),
                None => statement_token(old(self).input@, old(self).name@, old(self).cur(), c) is None
                    && final(self).cur() == old(self).cur(),
            },
            final(self).same_text(old(self)),
            final(self).wf(),
    {
        if self.is_statement_if(c) {
            let s = Some(self.create_token(Token::If, lit("if")));
            self.skip(1);
            s
        } else if self.is_statement_else(c) {
            let s = Some(self.create_token(Token::Else, lit("else")));
            self.skip(3);
            s
        } else if self.is_statement_while(c) {
            let s = Some(self.create_token(Token::While, lit("while")));
            self.skip(4);
            s
        } else if self.is_statement_for(c) {
            let s = Some(self.create_token(Token::For, lit("for")));
            self.skip(2);
            s
        } else if self.is_statement_do(c) {
            let s = Some(self.create_token(Token::Do, lit("do")));
            self.skip(1);
            s
        } else if self.is_statement_continue(c) {
            let s = Some(self.create_token(Token::Continue, lit("continue")));
            self.skip(7);
            s
        } else if self.is_statement_break(c) {
            let s = Some(self.create_token(Token::Break, lit("break")));
            self.skip(4);
            s
        } else if self.is_statement_return(c) {
            let s = Some(self.create_token(Token::Return, lit("return")));
            self.skip(5);
            s
        } else {
            None
        }
    }

    fn is_statement_if(&mut self, v: char) -> (r: bool)
        requires
            old(self).wf(),
            old(self).input@.len() > 0,
        ensures
            r == keyword_at(old(self).input@, old(self).cur(), v, 'i', seq!['f']),
            final(self).cur() == old(self).cur(),
            final(self).same_text(old(self)),
            final(self).wf(),
    {
        let rest = ['f'];
        let r = self.is_keyword(v, 'i', &rest);
        assert(rest@ =~= seq!['f']);
        r
    }

    fn is_statement_else(&mut self, v: char) -> (r: bool)
        requires
            old(self).wf(),
            old(self).input@.len() > 0,
        ensures
            r == keyword_at(old(self).input@, old(self).cur(), v, 'e', seq!['l', 's', 'e']),
            final(self).cur() == old(self).cur(),
            final(self).same_text(old(self)),
            final(self).wf(),
    {
        let rest = ['l', 's', 'e'];
        let r = self.is_keyword(v, 'e', &rest);
        assert(rest@ =~= seq!['l', 's', 'e']);
        r
    }

    fn is_statement_while(&mut self, v: char) -> (r: bool)
        requires
            old(self).wf(),
            old(self).input@.len() > 0,
        ensures
            r == keyword_at(old(self).input@, old(self).cur(), v, 'w', seq!['h', 'i', 'l', 'e']),
            final(self).cur() == old(self).cur(),
            final(self).same_text(old(self)),
            final(self).wf(),
    {
        let rest = ['h', 'i', 'l', 'e'];
        let r = self.is_keyword(v, 'w', &rest);
        assert(rest@ =~= seq!['h', 'i', 'l', 'e']);
        r
    }

    fn is_statement_do(&mut self, v: char) -> (r: bool)
        requires
            old(self).wf(),
            old(self).input@.len() > 0,
        ensures
            r == keyword_at(old(self).input@, old(self).cur(), v, 'd', seq!['o']),
            final(self).cur() == old(self).cur(),
            final(self).same_text(old(self)),
            final(self).wf(),
    {
        let rest = ['o'];
        let r = self.is_keyword(v, 'd', &rest);
        assert(rest@ =~= seq!['o']);
        r
    }

    fn is_statement_for(&mut self, v: char) -> (r: bool)
        requires
            old(self).wf(),
            old(self).input@.len() > 0,
        ensures
            r == keyword_at(old(self).input@, old(self).cur(), v, 'f', seq!['o', 'r']),
            final(self).cur() == old(self).cur(),
            final(self).same_text(old(self)),
            final(self).wf(),
    {
        let rest = ['o', 'r'];
        let r = self.is_keyword(v, 'f', &rest);
        assert(rest@ =~= seq!['o', 'r']);
        r
    }

    fn is_statement_continue(&mut self, v: char) -> (r: bool)
        requires
            old(self).wf(),
            old(self).input@.len() > 0,
        ensures
            r == keyword_at(old(self).input@, old(self).cur(), v, 'c', seq!['o', 'n', 't', 'i', 'n', 'u', 'e']),
            final(self).cur() == old(self).cur(),
            final(self).same_text(old(self)),
            final(self).wf(),
    {
        let rest = ['o', 'n', 't', 'i', 'n', 'u', 'e'];
        let r = self.is_keyword(v, 'c', &rest);
        assert(rest@ =~= seq!['o', 'n', 't', 'i', 'n', 'u', 'e']);
        r
    }

    fn is_statement_break(&mut self, v: char) -> (r: bool)
        requires
            old(self).wf(),
            old(self).input@.len() > 0,
        ensures
            r == keyword_at(old(self).input@, old(self).cur(), v, 'b', seq!['r', 'e', 'a', 'k']),
            final(self).cur() == old(self).cur(),
            final(self).same_text(old(self)),
            final(self).wf(),
    {
        let rest = ['r', 'e', 'a', 'k'];
        let r = self.is_keyword(v, 'b', &rest);
        assert(rest@ =~= seq!['r', 'e', 'a', 'k']);
        r
    }

    fn is_statement_return(&mut self, v: char) -> (r: bool)
        requires
            old(self).wf(),
            old(self).input@.len() > 0,
        ensures
            r == keyword_at(old(self).input@, old(self).cur(), v, 'r', seq!['e', 't', 'u', 'r', 'n']),
            final(self).cur() == old(self).cur(),
            final(self).same_text(old(self)),
            final(self).wf(),
    {
        let rest = ['e', 't', 'u', 'r', 'n'];
        let r = self.is_keyword(v, 'r', &rest);
        assert(rest@ =~= seq!['e', 't', 'u', 'r', 'n']);
        r
    }
}


fn is_space_char(c: char) -> (r: bool)
    ensures
        r == is_space(c),
{
    c == ' ' || c == '\t' || c == '\n' || c == '\x0C' || c == '\r'
}

/// Calls `char::is_alphabetic`; the contract only names its result, which
/// depends on the character alone (Unicode's `Alphabetic` property, whose
/// table is not written out here).
#[verifier::external_body]
fn char_is_alphabetic(c: char) -> (r: bool)
    ensures
        r == alphabetic(c),
{
    c.is_alphabetic()
}

/// A letter: ASCII letters are decided here, other characters by
/// `char::is_alphabetic`.
fn is_alpha_char(c: char) -> (r: bool)
    ensures
        r == is_alpha(c),
{
    if c <= '\x7F' {
        ('a' <= c && c <= 'z') || ('A' <= c && c <= 'Z')
    } else {
        char_is_alphabetic(c)
    }
}

fn is_digit_char(c: char) -> (r: bool)
    ensures
        r == is_digit(c),
{
    '0' <= c && c <= '9'
}

} // verus!
