use vstd::prelude::*;
use crate::ast::{self, opt_view, seq_view, AstTree, AstType, AstView};
use crate::symbol::{
    find, law_register_then_find, registered, size_computable, try_registered, Scope, ScopeView, Structure, StructureView, Symbol,
    SymbolTable, SymbolView, Type, TypeView,
};
use crate::text::{append, lit, str_eq};

verus! {

// ---------------------------------------------------------------------------
// Text of values in error messages.

/// What `{:?}` writes for a string: the text quoted, with escapes.
pub uninterp spec fn debug_string(s: Seq<char>) -> Seq<char>;

/// What `{:?}` writes for a type of the syntax tree.
pub uninterp spec fn debug_type(t: ast::TypeView) -> Seq<char>;

/// What `{:?}` writes for a node of the syntax tree.
pub uninterp spec fn debug_ast(a: AstView) -> Seq<char>;

/// `format!("{:?}", s)` for a `String` (std's `Debug` for `String`); the
/// contract only names the result as a function of the text.
#[verifier::external_body]
fn string_debug(s: &String) -> (r: String)
    ensures
        r@ == debug_string(s@),
{
    format!("{:?}", s)
}

/// `format!("{:?}", t)` for a type of the syntax tree (its derived `Debug`);
/// the contract only names the result as a function of the type's content.
#[verifier::external_body]
fn type_debug(t: &ast::Type) -> (r: String)
    ensures
        r@ == debug_type(t@),
{
    format!("{:?}", t)
}

/// `format!("{:?}", a)` for a node of the syntax tree (its derived
/// `Debug`); the contract only names the result as a function of the node's
/// content.
#[verifier::external_body]
fn ast_debug(a: &AstType) -> (r: String)
    ensures
        r@ == debug_ast(a@),
{
    format!("{:?}", a)
}

// ---------------------------------------------------------------------------
// Symbols of the syntax tree.

/// The symbol type of a syntax tree type.
pub open spec fn sym_type(t: ast::TypeView) -> TypeView {
    match t {
        ast::TypeView::Int => TypeView::Int,
        ast::TypeView::Unknown(s) => TypeView::Unknown(s),
    }
}

/// The symbol shape of a syntax tree shape: an array has one dimension.
pub open spec fn sym_structure(s: ast::Structure) -> StructureView {
    match s {
        ast::Structure::Identifier => StructureView::Identifier,
        ast::Structure::Pointer => StructureView::Pointer,
        ast::Structure::Array(n) => StructureView::Array(seq![n]),
        ast::Structure::Unknown => StructureView::Unknown,
    }
}

/// A symbol of the syntax tree before it is laid out.
pub open spec fn new_sym(sc: ScopeView, n: Seq<char>, t: ast::TypeView, s: ast::Structure) -> SymbolView {
    SymbolView {
        scope: sc,
        var: n,
        t: sym_type(t),
        strt: sym_structure(s),
        pos: 0,
        offset: 0,
        size: 0,
        members: Seq::empty(),
    }
}

fn to_sym_type(t: &ast::Type) -> (r: Type)
    ensures
        r@ == sym_type(t@),
{
    match t {
        ast::Type::Int => Type::Int,
        ast::Type::Unknown(s) => Type::Unknown(s.clone()),
    }
}

fn to_sym_structure(s: ast::Structure) -> (r: Structure)
    ensures
        r@ == sym_structure(s),
{
    match s {
        ast::Structure::Identifier => Structure::Identifier,
        ast::Structure::Pointer => Structure::Pointer,
        ast::Structure::Array(n) => {
            let v = vec![n];
            assert(v@ =~= seq![n]);
            Structure::Array(v)
        },
        ast::Structure::Unknown => Structure::Unknown,
    }
}

/// Every symbol of the table has a plain (non-structure) type.
pub open spec fn plain(t: Seq<SymbolView>) -> bool {
    forall|i: int| 0 <= i < t.len() ==> !(#[trigger] t[i].t is Struct)
}

proof fn lemma_plain_computable(t: Seq<SymbolView>)
    requires
        plain(t),
    ensures
        forall|i: int| 0 <= i < t.len() ==> size_computable(#[trigger] t[i]),
{
    assert forall|i: int| 0 <= i < t.len() implies size_computable(#[trigger] t[i]) by {
        assert(!(t[i].t is Struct));
    }
}

proof fn lemma_plain_register(t: Seq<SymbolView>, sym: SymbolView)
    requires
        plain(t),
        !(sym.t is Struct),
        try_registered(t, sym) is Some,
    ensures
        plain(try_registered(t, sym)->0),
{
}

/// The three tables of the analysis: local variables, globals, functions.
pub ghost struct SemTables {
    pub vars: Seq<SymbolView>,
    pub globals: Seq<SymbolView>,
    pub funcs: Seq<SymbolView>,
}

/// The one scope of all local variables, of every function.
pub open spec fn top_scope() -> ScopeView {
    ScopeView::Local(Seq::empty())
}

/// Globals declared by a node: `Global` lists variables; each is added to
/// the global table if new. `None` where a layout overflows.
pub open spec fn global_syms(g: Seq<SymbolView>, a: AstView) -> Option<Seq<SymbolView>>
    decreases a, 1int,
{
    match a {
        AstView::Global(v) => global_syms_seq(g, v),
        AstView::Variable(t, s, n) => try_registered(g, new_sym(ScopeView::Global, n, t, s)),
        _ => Some(g),
    }
}

pub open spec fn global_syms_seq(g: Seq<SymbolView>, v: Seq<AstView>) -> Option<Seq<SymbolView>>
    decreases v, 0int,
{
    if v.len() == 0 {
        Some(g)
    } else {
        match global_syms(g, v[0]) {
            None => None,
            Some(g1) => global_syms_seq(g1, v.drop_first()),
        }
    }
}

/// Local symbols of a node: a function definition is added to the function
/// table and its parameters and body are read; a variable whose name is
/// neither among the locals (one table for all functions, looked up by
/// name) nor among the globals is added to the locals. `None` where a
/// layout overflows.
pub open spec fn local_syms(tb: SemTables, a: AstView) -> Option<SemTables>
    decreases a, 1int,
{
    match a {
        AstView::Statement(v) => local_syms_seq(tb, v),
        AstView::CallFunc(_, x) => local_syms(tb, *x),
        AstView::Argment(v) => local_syms_seq(tb, v),
        AstView::FuncDef(t, n, x, y) => {
            match try_registered(tb.funcs, new_sym(ScopeView::Func, n, t, ast::Structure::Identifier)) {
                None => None,
                Some(f) => match local_syms(SemTables { funcs: f, ..tb }, *x) {
                    None => None,
                    Some(tb1) => local_syms(tb1, *y),
                },
            }
        },
        AstView::Variable(t, s, n) => {
            if find(tb.vars, top_scope(), n) is None && find(tb.globals, ScopeView::Global, n) is None {
                match try_registered(tb.vars, new_sym(top_scope(), n, t, s)) {
                    None => None,
                    Some(v) => Some(SemTables { vars: v, ..tb }),
                }
            } else {
                Some(tb)
            }
        },
        AstView::While(_, x) => local_syms(tb, *x),
        AstView::Do(x, _) => local_syms(tb, *x),
        AstView::If(_, x, y) => match local_syms(tb, *x) {
            None => None,
            Some(tb1) => match y {
                Some(z) => local_syms(tb1, *z),
                None => Some(tb1),
            },
        },
        AstView::For(_, _, _, x) => local_syms(tb, *x),
        AstView::Plus(x, y) | AstView::Minus(x, y) | AstView::Multiple(x, y) | AstView::Division(x, y)
        | AstView::Remainder(x, y) | AstView::Equal(x, y) | AstView::NotEqual(x, y)
        | AstView::LessThan(x, y) | AstView::GreaterThan(x, y) | AstView::LessThanEqual(x, y)
        | AstView::GreaterThanEqual(x, y) | AstView::LeftShift(x, y) | AstView::RightShift(x, y)
        | AstView::BitAnd(x, y) | AstView::BitOr(x, y) | AstView::BitXor(x, y) | AstView::Assign(x, y)
        | AstView::LogicalAnd(x, y) | AstView::LogicalOr(x, y) => match local_syms(tb, *x) {
            None => None,
            Some(tb1) => local_syms(tb1, *y),
        },
        AstView::Condition(x, y, z) => match local_syms(tb, *x) {
            None => None,
            Some(tb1) => match local_syms(tb1, *y) {
                None => None,
                Some(tb2) => local_syms(tb2, *z),
            },
        },
        AstView::Return(x) | AstView::UnPlus(x) | AstView::UnMinus(x) | AstView::Not(x)
        | AstView::BitReverse(x) | AstView::Address(x) | AstView::Indirect(x) => local_syms(tb, *x),
        _ => Some(tb),
    }
}

pub open spec fn local_syms_seq(tb: SemTables, v: Seq<AstView>) -> Option<SemTables>
    decreases v, 0int,
{
    if v.len() == 0 {
        Some(tb)
    } else {
        match local_syms(tb, v[0]) {
            None => None,
            Some(tb1) => local_syms_seq(tb1, v.drop_first()),
        }
    }
}

/// From `a` to `b` the local and function tables only grew at their ends
/// and the globals stayed.
pub open spec fn grows(a: SemTables, b: SemTables) -> bool {
    &&& a.vars.is_prefix_of(b.vars)
    &&& a.funcs.is_prefix_of(b.funcs)
    &&& b.globals == a.globals
}

proof fn lemma_prefix_trans(a: Seq<SymbolView>, b: Seq<SymbolView>, c: Seq<SymbolView>)
    requires
        a.is_prefix_of(b),
        b.is_prefix_of(c),
    ensures
        a.is_prefix_of(c),
{
    assert forall|i: int| 0 <= i < a.len() implies a[i] == c.subrange(0, a.len() as int)[i] by {
        assert(a[i] == b.subrange(0, a.len() as int)[i]);
        assert(b[i] == c.subrange(0, b.len() as int)[i]);
    }
    assert(a =~= c.subrange(0, a.len() as int));
}

proof fn lemma_grows_trans(a: SemTables, b: SemTables, c: SemTables)
    requires
        grows(a, b),
        grows(b, c),
    ensures
        grows(a, c),
{
    lemma_prefix_trans(a.vars, b.vars, c.vars);
    lemma_prefix_trans(a.funcs, b.funcs, c.funcs);
}

/// Registering only adds at the end of a table.
proof fn lemma_registered_grows(t: Seq<SymbolView>, sym: SymbolView)
    ensures
        try_registered(t, sym) matches Some(t2) ==> t.is_prefix_of(t2),
{
    assert(t =~= t.subrange(0, t.len() as int));
    if try_registered(t, sym) is Some && find(t, sym.scope, sym.var) is None {
        let t2 = registered(t, sym);
        assert(t2.subrange(0, t.len() as int) =~= t);
    }
}

/// Reading the local symbols of a node only adds symbols at the ends of the
/// local and function tables, and leaves the globals alone.
pub proof fn law_local_syms_grow(tb: SemTables, a: AstView)
    ensures
        local_syms(tb, a) matches Some(t2) ==> grows(tb, t2),
    decreases a, 1int,
{
    assert(tb.vars =~= tb.vars.subrange(0, tb.vars.len() as int));
    assert(tb.funcs =~= tb.funcs.subrange(0, tb.funcs.len() as int));
    match a {
        AstView::Statement(v) | AstView::Argment(v) => law_local_syms_seq_grow(tb, v),
        AstView::CallFunc(_, x) | AstView::While(_, x) | AstView::Do(x, _) | AstView::For(_, _, _, x)
        | AstView::Return(x) | AstView::UnPlus(x) | AstView::UnMinus(x) | AstView::Not(x)
        | AstView::BitReverse(x) | AstView::Address(x) | AstView::Indirect(x) => law_local_syms_grow(tb, *x),
        AstView::FuncDef(t, n, x, y) => {
            let sym = new_sym(ScopeView::Func, n, t, ast::Structure::Identifier);
            lemma_registered_grows(tb.funcs, sym);
            if let Some(f) = try_registered(tb.funcs, sym) {
                let tb0 = SemTables { funcs: f, ..tb };
                assert(grows(tb, tb0));
                law_local_syms_grow(tb0, *x);
                if let Some(tb1) = local_syms(tb0, *x) {
                    lemma_grows_trans(tb, tb0, tb1);
                    law_local_syms_grow(tb1, *y);
                    if let Some(tb2) = local_syms(tb1, *y) {
                        lemma_grows_trans(tb, tb1, tb2);
                    }
                }
            }
        },
        AstView::Variable(t, s, n) => {
            lemma_registered_grows(tb.vars, new_sym(top_scope(), n, t, s));
        },
        AstView::If(_, x, y) => {
            law_local_syms_grow(tb, *x);
            if let Some(tb1) = local_syms(tb, *x) {
                if let Some(z) = y {
                    assert(decreases_to!(a => *z)) by {
                        assert(decreases_to!(a => y));
                    }
                    law_local_syms_grow(tb1, *z);
                    if let Some(tb2) = local_syms(tb1, *z) {
                        lemma_grows_trans(tb, tb1, tb2);
                    }
                }
            }
        },
        AstView::Plus(x, y) | AstView::Minus(x, y) | AstView::Multiple(x, y) | AstView::Division(x, y)
        | AstView::Remainder(x, y) | AstView::Equal(x, y) | AstView::NotEqual(x, y)
        | AstView::LessThan(x, y) | AstView::GreaterThan(x, y) | AstView::LessThanEqual(x, y)
        | AstView::GreaterThanEqual(x, y) | AstView::LeftShift(x, y) | AstView::RightShift(x, y)
        | AstView::BitAnd(x, y) | AstView::BitOr(x, y) | AstView::BitXor(x, y) | AstView::Assign(x, y)
        | AstView::LogicalAnd(x, y) | AstView::LogicalOr(x, y) => {
            law_local_syms_grow(tb, *x);
            if let Some(tb1) = local_syms(tb, *x) {
                law_local_syms_grow(tb1, *y);
                if let Some(tb2) = local_syms(tb1, *y) {
                    lemma_grows_trans(tb, tb1, tb2);
                }
            }
        },
        AstView::Condition(x, y, z) => {
            law_local_syms_grow(tb, *x);
            if let Some(tb1) = local_syms(tb, *x) {
                law_local_syms_grow(tb1, *y);
                if let Some(tb2) = local_syms(tb1, *y) {
                    lemma_grows_trans(tb, tb1, tb2);
                    law_local_syms_grow(tb2, *z);
                    if let Some(tb3) = local_syms(tb2, *z) {
                        lemma_grows_trans(tb, tb2, tb3);
                    }
                }
            }
        },
        _ => {},
    }
}

/// The same for the nodes of a block, read in order.
pub proof fn law_local_syms_seq_grow(tb: SemTables, v: Seq<AstView>)
    ensures
        local_syms_seq(tb, v) matches Some(t2) ==> grows(tb, t2),
    decreases v, 0int,
{
    assert(tb.vars =~= tb.vars.subrange(0, tb.vars.len() as int));
    assert(tb.funcs =~= tb.funcs.subrange(0, tb.funcs.len() as int));
    if v.len() > 0 {
        law_local_syms_grow(tb, v[0]);
        if let Some(tb1) = local_syms(tb, v[0]) {
            law_local_syms_seq_grow(tb1, v.drop_first());
            if let Some(tb2) = local_syms_seq(tb1, v.drop_first()) {
                lemma_grows_trans(tb, tb1, tb2);
            }
        }
    }
}

/// Whether the variable name `n` occurs in `a` where the local symbols are
/// read: in blocks and call arguments, in the parameters and body of a
/// definition, in the bodies of loops, in the branches of an `if`, in the
/// operands of operators and of `? :`, and under `return`, unary
/// operators, `&` and `*`.
pub open spec fn mentions(a: AstView, n: Seq<char>) -> bool
    decreases a, 1int,
{
    match a {
        AstView::Variable(_, _, m) => m == n,
        AstView::Statement(v) | AstView::Argment(v) => mentions_seq(v, n),
        AstView::CallFunc(_, x) | AstView::While(_, x) | AstView::Do(x, _) | AstView::For(_, _, _, x)
        | AstView::Return(x) | AstView::UnPlus(x) | AstView::UnMinus(x) | AstView::Not(x)
        | AstView::BitReverse(x) | AstView::Address(x) | AstView::Indirect(x) => mentions(*x, n),
        AstView::FuncDef(_, _, x, y) => mentions(*x, n) || mentions(*y, n),
        AstView::If(_, x, y) => mentions(*x, n) || match y {
            Some(z) => mentions(*z, n),
            None => false,
        },
        AstView::Plus(x, y) | AstView::Minus(x, y) | AstView::Multiple(x, y) | AstView::Division(x, y)
        | AstView::Remainder(x, y) | AstView::Equal(x, y) | AstView::NotEqual(x, y)
        | AstView::LessThan(x, y) | AstView::GreaterThan(x, y) | AstView::LessThanEqual(x, y)
        | AstView::GreaterThanEqual(x, y) | AstView::LeftShift(x, y) | AstView::RightShift(x, y)
        | AstView::BitAnd(x, y) | AstView::BitOr(x, y) | AstView::BitXor(x, y) | AstView::Assign(x, y)
        | AstView::LogicalAnd(x, y) | AstView::LogicalOr(x, y) => mentions(*x, n) || mentions(*y, n),
        AstView::Condition(x, y, z) => mentions(*x, n) || mentions(*y, n) || mentions(*z, n),
        _ => false,
    }
}

pub open spec fn mentions_seq(v: Seq<AstView>, n: Seq<char>) -> bool
    decreases v, 0int,
{
    v.len() > 0 && (mentions(v[0], n) || mentions_seq(v.drop_first(), n))
}

/// The name is a local or a global of the tables.
pub open spec fn known(tb: SemTables, n: Seq<char>) -> bool {
    find(tb.vars, top_scope(), n) is Some || find(tb.globals, ScopeView::Global, n) is Some
}

/// A symbol found in a table is found in every table that extends it.
proof fn lemma_find_extends(t: Seq<SymbolView>, t2: Seq<SymbolView>, sc: ScopeView, n: Seq<char>)
    requires
        t.is_prefix_of(t2),
        find(t, sc, n) is Some,
    ensures
        find(t2, sc, n) is Some,
    decreases t2.len(),
{
    if t2.len() > t.len() {
        assert(t.is_prefix_of(t2.drop_last())) by {
            assert(t =~= t2.drop_last().subrange(0, t.len() as int));
        }
        lemma_find_extends(t, t2.drop_last(), sc, n);
    } else {
        assert(t2 =~= t);
    }
}

proof fn lemma_known_grows(a: SemTables, b: SemTables, n: Seq<char>)
    requires
        grows(a, b),
        known(a, n),
    ensures
        known(b, n),
{
    if find(a.vars, top_scope(), n) is Some {
        lemma_find_extends(a.vars, b.vars, top_scope(), n);
    }
}

/// A variable that is neither a local nor a global yet becomes a local
/// with the name, type and shape it was declared with: an `int` stays an
/// `int`, a plain name a plain name, a pointer a pointer, and an array of
/// `k` elements an array of one dimension `k`. The globals stay as they
/// were.
pub proof fn law_new_local_keeps_declaration(tb: SemTables, t: ast::TypeView, s: ast::Structure, n: Seq<char>)
    requires
        find(tb.vars, top_scope(), n) is None,
        find(tb.globals, ScopeView::Global, n) is None,
    ensures
        local_syms(tb, AstView::Variable(t, s, n)) matches Some(t2) ==> {
            &&& t2.globals == tb.globals
            &&& find(t2.vars, top_scope(), n) matches Some(sym) && {
                &&& sym.var == n
                &&& (t == ast::TypeView::Int ==> sym.t == TypeView::Int)
                &&& (s == ast::Structure::Identifier ==> sym.strt == StructureView::Identifier)
                &&& (s == ast::Structure::Pointer ==> sym.strt == StructureView::Pointer)
                &&& (s matches ast::Structure::Array(k) ==> sym.strt == StructureView::Array(seq![k]))
            }
        },
{
    let sym = new_sym(top_scope(), n, t, s);
    law_register_then_find(tb.vars, sym);
}

/// Reading the globals of a list of nodes only adds symbols at the end of
/// the global table.
proof fn lemma_globals_seq_grow(g: Seq<SymbolView>, v: Seq<AstView>)
    ensures
        global_syms_seq(g, v) matches Some(g2) ==> g.is_prefix_of(g2),
    decreases v, 0int,
{
    assert(g =~= g.subrange(0, g.len() as int));
    if v.len() > 0 {
        lemma_globals_grow(g, v[0]);
        if let Some(g1) = global_syms(g, v[0]) {
            lemma_globals_seq_grow(g1, v.drop_first());
            if let Some(g2) = global_syms_seq(g1, v.drop_first()) {
                lemma_prefix_trans(g, g1, g2);
            }
        }
    }
}

proof fn lemma_globals_grow(g: Seq<SymbolView>, a: AstView)
    ensures
        global_syms(g, a) matches Some(g2) ==> g.is_prefix_of(g2),
    decreases a, 1int,
{
    assert(g =~= g.subrange(0, g.len() as int));
    match a {
        AstView::Global(v) => lemma_globals_seq_grow(g, v),
        AstView::Variable(t, s, n) => lemma_registered_grows(g, new_sym(ScopeView::Global, n, t, s)),
        _ => {},
    }
}

/// Whether node `a` is the variable named `n`.
pub open spec fn is_var_named(a: AstView, n: Seq<char>) -> bool {
    match a {
        AstView::Variable(_, _, m) => m == n,
        _ => false,
    }
}

/// Every variable listed in a global declaration is in the global table
/// once the globals are read.
pub proof fn law_globals_cover(g: Seq<SymbolView>, v: Seq<AstView>, n: Seq<char>)
    ensures
        global_syms(g, AstView::Global(v)) matches Some(g2) ==> ((exists|i: int|
            0 <= i < v.len() && #[trigger] is_var_named(v[i], n)) ==> find(g2, ScopeView::Global, n) is Some),
    decreases v.len(),
{
    if v.len() > 0 {
        if let Some(g1) = global_syms(g, v[0]) {
            lemma_globals_seq_grow(g1, v.drop_first());
            law_globals_cover(g1, v.drop_first(), n);
            if let Some(g2) = global_syms_seq(g1, v.drop_first()) {
                if let AstView::Variable(t, s, m) = v[0] {
                    if m == n {
                        law_register_then_find(g, new_sym(ScopeView::Global, n, t, s));
                        assert(find(g1, ScopeView::Global, n) is Some);
                        lemma_find_extends(g1, g2, ScopeView::Global, n);
                    }
                }
                if exists|i: int| 0 <= i < v.len() && #[trigger] is_var_named(v[i], n) {
                    let i = choose|i: int| 0 <= i < v.len() && #[trigger] is_var_named(v[i], n);
                    if i > 0 {
                        assert(v.drop_first()[i - 1] == v[i]);
                    }
                }
            }
        }
    }
}

/// A function definition puts its name in the function table: after its
/// local symbols are read, the function is found there.
pub proof fn law_function_registered(tb: SemTables, t: ast::TypeView, n: Seq<char>, x: AstView, y: AstView)
    ensures
        local_syms(tb, AstView::FuncDef(t, n, Box::new(x), Box::new(y))) matches Some(t2) ==> find(
            t2.funcs,
            ScopeView::Func,
            n,
        ) is Some,
{
    let sym = new_sym(ScopeView::Func, n, t, ast::Structure::Identifier);
    law_register_then_find(tb.funcs, sym);
    if let Some(f) = try_registered(tb.funcs, sym) {
        assert(find(f, ScopeView::Func, n) is Some);
        let tb0 = SemTables { funcs: f, ..tb };
        law_local_syms_grow(tb0, x);
        if let Some(tb1) = local_syms(tb0, x) {
            law_local_syms_grow(tb1, y);
            lemma_find_extends(f, tb1.funcs, ScopeView::Func, n);
            if let Some(t2) = local_syms(tb1, y) {
                lemma_find_extends(tb1.funcs, t2.funcs, ScopeView::Func, n);
            }
        }
    }
}

/// After the local symbols of a node are read, every variable named in it
/// (where locals are read) is a local or a global: none is left out.
pub proof fn law_local_syms_cover(tb: SemTables, a: AstView, n: Seq<char>)
    ensures
        local_syms(tb, a) matches Some(t2) ==> (mentions(a, n) ==> known(t2, n)),
    decreases a, 1int,
{
    law_local_syms_grow(tb, a);
    match a {
        AstView::Statement(v) | AstView::Argment(v) => law_local_syms_seq_cover(tb, v, n),
        AstView::CallFunc(_, x) | AstView::While(_, x) | AstView::Do(x, _) | AstView::For(_, _, _, x)
        | AstView::Return(x) | AstView::UnPlus(x) | AstView::UnMinus(x) | AstView::Not(x)
        | AstView::BitReverse(x) | AstView::Address(x) | AstView::Indirect(x) => law_local_syms_cover(tb, *x, n),
        AstView::FuncDef(t, m, x, y) => {
            let sym = new_sym(ScopeView::Func, m, t, ast::Structure::Identifier);
            if let Some(f) = try_registered(tb.funcs, sym) {
                let tb0 = SemTables { funcs: f, ..tb };
                law_local_syms_cover(tb0, *x, n);
                if let Some(tb1) = local_syms(tb0, *x) {
                    law_local_syms_cover(tb1, *y, n);
                    law_local_syms_grow(tb1, *y);
                    if let Some(tb2) = local_syms(tb1, *y) {
                        if mentions(*x, n) {
                            lemma_known_grows(tb1, tb2, n);
                        }
                    }
                }
            }
        },
        AstView::Variable(t, s, m) => {
            if m == n && !(find(tb.vars, top_scope(), n) is Some) && !(find(tb.globals, ScopeView::Global, n) is Some) {
                let sym = new_sym(top_scope(), n, t, s);
                law_register_then_find(tb.vars, sym);
            }
        },
        AstView::If(_, x, y) => {
            law_local_syms_cover(tb, *x, n);
            if let Some(tb1) = local_syms(tb, *x) {
                if let Some(z) = y {
                    assert(decreases_to!(a => *z)) by {
                        assert(decreases_to!(a => y));
                    }
                    law_local_syms_cover(tb1, *z, n);
                    law_local_syms_grow(tb1, *z);
                    if let Some(tb2) = local_syms(tb1, *z) {
                        if mentions(*x, n) {
                            lemma_known_grows(tb1, tb2, n);
                        }
                    }
                }
            }
        },
        AstView::Plus(x, y) | AstView::Minus(x, y) | AstView::Multiple(x, y) | AstView::Division(x, y)
        | AstView::Remainder(x, y) | AstView::Equal(x, y) | AstView::NotEqual(x, y)
        | AstView::LessThan(x, y) | AstView::GreaterThan(x, y) | AstView::LessThanEqual(x, y)
        | AstView::GreaterThanEqual(x, y) | AstView::LeftShift(x, y) | AstView::RightShift(x, y)
        | AstView::BitAnd(x, y) | AstView::BitOr(x, y) | AstView::BitXor(x, y) | AstView::Assign(x, y)
        | AstView::LogicalAnd(x, y) | AstView::LogicalOr(x, y) => {
            law_local_syms_cover(tb, *x, n);
            if let Some(tb1) = local_syms(tb, *x) {
                law_local_syms_cover(tb1, *y, n);
                law_local_syms_grow(tb1, *y);
                if let Some(tb2) = local_syms(tb1, *y) {
                    if mentions(*x, n) {
                        lemma_known_grows(tb1, tb2, n);
                    }
                }
            }
        },
        AstView::Condition(x, y, z) => {
            law_local_syms_cover(tb, *x, n);
            if let Some(tb1) = local_syms(tb, *x) {
                law_local_syms_cover(tb1, *y, n);
                law_local_syms_grow(tb1, *y);
                if let Some(tb2) = local_syms(tb1, *y) {
                    law_local_syms_cover(tb2, *z, n);
                    law_local_syms_grow(tb2, *z);
                    if let Some(tb3) = local_syms(tb2, *z) {
                        if mentions(*x, n) {
                            lemma_known_grows(tb1, tb2, n);
                        }
                        if mentions(*x, n) || mentions(*y, n) {
                            lemma_known_grows(tb2, tb3, n);
                        }
                    }
                }
            }
        },
        _ => {},
    }
}

/// The same for the nodes of a block, read in order.
pub proof fn law_local_syms_seq_cover(tb: SemTables, v: Seq<AstView>, n: Seq<char>)
    ensures
        local_syms_seq(tb, v) matches Some(t2) ==> (mentions_seq(v, n) ==> known(t2, n)),
    decreases v, 0int,
{
    if v.len() > 0 {
        law_local_syms_cover(tb, v[0], n);
        if let Some(tb1) = local_syms(tb, v[0]) {
            law_local_syms_seq_cover(tb1, v.drop_first(), n);
            law_local_syms_seq_grow(tb1, v.drop_first());
            if let Some(tb2) = local_syms_seq(tb1, v.drop_first()) {
                if mentions(v[0], n) {
                    lemma_known_grows(tb1, tb2, n);
                }
            }
        }
    }
}

// ---------------------------------------------------------------------------
// Errors.

pub open spec fn type_errs(t: ast::TypeView) -> Seq<Seq<char>> {
    match t {
        ast::TypeView::Unknown(n) => seq!["Cannot found Type: "@ + debug_string(n)],
        _ => Seq::empty(),
    }
}

/// A call must name a defined function.
pub open spec fn call_errs(funcs: Seq<SymbolView>, v: AstView) -> Seq<Seq<char>> {
    match v {
        AstView::Variable(_, _, n) => if find(funcs, ScopeView::Func, n) is None {
            seq!["Not define function name: "@ + debug_string(n)]
        } else {
            Seq::empty()
        },
        _ => seq!["AstType is not Variable: "@ + debug_ast(v)],
    }
}

/// Two variables combined by arithmetic must have the same type.
pub open spec fn both_side_errs(l: AstView, r: AstView) -> Seq<Seq<char>> {
    match (l, r) {
        (AstView::Variable(t1, _, _), AstView::Variable(t2, _, _)) => if t1 != t2 {
            seq!["Both Type Difference: "@ + debug_type(t1) + " "@ + debug_type(t2)]
        } else {
            Seq::empty()
        },
        _ => Seq::empty(),
    }
}

/// The errors found in a node, in reading order: unknown types of
/// definitions and variables, calls of undefined functions, arithmetic on
/// variables of different types.
pub open spec fn analysis_errs(funcs: Seq<SymbolView>, a: AstView) -> Seq<Seq<char>>
    decreases a, 1int,
{
    match a {
        AstView::FuncDef(t, _, x, y) => type_errs(t) + analysis_errs(funcs, *x) + analysis_errs(funcs, *y),
        AstView::CallFunc(v, _) => call_errs(funcs, *v),
        AstView::Argment(v) => errs_seq(funcs, v),
        AstView::Statement(v) => errs_seq(funcs, v),
        AstView::Return(x) => analysis_errs(funcs, *x),
        AstView::Variable(t, _, _) => type_errs(t),
        AstView::Plus(x, y) | AstView::Minus(x, y) | AstView::Multiple(x, y) | AstView::Division(x, y) =>
            analysis_errs(funcs, *x) + analysis_errs(funcs, *y) + both_side_errs(*x, *y),
        _ => Seq::empty(),
    }
}

/// A variable of an unknown type is reported once, by the type's name; a
/// variable of a known type is not reported.
pub proof fn law_variable_type_error(funcs: Seq<SymbolView>, t: ast::TypeView, s: ast::Structure, n: Seq<char>)
    ensures
        analysis_errs(funcs, AstView::Variable(t, s, n)) == match t {
            ast::TypeView::Unknown(m) => seq!["Cannot found Type: "@ + debug_string(m)],
            ast::TypeView::Int => Seq::<Seq<char>>::empty(),
        },
{
}

/// A call of a name is reported exactly when no function of that name is
/// defined, by the name.
pub proof fn law_call_error(funcs: Seq<SymbolView>, t: ast::TypeView, s: ast::Structure, n: Seq<char>, args: AstView)
    ensures
        analysis_errs(funcs, AstView::CallFunc(Box::new(AstView::Variable(t, s, n)), Box::new(args))) == if find(
            funcs,
            ScopeView::Func,
            n,
        ) is Some {
            Seq::<Seq<char>>::empty()
        } else {
            seq!["Not define function name: "@ + debug_string(n)]
        },
{
}

/// `+`, `-`, `*` and `/` on two variables are reported, after the errors of
/// the operands, exactly when the two types differ.
pub proof fn law_mixed_types_error(
    funcs: Seq<SymbolView>,
    op: AstView,
    t1: ast::TypeView,
    s1: ast::Structure,
    n1: Seq<char>,
    t2: ast::TypeView,
    s2: ast::Structure,
    n2: Seq<char>,
)
    requires
        op == AstView::Plus(Box::new(AstView::Variable(t1, s1, n1)), Box::new(AstView::Variable(t2, s2, n2)))
            || op == AstView::Minus(Box::new(AstView::Variable(t1, s1, n1)), Box::new(AstView::Variable(t2, s2, n2)))
            || op == AstView::Multiple(Box::new(AstView::Variable(t1, s1, n1)), Box::new(AstView::Variable(t2, s2, n2)))
            || op == AstView::Division(Box::new(AstView::Variable(t1, s1, n1)), Box::new(AstView::Variable(t2, s2, n2))),
    ensures
        analysis_errs(funcs, op) == analysis_errs(funcs, AstView::Variable(t1, s1, n1)) + analysis_errs(
            funcs,
            AstView::Variable(t2, s2, n2),
        ) + if t1 != t2 {
            seq!["Both Type Difference: "@ + debug_type(t1) + " "@ + debug_type(t2)]
        } else {
            Seq::<Seq<char>>::empty()
        },
{
}

pub open spec fn errs_seq(funcs: Seq<SymbolView>, v: Seq<AstView>) -> Seq<Seq<char>>
    decreases v, 0int,
{
    if v.len() == 0 {
        Seq::empty()
    } else {
        analysis_errs(funcs, v[0]) + errs_seq(funcs, v.drop_first())
    }
}

/// `Ok` for no error, else the errors.
pub open spec fn analyzed(e: Seq<Seq<char>>) -> Result<(), Seq<Seq<char>>> {
    if e.len() == 0 {
        Ok(())
    } else {
        Err(e)
    }
}

pub open spec fn strs(v: Seq<String>) -> Seq<Seq<char>> {
    v.map_values(|s: String| s@)
}

pub open spec fn result_view(r: Result<(), Vec<String>>) -> Result<(), Seq<Seq<char>>> {
    match r {
        Ok(()) => Ok(()),
        Err(v) => Err(strs(v@)),
    }
}

/// The analysis of the items from the first on: for each, its globals, then
/// its local symbols, then its errors against the functions known so far.
/// The final tables and all errors in order; `None` where a layout
/// overflows.
pub open spec fn sem_run(tb: SemTables, items: Seq<AstView>) -> Option<(SemTables, Seq<Seq<char>>)>
    decreases items.len(),
{
    if items.len() == 0 {
        Some((tb, Seq::empty()))
    } else {
        let a = items[0];
        let g = if a is Global { global_syms(tb.globals, a) } else { Some(tb.globals) };
        match g {
            None => None,
            Some(gl) => match local_syms(SemTables { globals: gl, ..tb }, a) {
                None => None,
                Some(tb2) => match sem_run(tb2, items.drop_first()) {
                    None => None,
                    Some((tb3, rest)) => Some((tb3, analysis_errs(tb2.funcs, a) + rest)),
                },
            },
        }
    }
}

proof fn lemma_strs_append(a: Seq<String>, b: Seq<String>)
    ensures
        strs(a + b) == strs(a) + strs(b),
{
    assert(strs(a + b) =~= strs(a) + strs(b));
}

proof fn lemma_strs_push(a: Seq<String>, s: String)
    ensures
        strs(a.push(s)) == strs(a).push(s@),
{
    assert(strs(a.push(s)) =~= strs(a).push(s@));
}

proof fn lemma_block_child(sv: Seq<AstView>, i: int)
    requires
        0 <= i < sv.len(),
    ensures
        decreases_to!(AstView::Statement(sv) => sv[i]),
        decreases_to!(AstView::Argment(sv) => sv[i]),
{
    let n = AstView::Statement(sv);
    match n {
        AstView::Statement(v) => {
            assert(decreases_to!(n => v));
            assert(decreases_to!(v => v[i]));
        },
        _ => {},
    }
    let m = AstView::Argment(sv);
    match m {
        AstView::Argment(v) => {
            assert(decreases_to!(m => v));
            assert(decreases_to!(v => v[i]));
        },
        _ => {},
    }
}

proof fn lemma_pair_children(n: AstView)
    ensures
        n matches AstView::Plus(x, y) ==> decreases_to!(n => *x) && decreases_to!(n => *y),
        n matches AstView::Minus(x, y) ==> decreases_to!(n => *x) && decreases_to!(n => *y),
        n matches AstView::Multiple(x, y) ==> decreases_to!(n => *x) && decreases_to!(n => *y),
        n matches AstView::Division(x, y) ==> decreases_to!(n => *x) && decreases_to!(n => *y),
        n matches AstView::FuncDef(_, _, x, y) ==> decreases_to!(n => *x) && decreases_to!(n => *y),
{
    match n {
        AstView::Plus(x, y) | AstView::Minus(x, y) | AstView::Multiple(x, y) | AstView::Division(x, y)
        | AstView::FuncDef(_, _, x, y) => {
            assert(decreases_to!(n => x));
            assert(decreases_to!(n => y));
        },
        _ => {},
    }
}

/// Turns the collected errors into the result of an analysis.
fn analyzed_of(errs: Vec<String>) -> (r: Result<(), Vec<String>>)
    ensures
        result_view(r) == analyzed(strs(errs@)),
{
    if errs.len() == 0 {
        Ok(())
    } else {
        Err(errs)
    }
}

/// Appends the errors of `r` to `errs`.
fn collect(errs: &mut Vec<String>, r: Result<(), Vec<String>>, Ghost(e): Ghost<Seq<Seq<char>>>)
    requires
        result_view(r) == analyzed(e),
    ensures
        strs(final(errs)@) == strs(old(errs)@) + e,
{
    match r {
        Ok(()) => {
            assert(strs(errs@) + e =~= strs(errs@));
        },
        Err(mut v) => {
            let ghost before = errs@;
            let ghost added = v@;
            errs.append(&mut v);
            proof {
                lemma_strs_append(before, added);
            }
        },
    }
}

/// Whether two types of the syntax tree are the same.
fn same_type(a: &ast::Type, b: &ast::Type) -> (r: bool)
    ensures
        r == (a@ == b@),
{
    match (a, b) {
        (ast::Type::Int, ast::Type::Int) => true,
        (ast::Type::Unknown(x), ast::Type::Unknown(y)) => str_eq(x, y),
        _ => false,
    }
}

// ---------------------------------------------------------------------------
// The analysis.

/// Semantic analysis of a syntax tree: builds the symbol tables and checks
/// types and calls.
pub struct Semantic<'a> {
    ast: &'a AstTree,
    vars_table: SymbolTable,
    global_table: SymbolTable,
    funcs_table: SymbolTable,
}

impl<'a> Semantic<'a> {
    /// The items of the tree.
    pub closed spec fn items(&self) -> Seq<AstView> {
        seq_view(self.ast.tree@)
    }

    /// The three tables.
    pub closed spec fn tabs(&self) -> SemTables {
        SemTables { vars: self.vars_table@, globals: self.global_table@, funcs: self.funcs_table@ }
    }

    /// All symbols have plain types.
    pub closed spec fn inv(&self) -> bool {
        &&& plain(self.vars_table@)
        &&& plain(self.global_table@)
        &&& plain(self.funcs_table@)
    }

    pub fn new(ast: &'a AstTree) -> (r: Semantic<'a>)
        ensures
            r.inv(),
            r.items() == seq_view(ast.tree@),
            r.tabs() == (SemTables { vars: Seq::empty(), globals: Seq::empty(), funcs: Seq::empty() }),
    {
        Semantic {
            ast: ast,
            vars_table: SymbolTable::new(),
            global_table: SymbolTable::new(),
            funcs_table: SymbolTable::new(),
        }
    }

    /// Adds the globals a node declares.
    fn make_global_sym_table(&mut self, a: &AstType) -> (ok: bool)
        requires
            old(self).inv(),
        ensures
            final(self).inv(),
            final(self).ast == old(self).ast,
            final(self).vars_table == old(self).vars_table,
            final(self).funcs_table == old(self).funcs_table,
            match global_syms(old(self).global_table@, a@) {
                Some(g) => ok && final(self).global_table@ == g,
                None => !ok,
            },
        decreases a@, 1int,
    {
        match a {
            AstType::Global(stmt) => {
                let ghost sv = seq_view(stmt@);
                assert(sv.subrange(0, sv.len() as int) =~= sv);
                let mut i: usize = 0;
                while i < stmt.len()
                    invariant
                        i <= stmt@.len(),
                        sv == seq_view(stmt@),
                        a@ == AstView::Global(sv),
                        self.inv(),
                        self.ast == old(self).ast,
                        self.vars_table == old(self).vars_table,
                        self.funcs_table == old(self).funcs_table,
                        global_syms_seq(old(self).global_table@, sv) == global_syms_seq(
                            self.global_table@,
                            sv.subrange(i as int, sv.len() as int),
                        ),
                    decreases stmt.len() - i,
                {
                    let ghost rest = sv.subrange(i as int, sv.len() as int);
                    assert(rest[0] == stmt@[i as int]@);
                    assert(rest.drop_first() =~= sv.subrange(i + 1, sv.len() as int));
                    if !self.make_global_sym_table(&stmt[i]) {
                        return false;
                    }
                    i = i + 1;
                }
                assert(sv.subrange(sv.len() as int, sv.len() as int) =~= Seq::<AstView>::empty());
                true
            },
            AstType::Variable(t, s, n) => {
                proof {
                    lemma_plain_computable(self.global_table@);
                }
                let sym = Symbol::new(Scope::Global, n.clone(), to_sym_type(t), to_sym_structure(*s));
                let ghost before = self.global_table@;
                let ok = self.global_table.try_register_sym(sym);
                proof {
                    if ok {
                        lemma_plain_register(before, sym@);
                    }
                }
                ok
            },
            _ => true,
        }
    }

    /// Local symbols of `a` and `b` (the two blocks of an `if`).
    fn make_local_sym_table_for_if(&mut self, a: &AstType, b: &Option<AstType>, Ghost(node): Ghost<AstView>) -> (ok: bool)
        requires
            old(self).inv(),
            node matches AstView::If(_, x, y) && *x == a@ && y == opt_view(*b),
        ensures
            final(self).inv(),
            final(self).ast == old(self).ast,
            final(self).global_table == old(self).global_table,
            match local_syms(old(self).tabs(), node) {
                Some(t) => ok && final(self).tabs() == t,
                None => !ok,
            },
        decreases node, 0int,
    {
        if !self.make_local_sym_table(a) {
            return false;
        }
        match b {
            Some(c) => self.make_local_sym_table(c),
            None => true,
        }
    }

    /// Local and function symbols of a node.
    #[verifier::spinoff_prover]
    #[verifier::rlimit(100)]
    fn make_local_sym_table(&mut self, a: &AstType) -> (ok: bool)
        requires
            old(self).inv(),
        ensures
            final(self).inv(),
            final(self).ast == old(self).ast,
            final(self).global_table == old(self).global_table,
            match local_syms(old(self).tabs(), a@) {
                Some(t) => ok && final(self).tabs() == t,
                None => !ok,
            },
        decreases a@, 1int,
    {
        match a {
            AstType::Statement(stmt) | AstType::Argment(stmt) => {
                let ghost sv = seq_view(stmt@);
                assert(sv.subrange(0, sv.len() as int) =~= sv);
                let mut i: usize = 0;
                while i < stmt.len()
                    invariant
                        i <= stmt@.len(),
                        sv == seq_view(stmt@),
                        a@ == AstView::Statement(sv) || a@ == AstView::Argment(sv),
                        self.inv(),
                        self.ast == old(self).ast,
                        self.global_table == old(self).global_table,
                        local_syms_seq(old(self).tabs(), sv) == local_syms_seq(
                            self.tabs(),
                            sv.subrange(i as int, sv.len() as int),
                        ),
                    decreases stmt.len() - i,
                {
                    let ghost rest = sv.subrange(i as int, sv.len() as int);
                    assert(rest[0] == stmt@[i as int]@);
                    assert(rest.drop_first() =~= sv.subrange(i + 1, sv.len() as int));
                    if !self.make_local_sym_table(&stmt[i]) {
                        return false;
                    }
                    i = i + 1;
                }
                assert(sv.subrange(sv.len() as int, sv.len() as int) =~= Seq::<AstView>::empty());
                true
            },
            AstType::CallFunc(_, x) => self.make_local_sym_table(x),
            AstType::FuncDef(t, n, x, y) => {
                proof {
                    lemma_plain_computable(self.funcs_table@);
                }
                let f = Symbol::new(Scope::Func, n.clone(), to_sym_type(t), Structure::Identifier);
                assert(f@ == new_sym(ScopeView::Func, n@, t@, ast::Structure::Identifier));
                let ghost before = self.funcs_table@;
                if !self.funcs_table.try_register_sym(f) {
                    return false;
                }
                proof {
                    lemma_plain_register(before, f@);
                }
                if !self.make_local_sym_table(x) {
                    return false;
                }
                self.make_local_sym_table(y)
            },
            AstType::Variable(t, s, n) => {
                let top = Scope::Local(String::new());
                let local = self.vars_table.search(&top, n.as_str()).is_none();
                if local && self.global_table.search(&Scope::Global, n.as_str()).is_none() {
                    proof {
                        lemma_plain_computable(self.vars_table@);
                    }
                    let sym = Symbol::new(top, n.clone(), to_sym_type(t), to_sym_structure(*s));
                    let ghost before = self.vars_table@;
                    let ok = self.vars_table.try_register_sym(sym);
                    proof {
                        if ok {
                            lemma_plain_register(before, sym@);
                        }
                    }
                    ok
                } else {
                    true
                }
            },
            AstType::While(_, x) => self.make_local_sym_table(x),
            AstType::Do(x, _) => self.make_local_sym_table(x),
            AstType::If(_, x, y) => self.make_local_sym_table_for_if(x, y, Ghost(a@)),
            AstType::For(_, _, _, x) => self.make_local_sym_table(x),
            AstType::Plus(x, y) | AstType::Minus(x, y) | AstType::Multiple(x, y) | AstType::Division(x, y)
            | AstType::Remainder(x, y) | AstType::Equal(x, y) | AstType::NotEqual(x, y)
            | AstType::LessThan(x, y) | AstType::GreaterThan(x, y) | AstType::LessThanEqual(x, y)
            | AstType::GreaterThanEqual(x, y) | AstType::LeftShift(x, y) | AstType::RightShift(x, y)
            | AstType::BitAnd(x, y) | AstType::BitOr(x, y) | AstType::BitXor(x, y) | AstType::Assign(x, y)
            | AstType::LogicalAnd(x, y) | AstType::LogicalOr(x, y) => {
                if !self.make_local_sym_table(x) {
                    return false;
                }
                self.make_local_sym_table(y)
            },
            AstType::Condition(x, y, z) => {
                if !self.make_local_sym_table(x) {
                    return false;
                }
                if !self.make_local_sym_table(y) {
                    return false;
                }
                self.make_local_sym_table(z)
            },
            AstType::Return(x) | AstType::UnPlus(x) | AstType::UnMinus(x) | AstType::Not(x)
            | AstType::BitReverse(x) | AstType::Address(x) | AstType::Indirect(x) => self.make_local_sym_table(x),
            _ => true,
        }
    }

    /// The global variables.
    pub fn get_global_symbol(&self) -> (r: &SymbolTable)
        ensures
            r@ == self.tabs().globals,
    {
        &self.global_table
    }

    /// The local variables of all functions, in one scope.
    pub fn get_var_symbol(&self) -> (r: &SymbolTable)
        ensures
            r@ == self.tabs().vars,
    {
        &self.vars_table
    }

    /// The functions.
    pub fn get_func_symbol(&self) -> (r: &SymbolTable)
        ensures
            r@ == self.tabs().funcs,
    {
        &self.funcs_table
    }

    /// Reads every item: its globals, its local symbols, then its errors.
    /// `None` where a symbol's layout overflows.
    pub fn run(&mut self) -> (r: Option<Result<(), Vec<String>>>)
        requires
            old(self).inv(),
        ensures
            final(self).inv(),
            final(self).items() == old(self).items(),
            match sem_run(old(self).tabs(), old(self).items()) {
                Some((tb, e)) => r matches Some(res) && final(self).tabs() == tb && result_view(res) == analyzed(e),
                None => r is None,
            },
    {
        let ast: &'a AstTree = self.ast;
        let tree = ast.get_tree();
        let ghost items = self.items();
        let mut errs: Vec<String> = Vec::new();
        let mut i: usize = 0;
        assert(items.subrange(0, items.len() as int) =~= items);
        assert(strs(errs@) =~= Seq::<Seq<char>>::empty());
        while i < tree.len()
            invariant
                i <= tree@.len(),
                self.inv(),
                self.ast == old(self).ast,
                tree == &self.ast.tree,
                items == self.items(),
                items == seq_view(tree@),
                sem_run(old(self).tabs(), items) == match sem_run(self.tabs(), items.subrange(i as int, items.len() as int)) {
                    Some((tb, e)) => Some((tb, strs(errs@) + e)),
                    None => None,
                },
            decreases tree.len() - i,
        {
            let t = &tree[i];
            let ghost rest = items.subrange(i as int, items.len() as int);
            assert(rest[0] == t@);
            assert(rest.drop_first() =~= items.subrange(i + 1, items.len() as int));
            let is_global = match t {
                AstType::Global(_) => true,
                _ => false,
            };
            if is_global {
                if !self.make_global_sym_table(t) {
                    return None;
                }
            }
            if !self.make_local_sym_table(t) {
                return None;
            }
            let ghost before = errs@;
            let ghost e = analysis_errs(self.tabs().funcs, t@);
            let r = self.analysis(t);
            collect(&mut errs, r, Ghost(e));
            proof {
                assert forall|x: Seq<Seq<char>>| strs(before) + (e + x) == strs(errs@) + x by {
                    assert(strs(before) + (e + x) =~= strs(errs@) + x);
                }
            }
            i = i + 1;
        }
        assert(items.subrange(items.len() as int, items.len() as int) =~= Seq::<AstView>::empty());
        assert(strs(errs@) + Seq::<Seq<char>>::empty() =~= strs(errs@));
        Some(analyzed_of(errs))
    }

    /// Analyses the tree: builds the tables and returns the errors found,
    /// in reading order.
    pub fn exec(&mut self) -> (r: Result<(), Vec<String>>)
        requires
            old(self).inv(),
            sem_run(old(self).tabs(), old(self).items()) is Some,
        ensures
            final(self).inv(),
            final(self).items() == old(self).items(),
            sem_run(old(self).tabs(), old(self).items()) matches Some((tb, e)) && final(self).tabs() == tb
                && result_view(r) == analyzed(e),
    {
        match self.run() {
            Some(r) => r,
            None => {
                proof {
                    assert(false);
                }
                Ok(())
            },
        }
    }

    /// The errors of a node.
    fn analysis(&self, ast: &AstType) -> (r: Result<(), Vec<String>>)
        ensures
            result_view(r) == analyzed(analysis_errs(self.tabs().funcs, ast@)),
        decreases ast@, 2int,
    {
        match ast {
            AstType::FuncDef(t, n, a, stmt) => self.analysis_funcdef(t, n, a, stmt),
            AstType::CallFunc(v, a) => self.analysis_funccall(v, a),
            AstType::Argment(args) => self.analysis_argment(args),
            AstType::Statement(stmt) => self.analysis_statement(stmt),
            AstType::Return(s) => self.analysis_return(s),
            AstType::Variable(t, s, n) => self.analysis_variable(t, s, n),
            AstType::Plus(a, b) | AstType::Minus(a, b) | AstType::Multiple(a, b) | AstType::Division(a, b) =>
                self.analysis_arithmetic(a, b, Ghost(ast@)),
            _ => Ok(()),
        }
    }

    /// A definition: its type, then its parameters and body.
    fn analysis_funcdef(&self, t: &ast::Type, name: &String, args: &AstType, stmt: &AstType) -> (r: Result<(), Vec<String>>)
        ensures
            result_view(r) == analyzed(
                type_errs(t@) + analysis_errs(self.tabs().funcs, args@) + analysis_errs(self.tabs().funcs, stmt@),
            ),
        decreases AstView::FuncDef(t@, name@, Box::new(args@), Box::new(stmt@)), 1int,
    {
        proof {
            lemma_pair_children(AstView::FuncDef(t@, name@, Box::new(args@), Box::new(stmt@)));
        }
        let mut errs: Vec<String> = Vec::new();
        assert(strs(errs@) =~= Seq::<Seq<char>>::empty());
        let te = self.analysis_type(t);
        collect(&mut errs, te, Ghost(type_errs(t@)));
        let ae = self.analysis(args);
        collect(&mut errs, ae, Ghost(analysis_errs(self.tabs().funcs, args@)));
        let se = self.analysis(stmt);
        collect(&mut errs, se, Ghost(analysis_errs(self.tabs().funcs, stmt@)));
        assert(strs(errs@) =~= type_errs(t@) + analysis_errs(self.tabs().funcs, args@) + analysis_errs(
            self.tabs().funcs,
            stmt@,
        ));
        analyzed_of(errs)
    }

    /// A type must be known.
    fn analysis_type(&self, t: &ast::Type) -> (r: Result<(), Vec<String>>)
        ensures
            result_view(r) == analyzed(type_errs(t@)),
    {
        let mut errs: Vec<String> = Vec::new();
        match t {
            ast::Type::Unknown(n) => {
                let mut m = lit("Cannot found Type: ");
                let d = string_debug(n);
                append(&mut m, d.as_str());
                errs.push(m);
            },
            _ => {},
        }
        assert(strs(errs@) =~= type_errs(t@));
        analyzed_of(errs)
    }

    /// A call must name a defined function.
    fn analysis_funccall(&self, v: &AstType, _a: &AstType) -> (r: Result<(), Vec<String>>)
        ensures
            result_view(r) == analyzed(call_errs(self.tabs().funcs, v@)),
    {
        let mut errs: Vec<String> = Vec::new();
        match v {
            AstType::Variable(_, _, n) => {
                if self.funcs_table.search(&Scope::Func, n.as_str()).is_none() {
                    let mut m = lit("Not define function name: ");
                    let d = string_debug(n);
                    append(&mut m, d.as_str());
                    errs.push(m);
                }
            },
            _ => {
                let mut m = lit("AstType is not Variable: ");
                let d = ast_debug(v);
                append(&mut m, d.as_str());
                errs.push(m);
            },
        }
        assert(strs(errs@) =~= call_errs(self.tabs().funcs, v@));
        analyzed_of(errs)
    }

    /// Call arguments, in order.
    fn analysis_argment(&self, args: &Vec<AstType>) -> (r: Result<(), Vec<String>>)
        ensures
            result_view(r) == analyzed(errs_seq(self.tabs().funcs, seq_view(args@))),
        decreases AstView::Argment(seq_view(args@)), 1int,
    {
        let ghost sv = seq_view(args@);
        let ghost funcs = self.tabs().funcs;
        let mut errs: Vec<String> = Vec::new();
        let mut i: usize = 0;
        assert(sv.subrange(0, sv.len() as int) =~= sv);
        assert(strs(errs@) =~= Seq::<Seq<char>>::empty());
        while i < args.len()
            invariant
                i <= args@.len(),
                sv == seq_view(args@),
                funcs == self.tabs().funcs,
                errs_seq(funcs, sv) == strs(errs@) + errs_seq(funcs, sv.subrange(i as int, sv.len() as int)),
            decreases args.len() - i,
        {
            let ghost rest = sv.subrange(i as int, sv.len() as int);
            assert(rest[0] == args@[i as int]@);
            assert(rest.drop_first() =~= sv.subrange(i + 1, sv.len() as int));
            let ghost before = errs@;
            let ghost e = analysis_errs(funcs, args@[i as int]@);
            proof {
                lemma_block_child(sv, i as int);
            }
            let r = self.analysis(&args[i]);
            collect(&mut errs, r, Ghost(e));
            assert(strs(before) + (e + errs_seq(funcs, rest.drop_first())) =~= strs(errs@) + errs_seq(
                funcs,
                rest.drop_first(),
            ));
            i = i + 1;
        }
        assert(sv.subrange(sv.len() as int, sv.len() as int) =~= Seq::<AstView>::empty());
        assert(strs(errs@) + Seq::<Seq<char>>::empty() =~= strs(errs@));
        analyzed_of(errs)
    }

    /// The statements of a block, in order.
    fn analysis_statement(&self, stmt: &Vec<AstType>) -> (r: Result<(), Vec<String>>)
        ensures
            result_view(r) == analyzed(errs_seq(self.tabs().funcs, seq_view(stmt@))),
        decreases AstView::Statement(seq_view(stmt@)), 1int,
    {
        let ghost sv = seq_view(stmt@);
        let ghost funcs = self.tabs().funcs;
        let mut errs: Vec<String> = Vec::new();
        let mut i: usize = 0;
        assert(sv.subrange(0, sv.len() as int) =~= sv);
        assert(strs(errs@) =~= Seq::<Seq<char>>::empty());
        while i < stmt.len()
            invariant
                i <= stmt@.len(),
                sv == seq_view(stmt@),
                funcs == self.tabs().funcs,
                errs_seq(funcs, sv) == strs(errs@) + errs_seq(funcs, sv.subrange(i as int, sv.len() as int)),
            decreases stmt.len() - i,
        {
            let ghost rest = sv.subrange(i as int, sv.len() as int);
            assert(rest[0] == stmt@[i as int]@);
            assert(rest.drop_first() =~= sv.subrange(i + 1, sv.len() as int));
            let ghost before = errs@;
            let ghost e = analysis_errs(funcs, stmt@[i as int]@);
            proof {
                lemma_block_child(sv, i as int);
            }
            let r = self.analysis(&stmt[i]);
            collect(&mut errs, r, Ghost(e));
            assert(strs(before) + (e + errs_seq(funcs, rest.drop_first())) =~= strs(errs@) + errs_seq(
                funcs,
                rest.drop_first(),
            ));
            i = i + 1;
        }
        assert(sv.subrange(sv.len() as int, sv.len() as int) =~= Seq::<AstView>::empty());
        assert(strs(errs@) + Seq::<Seq<char>>::empty() =~= strs(errs@));
        analyzed_of(errs)
    }

    /// The returned value.
    fn analysis_return(&self, s: &AstType) -> (r: Result<(), Vec<String>>)
        ensures
            result_view(r) == analyzed(analysis_errs(self.tabs().funcs, s@)),
        decreases AstView::Return(Box::new(s@)), 1int,
    {
        proof {
            let ghost n = AstView::Return(Box::new(s@));
            match n {
                AstView::Return(x) => {
                    assert(decreases_to!(n => x));
                    assert(*x == s@);
                },
                _ => {},
            }
            assert(decreases_to!(n => s@));
        }
        self.analysis(s)
    }

    /// Both operands, then whether two variables have the same type.
    fn analysis_arithmetic(&self, a: &AstType, b: &AstType, Ghost(node): Ghost<AstView>) -> (r: Result<(), Vec<String>>)
        requires
            node == AstView::Plus(Box::new(a@), Box::new(b@)) || node == AstView::Minus(Box::new(a@), Box::new(b@))
                || node == AstView::Multiple(Box::new(a@), Box::new(b@)) || node == AstView::Division(
                Box::new(a@),
                Box::new(b@),
            ),
        ensures
            result_view(r) == analyzed(
                analysis_errs(self.tabs().funcs, a@) + analysis_errs(self.tabs().funcs, b@) + both_side_errs(a@, b@),
            ),
        decreases node, 1int,
    {
        proof {
            lemma_pair_children(node);
        }
        let mut errs: Vec<String> = Vec::new();
        assert(strs(errs@) =~= Seq::<Seq<char>>::empty());
        let ae = self.analysis(a);
        collect(&mut errs, ae, Ghost(analysis_errs(self.tabs().funcs, a@)));
        let be = self.analysis(b);
        collect(&mut errs, be, Ghost(analysis_errs(self.tabs().funcs, b@)));
        let ghost before = errs@;
        match (a, b) {
            (AstType::Variable(t1, _, _), AstType::Variable(t2, _, _)) => {
                if !same_type(t1, t2) {
                    let mut m = lit("Both Type Difference: ");
                    let d1 = type_debug(t1);
                    append(&mut m, d1.as_str());
                    append(&mut m, " ");
                    let d2 = type_debug(t2);
                    append(&mut m, d2.as_str());
                    errs.push(m);
                    proof {
                        lemma_strs_push(before, m);
                    }
                }
            },
            _ => {},
        }
        assert(strs(errs@) =~= analysis_errs(self.tabs().funcs, a@) + analysis_errs(self.tabs().funcs, b@)
            + both_side_errs(a@, b@));
        analyzed_of(errs)
    }

    /// The type of a variable must be known.
    fn analysis_variable(&self, t: &ast::Type, _s: &ast::Structure, _n: &String) -> (r: Result<(), Vec<String>>)
        ensures
            result_view(r) == analyzed(type_errs(t@)),
    {
        self.analysis_type(t)
    }
}

} // verus!
