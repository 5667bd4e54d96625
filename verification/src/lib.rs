//! A small compiler for a subset of C that emits x86-64 assembly.
pub mod arch;
pub mod codegen;
pub mod ast;
pub mod config;
pub mod lexer;
pub mod map;
pub mod semantic;
pub mod string;
pub mod symbol;
pub mod text;
pub mod token;

use vstd::prelude::*;
use crate::ast::{parse_tokens, seq_view, AstGen};
use crate::codegen::{g_items, Asm, Ctx, GenState, LabelView};
use crate::config::Config;
use crate::lexer::{lex, lex_from, views, Cursor, LexicalAnalysis};
use crate::semantic::{sem_run, strs, SemTables, Semantic};
use crate::text::lit;

verus! {

/// The name under which the source is read.
pub open spec fn source_name() -> Seq<char> {
    seq!['s', 't', 'd', 'i', 'n']
}

/// Where generation starts: no label used, no function entered.
pub open spec fn first_state() -> GenState {
    GenState {
        label: LabelView { label_no: 0, continue_labels: Seq::empty(), break_labels: Seq::empty(), return_label: 0 },
    }
}

/// The whole translation of a source: its tokens, the syntax tree, the
/// semantic tables and errors, then the assembly generated with those
/// tables. `Some(Err(..))` holds the semantic errors in reading order;
/// `None` where a stage cannot go on (an empty source, a character that
/// starts no token, tokens that form no program, a layout that overflows,
/// a node the generator has no code for).
pub open spec fn compiled(src: Seq<char>, mac: bool) -> Option<Result<Seq<char>, Seq<Seq<char>>>> {
    if src.len() == 0 {
        None
    } else {
        match lex(source_name(), src) {
            None => None,
            Some(toks) => match parse_tokens(toks) {
                None => None,
                Some((_, items)) => match sem_run(
                    SemTables { vars: Seq::empty(), globals: Seq::empty(), funcs: Seq::empty() },
                    items,
                ) {
                    None => None,
                    Some((tb, errs)) => if errs.len() > 0 {
                        Some(Err(errs))
                    } else {
                        match g_items(
                            Ctx { globals: tb.globals, vars: tb.vars, funcs: tb.funcs, mac },
                            first_state(),
                            items,
                        ) {
                            None => None,
                            Some((out, _)) => Some(Ok(out)),
                        }
                    },
                },
            },
        }
    }
}

/// A source is refused with errors for one target exactly when it is
/// refused with the same errors for the other, and a refusal always names
/// at least one error.
pub proof fn law_errors_independent_of_target(src: Seq<char>, e: Seq<Seq<char>>)
    ensures
        compiled(src, true) == Some(Err::<Seq<char>, Seq<Seq<char>>>(e)) <==> compiled(src, false) == Some(
            Err::<Seq<char>, Seq<Seq<char>>>(e),
        ),
        compiled(src, true) == Some(Err::<Seq<char>, Seq<Seq<char>>>(e)) ==> e.len() > 0,
{
}

/// The assembly of a source, or its semantic errors, as `compiled` gives
/// them.
pub open spec fn compile_view(r: Result<String, Vec<String>>) -> Result<Seq<char>, Seq<Seq<char>>> {
    match r {
        Ok(s) => Ok(s@),
        Err(v) => Err(strs(v@)),
    }
}

/// Why a source cannot be translated, for the stage that stops: the
/// reading of characters, the grammar, the layout of the symbols, or the
/// generation of code.
pub open spec fn stage_error(src: Seq<char>) -> Seq<char> {
    if src.len() == 0 {
        "Empty source"@
    } else {
        match lex(source_name(), src) {
            None => "Invalid token"@,
            Some(toks) => match parse_tokens(toks) {
                None => "Syntax error"@,
                Some((_, items)) => match sem_run(
                    SemTables { vars: Seq::empty(), globals: Seq::empty(), funcs: Seq::empty() },
                    items,
                ) {
                    None => "Symbol layout overflow"@,
                    Some(_) => "Unsupported construct for code generation"@,
                },
            },
        }
    }
}

/// What `compile` gives: the assembly, or the semantic errors, or, where a
/// stage stops, one error that names it.
pub open spec fn compile_result(src: Seq<char>, mac: bool) -> Result<Seq<char>, Seq<Seq<char>>> {
    match compiled(src, mac) {
        Some(res) => res,
        None => Err(seq![stage_error(src)]),
    }
}

/// The translation, or the message of the stage that stops it.
fn translate(inst: &str, config: Config) -> (r: Result<Result<String, Vec<String>>, String>)
    requires
        inst@.len() + 16 < usize::MAX,
    ensures
        match compiled(inst@, config.mac) {
            Some(res) => r matches Ok(x) && compile_view(x) == res,
            None => r matches Err(m) && m@ == stage_error(inst@),
        },
{
    let mut p = LexicalAnalysis::new(lit("stdin"), inst);
    proof {
        reveal_strlit("stdin");
        assert(p.name@ =~= source_name());
    }
    if inst.unicode_len() == 0 {
        return Err(lit("Empty source"));
    }
    if !p.try_read_token() {
        return Err(lit("Invalid token"));
    }
    let ghost toks = lex_from(inst@, source_name(), Cursor { pos: 0, row: 1, col: 0 })->0;
    assert(views(p.tokens@) =~= toks);
    let mut ast_gen = AstGen::new(p.get_tokens());
    let tree = match ast_gen.try_parse() {
        Some(t) => t,
        None => return Err(lit("Syntax error")),
    };
    let ghost items = seq_view(tree.tree@);
    let mut sem = Semantic::new(&tree);
    let checked = match sem.run() {
        Some(c) => c,
        None => return Err(lit("Symbol layout overflow")),
    };
    match checked {
        Err(errs) => {
            return Ok(Err(errs));
        },
        Ok(()) => {},
    }
    let global = sem.get_global_symbol();
    let vars = sem.get_var_symbol();
    let funcs = sem.get_func_symbol();
    let mut gen = Asm::new(global, vars, funcs, config);
    if !gen.run(&tree) {
        return Err(lit("Unsupported construct for code generation"));
    }
    let out = gen.get_inst();
    Ok(Ok(out))
}

/// Translates a source into assembly; `None` where `compiled` says that a
/// stage cannot go on.
pub fn try_compile(inst: &str, config: Config) -> (r: Option<Result<String, Vec<String>>>)
    requires
        inst@.len() + 16 < usize::MAX,
    ensures
        match compiled(inst@, config.mac) {
            Some(res) => r matches Some(x) && compile_view(x) == res,
            None => r is None,
        },
{
    match translate(inst, config) {
        Ok(x) => Some(x),
        Err(_) => None,
    }
}

/// Translates a source into assembly. On failure it gives the errors: the
/// semantic errors in reading order, or one error naming the stage that
/// stops (an empty source, a character that starts no token, tokens that
/// form no program, a layout that overflows, a node with no code).
pub fn compile(inst: &str, config: Config) -> (r: Result<String, Vec<String>>)
    requires
        inst@.len() + 16 < usize::MAX,
    ensures
        compile_view(r) == compile_result(inst@, config.mac),
{
    match translate(inst, config) {
        Ok(x) => x,
        Err(m) => {
            let ghost mv = m@;
            let mut errs: Vec<String> = Vec::new();
            errs.push(m);
            proof {
                assert(strs(errs@) =~= seq![mv]);
            }
            Err(errs)
        },
    }
}

} // verus!
