use vstd::prelude::*;
use crate::arch::x64::{
    add_imm_text, add_text, bit_and_text, bit_division_text, bit_or_text, bit_xor_text, call_text,
    cmpl_text, equal_text, greater_than_equal_text, greater_than_text, je_text, jmp_text, jne_text,
    label_text, lea_glb_text, lea_text, left_shift_text, less_than_equal_text, less_than_text,
    minus_text, mov_dst_text, mov_from_glb_text, mov_imm_dst_text, mov_imm_text, mov_src_text,
    mov_text, mov_to_glb_text, movz_text, mul_text, multiple_text, neg_text, not_equal_text,
    not_text, plus_text, pop_text, push_text, ret_text, right_shift_text, set_text, sub_imm_text,
    sub_text,
};
use crate::arch::x64::X64;
use crate::arch::Generator;
use crate::ast::{self, is_expr_view, lemma_view_kind, opt_view, seq_view, AstTree, AstType, AstView};
use crate::config::Config;
use crate::symbol::{count_in, find, Scope, ScopeView, Symbol, SymbolTable, SymbolView};
use crate::text::{append, eq_lit, i64_text, i64_to_string, lit, to_nat, usize_text};
use vstd::arithmetic::power2::pow2;

verus! {

broadcast use crate::text::lemma_seq_add_assoc;

// ---------------------------------------------------------------------------
// Labels.

/// Label numbers: a counter, the stacks of labels that `continue` and
/// `break` jump to, and the label of the current function's return.
#[derive(Debug)]
pub struct Label {
    label_no: usize,
    continue_labels: Vec<usize>,
    break_labels: Vec<usize>,
    return_label: usize,
}

pub ghost struct LabelView {
    pub label_no: usize,
    pub continue_labels: Seq<usize>,
    pub break_labels: Seq<usize>,
    pub return_label: usize,
}

impl View for Label {
    type V = LabelView;

    closed spec fn view(&self) -> LabelView {
        LabelView {
            label_no: self.label_no,
            continue_labels: self.continue_labels@,
            break_labels: self.break_labels@,
            return_label: self.return_label,
        }
    }
}

/// `s` without any occurrence of `no`, the rest in order.
pub open spec fn without(s: Seq<usize>, no: usize) -> Seq<usize>
    decreases s.len(),
{
    if s.len() == 0 {
        s
    } else if s.last() == no {
        without(s.drop_last(), no)
    } else {
        without(s.drop_last(), no).push(s.last())
    }
}

/// A fresh label: the counter advanced by one; `None` when it cannot
/// advance.
pub open spec fn next_label_of(l: LabelView) -> Option<(usize, LabelView)> {
    if l.label_no < usize::MAX {
        let n = (l.label_no + 1) as usize;
        Some((n, LabelView { label_no: n, ..l }))
    } else {
        None
    }
}

/// A fresh label that becomes the return label.
pub open spec fn next_return_label_of(l: LabelView) -> Option<(usize, LabelView)> {
    match next_label_of(l) {
        Some((n, l1)) => Some((n, LabelView { return_label: n, ..l1 })),
        None => None,
    }
}

pub open spec fn push_continue_of(l: LabelView, no: usize) -> LabelView {
    LabelView { continue_labels: l.continue_labels.push(no), ..l }
}

/// The innermost `continue` label, taken off its stack.
pub open spec fn pop_continue_of(l: LabelView) -> (Option<usize>, LabelView) {
    if l.continue_labels.len() == 0 {
        (None, l)
    } else {
        (Some(l.continue_labels.last()), LabelView { continue_labels: l.continue_labels.drop_last(), ..l })
    }
}

pub open spec fn remove_continue_of(l: LabelView, no: usize) -> LabelView {
    LabelView { continue_labels: without(l.continue_labels, no), ..l }
}

pub open spec fn push_break_of(l: LabelView, no: usize) -> LabelView {
    LabelView { break_labels: l.break_labels.push(no), ..l }
}

/// The innermost `break` label, taken off its stack.
pub open spec fn pop_break_of(l: LabelView) -> (Option<usize>, LabelView) {
    if l.break_labels.len() == 0 {
        (None, l)
    } else {
        (Some(l.break_labels.last()), LabelView { break_labels: l.break_labels.drop_last(), ..l })
    }
}

pub open spec fn remove_break_of(l: LabelView, no: usize) -> LabelView {
    LabelView { break_labels: without(l.break_labels, no), ..l }
}

/// `v` without the occurrences of `no`.
fn remove_all(v: &Vec<usize>, no: usize) -> (r: Vec<usize>)
    ensures
        r@ == without(v@, no),
{
    let mut r: Vec<usize> = Vec::new();
    let mut i: usize = 0;
    while i < v.len()
        invariant
            i <= v@.len(),
            r@ == without(v@.subrange(0, i as int), no),
        decreases v.len() - i,
    {
        let ghost pre = v@.subrange(0, i + 1);
        assert(pre.drop_last() == v@.subrange(0, i as int));
        assert(pre.last() == v@[i as int]);
        if v[i] != no {
            r.push(v[i]);
        }
        i = i + 1;
    }
    assert(v@.subrange(0, v@.len() as int) == v@);
    r
}

impl Label {
    /// Counter at 0, no `continue` or `break` label, return label 0.
    pub fn new() -> (l: Label)
        ensures
            l@ == first_labels(),
    {
        Label { label_no: 0, continue_labels: vec![], break_labels: vec![], return_label: 0 }
    }

    /// A fresh label number: one more than the last one given.
    pub fn next_label(&mut self) -> (n: usize)
        requires
            next_label_of(old(self)@) is Some,
        ensures
            next_label_of(old(self)@) == Some((n, final(self)@)),
    {
        self.label_no = self.label_no + 1;
        self.label_no
    }

    /// A fresh label number, which becomes the return label.
    pub fn next_return_label(&mut self) -> (n: usize)
        requires
            next_return_label_of(old(self)@) is Some,
        ensures
            next_return_label_of(old(self)@) == Some((n, final(self)@)),
    {
        self.return_label = self.next_label();
        self.return_label
    }

    /// The current return label.
    pub fn get_return_label(&self) -> (n: usize)
        ensures
            n == self@.return_label,
    {
        self.return_label
    }

    /// Makes `no` the innermost `continue` label.
    pub fn push_continue(&mut self, no: usize)
        ensures
            final(self)@ == push_continue_of(old(self)@, no),
    {
        self.continue_labels.push(no);
    }

    /// Takes the innermost `continue` label off its stack.
    pub fn pop_continue(&mut self) -> (r: Option<usize>)
        ensures
            pop_continue_of(old(self)@) == (r, final(self)@),
    {
        self.continue_labels.pop()
    }

    /// Removes every `continue` label equal to `no`.
    pub fn remove_continue(&mut self, no: usize)
        ensures
            final(self)@ == remove_continue_of(old(self)@, no),
    {
        self.continue_labels = remove_all(&self.continue_labels, no);
    }

    /// Makes `no` the innermost `break` label.
    pub fn push_break(&mut self, no: usize)
        ensures
            final(self)@ == push_break_of(old(self)@, no),
    {
        self.break_labels.push(no);
    }

    /// Takes the innermost `break` label off its stack.
    pub fn pop_break(&mut self) -> (r: Option<usize>)
        ensures
            pop_break_of(old(self)@) == (r, final(self)@),
    {
        self.break_labels.pop()
    }

    /// Removes every `break` label equal to `no`.
    pub fn remove_break(&mut self, no: usize)
        ensures
            final(self)@ == remove_break_of(old(self)@, no),
    {
        self.break_labels = remove_all(&self.break_labels, no);
    }
}

/// Membership in a non-empty sequence: in the part before the last element,
/// or the last element itself.
proof fn lemma_contains_last(s: Seq<usize>, x: usize)
    requires
        s.len() > 0,
    ensures
        s.contains(x) <==> (s.drop_last().contains(x) || s.last() == x),
{
    if s.contains(x) {
        let i = choose|i: int| 0 <= i < s.len() && s[i] == x;
        if i < s.len() - 1 {
            assert(s.drop_last()[i] == x);
        }
    }
    if s.drop_last().contains(x) {
        let i = choose|i: int| 0 <= i < s.drop_last().len() && s.drop_last()[i] == x;
        assert(s[i] == x);
    }
    if s.last() == x {
        assert(s[s.len() - 1] == x);
    }
}

/// The labels as `Label::new` makes them.
pub open spec fn first_labels() -> LabelView {
    LabelView { label_no: 0, continue_labels: Seq::empty(), break_labels: Seq::empty(), return_label: 0 }
}

/// The labels after `k` fresh labels were handed out from `l`; `None` when
/// the counter cannot advance that far.
pub open spec fn after_labels(l: LabelView, k: nat) -> Option<LabelView>
    decreases k,
{
    if k == 0 {
        Some(l)
    } else {
        match after_labels(l, (k - 1) as nat) {
            Some(l1) => match next_label_of(l1) {
                Some((_, l2)) => Some(l2),
                None => None,
            },
            None => None,
        }
    }
}

/// From new labels, the `k`-th fresh label handed out is `k`: no number is
/// given twice, and the stacks and the return label are left alone.
pub proof fn law_kth_label(k: nat)
    requires
        0 < k <= usize::MAX,
    ensures
        after_labels(first_labels(), (k - 1) as nat) matches Some(l) && next_label_of(l) matches Some((n, l2))
            && n == k && l2 == (LabelView { label_no: k as usize, ..first_labels() }),
    decreases k,
{
    if k > 1 {
        law_kth_label((k - 1) as nat);
    }
}

/// Every element of `without(s, no)` is an element of `s` other than `no`,
/// and every element of `s` other than `no` stays.
pub proof fn law_without_members(s: Seq<usize>, no: usize, x: usize)
    ensures
        without(s, no).contains(x) <==> (s.contains(x) && x != no),
    decreases s.len(),
{
    if s.len() > 0 {
        law_without_members(s.drop_last(), no, x);
        lemma_contains_last(s, x);
        let w = without(s.drop_last(), no);
        if s.last() != no {
            let wp = w.push(s.last());
            assert(wp.drop_last() =~= w);
            lemma_contains_last(wp, x);
        }
    }
}

/// A sequence without `no` is left as it is by removing `no`.
pub proof fn law_without_absent(s: Seq<usize>, no: usize)
    requires
        !s.contains(no),
    ensures
        without(s, no) == s,
    decreases s.len(),
{
    if s.len() > 0 {
        assert(!s.drop_last().contains(no)) by {
            if s.drop_last().contains(no) {
                let i = choose|i: int| 0 <= i < s.drop_last().len() && s.drop_last()[i] == no;
                assert(s[i] == no);
            }
        }
        law_without_absent(s.drop_last(), no);
        assert(s.last() != no) by {
            assert(s[s.len() - 1] == s.last());
        }
        assert(s.drop_last().push(s.last()) =~= s);
    }
}

/// Popping right after pushing gives back the label pushed and the labels
/// as they were, for `continue` and for `break` alike.
pub proof fn law_pop_after_push(l: LabelView, no: usize)
    ensures
        pop_continue_of(push_continue_of(l, no)) == (Some(no), l),
        pop_break_of(push_break_of(l, no)) == (Some(no), l),
{
    assert(l.continue_labels.push(no).drop_last() =~= l.continue_labels);
    assert(l.break_labels.push(no).drop_last() =~= l.break_labels);
}

/// Removing a label that was pushed onto a stack that did not hold it
/// gives back the labels as they were.
pub proof fn law_remove_after_push(l: LabelView, no: usize)
    ensures
        !l.continue_labels.contains(no) ==> remove_continue_of(push_continue_of(l, no), no) == l,
        !l.break_labels.contains(no) ==> remove_break_of(push_break_of(l, no), no) == l,
{
    if !l.continue_labels.contains(no) {
        assert(l.continue_labels.push(no).drop_last() =~= l.continue_labels);
        law_without_absent(l.continue_labels, no);
    }
    if !l.break_labels.contains(no) {
        assert(l.break_labels.push(no).drop_last() =~= l.break_labels);
        law_without_absent(l.break_labels, no);
    }
}

/// After a removal no occurrence of the label is left, and every other
/// label is still there.
pub proof fn law_remove_clears(l: LabelView, no: usize, x: usize)
    ensures
        !remove_continue_of(l, no).continue_labels.contains(no),
        !remove_break_of(l, no).break_labels.contains(no),
        x != no ==> (remove_continue_of(l, no).continue_labels.contains(x) <==> l.continue_labels.contains(x)),
        x != no ==> (remove_break_of(l, no).break_labels.contains(x) <==> l.break_labels.contains(x)),
{
    law_without_members(l.continue_labels, no, no);
    law_without_members(l.break_labels, no, no);
    law_without_members(l.continue_labels, no, x);
    law_without_members(l.break_labels, no, x);
}

/// A fresh label is greater than every label given before it, so no two
/// labels handed out are equal; the stacks are left alone.
pub proof fn law_next_label_fresh(l: LabelView)
    requires
        next_label_of(l) is Some,
    ensures
        next_label_of(l) matches Some((n, l2)) && n == l.label_no + 1 && l2.label_no == n
            && l2.continue_labels == l.continue_labels && l2.break_labels == l.break_labels,
        next_return_label_of(l) matches Some((n, l2)) && n == l.label_no + 1 && l2.return_label == n,
{
}


// ---------------------------------------------------------------------------
// The assembly of a syntax tree.

/// What generation reads: the symbol tables and the target.
pub ghost struct Ctx {
    pub globals: Seq<SymbolView>,
    pub vars: Seq<SymbolView>,
    pub funcs: Seq<SymbolView>,
    pub mac: bool,
}

/// What generation changes besides the text: the labels.
pub ghost struct GenState {
    pub label: LabelView,
}

pub open spec fn with_label(st: GenState, l: LabelView) -> GenState {
    GenState { label: l, ..st }
}

/// The scope of the locals: one for all functions.
pub open spec fn locals() -> ScopeView {
    ScopeView::Local(Seq::empty())
}

/// A variable: the local of that name, else the global.
pub open spec fn lookup(c: Ctx, v: Seq<char>) -> Option<SymbolView> {
    match find(c.vars, locals(), v) {
        Some(s) => Some(s),
        None => find(c.globals, ScopeView::Global, v),
    }
}

/// Bytes below the frame base of a local's slot: 8 per position
/// (positions count from 1). `None` when it does not fit in `i64`.
pub open spec fn slot(s: SymbolView) -> Option<i64> {
    if s.pos * 8 <= i64::MAX {
        Some((s.pos * 8) as i64)
    } else {
        None
    }
}

pub open spec fn negated(n: i64) -> i64 {
    (-n) as i64
}

/// Stack bytes of a function's frame: 8 per local of the whole table,
/// plus 8.
pub open spec fn frame_size(c: Ctx) -> Option<usize> {
    let n = c.vars.len();
    if n * 8 + 8 <= usize::MAX {
        Some((n * 8 + 8) as usize)
    } else {
        None
    }
}

/// Bytes of an array of `n` elements of 8 bytes, the count taken as an
/// `i64`; `None` when the product does not fit.
pub open spec fn array_bytes(n: usize) -> Option<i64> {
    let num = n as i64;
    if i64::MIN <= num * 8 <= i64::MAX {
        Some((num * 8) as i64)
    } else {
        None
    }
}

/// The symbol of a function: `_` in front on macOS.
pub open spec fn func_symbol(c: Ctx, name: Seq<char>) -> Seq<char> {
    if c.mac {
        "_"@ + name
    } else {
        name
    }
}

/// The registers of the first six arguments.
pub open spec fn arg_reg(i: int) -> Seq<char> {
    if i == 0 {
        "rdi"@
    } else if i == 1 {
        "rsi"@
    } else if i == 2 {
        "rdx"@
    } else if i == 3 {
        "rcx"@
    } else if i == 4 {
        "r8"@
    } else {
        "r9"@
    }
}

pub open spec fn is_pointer(a: AstView) -> bool {
    a matches AstView::Variable(_, s, _) && s == ast::Structure::Pointer
}

/// Offset of the `i`-th parameter's slot: `-8 * (i + 1)`.
pub open spec fn param_offset(i: int) -> i64 {
    (-8 * (i + 1)) as i64
}

/// Stores the parameters from the `i`-th on (at most six) from their
/// registers into their slots.
pub open spec fn func_args_text(v: Seq<AstView>, i: int) -> Seq<char>
    decreases v.len() - i,
{
    if 0 <= i < v.len() && i < 6 {
        (if is_pointer(v[i]) {
            mov_dst_text(arg_reg(i), "rbp"@, param_offset(i))
        } else {
            mov_text(arg_reg(i), "rax"@) + mov_dst_text("eax"@, "rbp"@, param_offset(i))
        }) + func_args_text(v, i + 1)
    } else {
        Seq::empty()
    }
}

/// Moves the evaluated arguments from the `i`-th on (at most six) from the
/// stack into their registers.
pub open spec fn pops_text(v: Seq<AstView>, i: int) -> Seq<char>
    decreases v.len() - i,
{
    if 0 <= i < v.len() && i < 6 {
        (if is_pointer(v[i]) {
            pop_text(arg_reg(i))
        } else {
            pop_text("rax"@) + mov_text("rax"@, arg_reg(i))
        }) + pops_text(v, i + 1)
    } else {
        Seq::empty()
    }
}

/// One 8-byte zeroed slot per global variable; `None` for anything else.
pub open spec fn global_text(v: Seq<AstView>) -> Option<Seq<char>>
    decreases v.len(),
{
    if v.len() == 0 {
        Some(Seq::empty())
    } else {
        match global_text(v.drop_last()) {
            None => None,
            Some(t) => match v.last() {
                AstView::Variable(_, _, n) => Some(t + n + ":\n"@ + "  .zero 8\n"@),
                _ => None,
            },
        }
    }
}

/// Start of a function: section, symbol (exported for `main`), frame.
pub open spec fn func_start_text(c: Ctx, name: Seq<char>, fs: usize) -> Seq<char> {
    (if name == "main"@ {
        "  .text\n.global "@ + func_symbol(c, name) + "\n"@
    } else {
        "  .text\n"@
    }) + func_symbol(c, name) + ":\n"@ + push_text("rbp"@) + mov_text("rsp"@, "rbp"@) + sub_imm_text(
        fs,
        "rsp"@,
    )
}

/// End of a function: frame released, return.
pub open spec fn func_end_text(fs: usize) -> Seq<char> {
    add_imm_text(fs, "rsp"@) + pop_text("rbp"@) + ret_text()
}

/// Pushes a number.
pub open spec fn factor_text(n: i64) -> Seq<char> {
    sub_imm_text(8, "rsp"@) + "  movq $"@ + i64_text(n) + ", (%rsp)\n"@ + mov_imm_dst_text("rsp"@, n, 0)
}

/// Pushes the value of a variable of type `t` and shape `s`.
pub open spec fn var_text(t: ast::TypeView, s: ast::Structure, v: Seq<char>, scope: ScopeView, offset: i64) -> Option<Seq<char>> {
    match t {
        ast::TypeView::Int => match s {
            ast::Structure::Identifier => Some(
                (if scope == ScopeView::Global {
                    mov_from_glb_text("eax"@, v)
                } else {
                    mov_src_text("rbp"@, "eax"@, negated(offset))
                }) + push_text("rax"@),
            ),
            ast::Structure::Pointer => Some(
                if scope == ScopeView::Global {
                    mov_from_glb_text("rax"@, v) + push_text("rax"@)
                } else {
                    mov_src_text("rbp"@, "rax"@, negated(offset)) + push_text("rax"@)
                },
            ),
            ast::Structure::Array(n) => match array_bytes(n) {
                Some(b) => Some(lea_text(b) + push_text("rax"@)),
                None => None,
            },
            ast::Structure::Unknown => Some(Seq::empty()),
        },
        _ => None,
    }
}

/// Pushes the address of a variable.
pub open spec fn lvalue_text(c: Ctx, a: AstView) -> Option<Seq<char>> {
    match a {
        AstView::Variable(_, _, n) => match lookup(c, n) {
            None => None,
            Some(sym) => if sym.scope == ScopeView::Global {
                Some(lea_glb_text(n) + push_text("rax"@))
            } else {
                match slot(sym) {
                    Some(off) => Some(lea_text(off) + push_text("rax"@)),
                    None => None,
                }
            },
        },
        _ => None,
    }
}

/// Whether `+` on these operands is pointer arithmetic.
pub open spec fn plus_pointer(x: AstView) -> bool {
    match x {
        AstView::Variable(_, s, _) => s == ast::Structure::Pointer || s is Array,
        _ => false,
    }
}

/// Whether `-` on these operands is pointer arithmetic.
pub open spec fn minus_pointer(x: AstView, y: AstView) -> bool {
    is_pointer(x) && (y matches AstView::Variable(t, _, _) && t == ast::TypeView::Int || y is Factor)
}

/// Pointer arithmetic on the two values on the stack: the right one scaled
/// by 8, then `op`.
pub open spec fn pointer_tail(op: Seq<char>) -> Seq<char> {
    pop_text("rax"@) + mov_imm_text("rcx"@, 8) + mul_text("rcx"@) + pop_text("rcx"@) + op + push_text("rcx"@)
}

/// `op` on the two values on the stack, the result pushed from `result`.
pub open spec fn operator_tail(op: Seq<char>, result: Seq<char>) -> Seq<char> {
    pop_text("rcx"@) + pop_text("rax"@) + op + push_text(result)
}

/// The instructions of a comparison, shift, bitwise or multiplicative
/// operator.
pub open spec fn operator_text(a: AstView) -> Seq<char> {
    match a {
        AstView::Multiple(..) => multiple_text(),
        AstView::Equal(..) => equal_text(),
        AstView::NotEqual(..) => not_equal_text(),
        AstView::LessThan(..) => less_than_text(),
        AstView::GreaterThan(..) => greater_than_text(),
        AstView::LessThanEqual(..) => less_than_equal_text(),
        AstView::GreaterThanEqual(..) => greater_than_equal_text(),
        AstView::LeftShift(..) => left_shift_text(),
        AstView::RightShift(..) => right_shift_text(),
        AstView::BitAnd(..) => bit_and_text(),
        AstView::BitOr(..) => bit_or_text(),
        AstView::BitXor(..) => bit_xor_text(),
        _ => bit_division_text(),
    }
}

/// What follows the two operands of a binary node.
pub open spec fn binary_tail(a: AstView) -> Seq<char> {
    match a {
        AstView::Plus(x, _) => if plus_pointer(*x) {
            pointer_tail(add_text("rax"@, "rcx"@))
        } else {
            operator_tail(plus_text(), "rax"@)
        },
        AstView::Minus(x, y) => if minus_pointer(*x, *y) {
            pointer_tail(sub_text("rax"@, "rcx"@))
        } else {
            operator_tail(minus_text(), "rax"@)
        },
        AstView::Remainder(..) => operator_tail(operator_text(a), "rdx"@),
        _ => operator_tail(operator_text(a), "rax"@),
    }
}

pub open spec fn is_binary(a: AstView) -> bool {
    a is Plus || a is Minus || a is Multiple || a is Division || a is Remainder || a is Equal
        || a is NotEqual || a is LessThan || a is GreaterThan || a is LessThanEqual
        || a is GreaterThanEqual || a is LeftShift || a is RightShift || a is BitAnd || a is BitOr
        || a is BitXor
}

/// What follows the operand of a unary node.
pub open spec fn unary_tail(a: AstView) -> Seq<char> {
    match a {
        AstView::UnMinus(_) => pop_text("rax"@) + neg_text("eax"@) + push_text("rax"@),
        AstView::Not(_) => pop_text("rax"@) + cmpl_text(0, "eax"@) + set_text("al"@) + movz_text("al"@, "eax"@)
            + push_text("rax"@),
        AstView::BitReverse(_) => pop_text("rax"@) + not_text("eax"@) + push_text("rax"@),
        AstView::Indirect(_) => pop_text("rax"@) + mov_src_text("rax"@, "rcx"@, 0) + push_text("rcx"@),
        _ => Seq::empty(),
    }
}

/// Pops a condition's value and compares it with `f`.
pub open spec fn test_text(f: usize) -> Seq<char> {
    pop_text("rax"@) + cmpl_text(f, "eax"@)
}

/// Stores the value on the stack into variable `n` (of type `t`, shape
/// `s`, symbol `sym` at `off`), leaving it on the stack.
pub open spec fn store_text(t: ast::TypeView, s: ast::Structure, n: Seq<char>, sym: SymbolView, off: i64) -> Option<Seq<char>> {
    if t == ast::TypeView::Int && s == ast::Structure::Identifier {
        Some(
            pop_text("rax"@) + (if sym.scope == ScopeView::Global {
                mov_to_glb_text("eax"@, n)
            } else {
                mov_dst_text("eax"@, "rbp"@, negated(off))
            }) + push_text("rax"@),
        )
    } else if t == ast::TypeView::Int && s == ast::Structure::Pointer {
        Some(
            pop_text("rax"@) + (if sym.scope == ScopeView::Global {
                mov_to_glb_text("rax"@, n)
            } else {
                mov_dst_text("rax"@, "rbp"@, negated(off))
            }) + push_text("rax"@),
        )
    } else {
        None
    }
}

/// The assembly of node `a` in state `st`: its text and the state after.
/// `None` where generation fails: a node that cannot be generated here, an
/// unknown variable or function, `continue` or `break` outside a loop, an
/// unsupported type, or a number that overflows.
pub open spec fn g(c: Ctx, st: GenState, a: AstView) -> Option<(Seq<char>, GenState)>
    decreases a, 1int,
{
    match a {
        AstView::Global(..) => g_global(c, st, a),
        AstView::FuncDef(..) => g_func_def(c, st, a),
        AstView::Statement(..) => g_statement(c, st, a),
        AstView::While(..) => g_while(c, st, a),
        AstView::Do(..) => g_do(c, st, a),
        AstView::If(..) => g_if(c, st, a),
        AstView::For(..) => g_for(c, st, a),
        AstView::Continue => g_continue(c, st, a),
        AstView::Break => g_break(c, st, a),
        AstView::Return(..) => g_return(c, st, a),
        AstView::Factor(..) => g_factor(c, st, a),
        AstView::LogicalAnd(..) => g_logical_and(c, st, a),
        AstView::LogicalOr(..) => g_logical_or(c, st, a),
        AstView::Condition(..) => g_condition(c, st, a),
        AstView::UnPlus(..) | AstView::UnMinus(..) | AstView::Not(..) | AstView::BitReverse(..)
        | AstView::Indirect(..) => g_unary(c, st, a),
        AstView::Assign(..) => g_assign(c, st, a),
        AstView::Variable(..) => g_variable(c, st, a),
        AstView::CallFunc(..) => g_call_func(c, st, a),
        AstView::PostInc(..) => g_post_inc(c, st, a),
        AstView::PostDec(..) => g_post_dec(c, st, a),
        AstView::Plus(..) | AstView::Minus(..) | AstView::Multiple(..) | AstView::Division(..)
        | AstView::Remainder(..) | AstView::Equal(..) | AstView::NotEqual(..) | AstView::LessThan(..)
        | AstView::GreaterThan(..) | AstView::LessThanEqual(..) | AstView::GreaterThanEqual(..)
        | AstView::LeftShift(..) | AstView::RightShift(..) | AstView::BitAnd(..) | AstView::BitOr(..)
        | AstView::BitXor(..) => g_binary(c, st, a),
        AstView::Address(..) => g_address(c, st, a),
        _ => None,
    }
}

/// Globals: a data section with one slot each.
#[verifier::opaque]
pub open spec fn g_global(c: Ctx, st: GenState, a: AstView) -> Option<(Seq<char>, GenState)>
    decreases a, 0int,
{
    match a {
        AstView::Global(v) => match global_text(v) {
            Some(t) => Some(("  .data\n"@ + t, st)),
            None => None,
        },
        _ => None,
    }
}

/// A function: start, parameters, body, return label, end.
#[verifier::opaque]
pub open spec fn g_func_def(c: Ctx, st: GenState, a: AstView) -> Option<(Seq<char>, GenState)>
    decreases a, 0int,
{
    match a {
        AstView::FuncDef(_, name, x, y) => match next_return_label_of(st.label) {
            None => None,
            Some((rl, l1)) => match frame_size(c) {
                None => None,
                Some(fs) => match *x {
                    AstView::Argment(args) => match *y {
                        AstView::Statement(body) => match g_stmts(c, GenState { label: l1 }, body) {
                            None => None,
                            Some((ob, s2)) => Some((
                                func_start_text(c, name, fs) + func_args_text(args, 0) + ob + label_text(rl)
                                    + func_end_text(fs),
                                s2,
                            )),
                        },
                        _ => None,
                    },
                    _ => None,
                },
            },
        },
        _ => None,
    }
}

/// A block.
#[verifier::opaque]
pub open spec fn g_statement(c: Ctx, st: GenState, a: AstView) -> Option<(Seq<char>, GenState)>
    decreases a, 0int,
{
    match a {
        AstView::Statement(v) => g_stmts(c, st, v),
        _ => None,
    }
}

/// `while`: `continue` jumps to the test, `break` past the loop.
#[verifier::opaque]
pub open spec fn g_while(c: Ctx, st: GenState, a: AstView) -> Option<(Seq<char>, GenState)>
    decreases a, 0int,
{
    match a {
        AstView::While(x, y) => match next_label_of(st.label) {
            None => None,
            Some((lb, l1)) => match next_label_of(l1) {
                None => None,
                Some((le, l2)) => match g(c, with_label(st, push_break_of(push_continue_of(l2, lb), le)), *x) {
                    None => None,
                    Some((ox, s3)) => match g(c, s3, *y) {
                        None => None,
                        Some((oy, s4)) => Some((
                            label_text(lb) + ox + test_text(0) + je_text(le) + oy + jmp_text(lb) + label_text(le),
                            with_label(s4, remove_break_of(remove_continue_of(s4.label, lb), le)),
                        )),
                    },
                },
            },
        },
        _ => None,
    }
}

/// `do`-`while`: `continue` jumps to the test, `break` past the loop.
#[verifier::opaque]
pub open spec fn g_do(c: Ctx, st: GenState, a: AstView) -> Option<(Seq<char>, GenState)>
    decreases a, 0int,
{
    match a {
        AstView::Do(x, y) => match next_label_of(st.label) {
            None => None,
            Some((lb, l1)) => match next_label_of(l1) {
                None => None,
                Some((lc, l2)) => match next_label_of(l2) {
                    None => None,
                    Some((le, l3)) => match g(c, with_label(st, push_break_of(push_continue_of(l3, lc), le)), *x) {
                        None => None,
                        Some((ox, s4)) => match g(c, s4, *y) {
                            None => None,
                            Some((oy, s5)) => Some((
                                label_text(lb) + ox + label_text(lc) + oy + test_text(0) + jne_text(lb) + label_text(le),
                                with_label(s5, remove_break_of(remove_continue_of(s5.label, lc), le)),
                            )),
                        },
                    },
                },
            },
        },
        _ => None,
    }
}

/// `if`, with or without `else`.
#[verifier::opaque]
pub open spec fn g_if(c: Ctx, st: GenState, a: AstView) -> Option<(Seq<char>, GenState)>
    decreases a, 0int,
{
    match a {
        AstView::If(x, y, z) => match next_label_of(st.label) {
            None => None,
            Some((le, l1)) => match g(c, with_label(st, l1), *x) {
                None => None,
                Some((ox, s2)) => match z {
                    Some(e) => match next_label_of(s2.label) {
                        None => None,
                        Some((li, l3)) => match g(c, with_label(s2, l3), *e) {
                            None => None,
                            Some((oe, s4)) => match g(c, s4, *y) {
                                None => None,
                                Some((oy, s5)) => Some((
                                    ox + test_text(1) + je_text(li) + oe + jmp_text(le) + label_text(li) + oy
                                        + jmp_text(le) + label_text(le),
                                    s5,
                                )),
                            },
                        },
                    },
                    None => match g(c, s2, *y) {
                        None => None,
                        Some((oy, s3)) => Some((ox + test_text(1) + jne_text(le) + oy + label_text(le), s3)),
                    },
                },
            },
        },
        _ => None,
    }
}

/// `for`: `continue` jumps to the update, `break` past the loop.
#[verifier::opaque]
pub open spec fn g_for(c: Ctx, st: GenState, a: AstView) -> Option<(Seq<char>, GenState)>
    decreases a, 0int,
{
    match a {
        AstView::For(x, y, z, w) => match next_label_of(st.label) {
            None => None,
            Some((lb, l1)) => match next_label_of(l1) {
                None => None,
                Some((lc, l2)) => match next_label_of(l2) {
                    None => None,
                    Some((le, l3)) => {
                        let s3 = with_label(st, push_break_of(push_continue_of(l3, lc), le));
                        let init = match x {
                            Some(e) => match g(c, s3, *e) {
                                Some((o, s)) => Some((o + pop_text("rax"@), s)),
                                None => None,
                            },
                            None => Some((Seq::empty(), s3)),
                        };
                        match init {
                            None => None,
                            Some((oi, s4)) => {
                                let cond = match y {
                                    Some(e) => match g(c, s4, *e) {
                                        Some((o, s)) => Some((o + test_text(0) + je_text(le), s)),
                                        None => None,
                                    },
                                    None => Some((Seq::empty(), s4)),
                                };
                                match cond {
                                    None => None,
                                    Some((oc, s5)) => match g(c, s5, *w) {
                                        None => None,
                                        Some((ob, s6)) => {
                                            let upd = match z {
                                                Some(e) => match g(c, s6, *e) {
                                                    Some((o, s)) => Some((o + pop_text("rax"@), s)),
                                                    None => None,
                                                },
                                                None => Some((Seq::empty(), s6)),
                                            };
                                            match upd {
                                                None => None,
                                                Some((ou, s7)) => Some((
                                                    oi + label_text(lb) + oc + ob + label_text(lc) + ou + jmp_text(lb)
                                                        + label_text(le),
                                                    with_label(s7, remove_break_of(remove_continue_of(s7.label, lc), le)),
                                                )),
                                            }
                                        },
                                    },
                                }
                            },
                        }
                    },
                },
            },
        },
        _ => None,
    }
}

/// `continue`: a jump to the innermost `continue` label, taken off its stack.
#[verifier::opaque]
pub open spec fn g_continue(c: Ctx, st: GenState, a: AstView) -> Option<(Seq<char>, GenState)>
    decreases a, 0int,
{
    match a {
        AstView::Continue => match pop_continue_of(st.label) {
            (Some(no), l1) => Some((jmp_text(no), with_label(st, l1))),
            (None, _) => None,
        },
        _ => None,
    }
}

/// `break`: a jump to the innermost `break` label, taken off its stack.
#[verifier::opaque]
pub open spec fn g_break(c: Ctx, st: GenState, a: AstView) -> Option<(Seq<char>, GenState)>
    decreases a, 0int,
{
    match a {
        AstView::Break => match pop_break_of(st.label) {
            (Some(no), l1) => Some((jmp_text(no), with_label(st, l1))),
            (None, _) => None,
        },
        _ => None,
    }
}

/// `return`: the value into `%rax`, a jump to the return label.
#[verifier::opaque]
pub open spec fn g_return(c: Ctx, st: GenState, a: AstView) -> Option<(Seq<char>, GenState)>
    decreases a, 0int,
{
    match a {
        AstView::Return(x) => match g(c, st, *x) {
            None => None,
            Some((o, s1)) => Some((
                o + (if is_expr_view(*x) { pop_text("rax"@) } else { Seq::empty() }) + jmp_text(s1.label.return_label),
                s1,
            )),
        },
        _ => None,
    }
}

/// A number.
#[verifier::opaque]
pub open spec fn g_factor(c: Ctx, st: GenState, a: AstView) -> Option<(Seq<char>, GenState)>
    decreases a, 0int,
{
    match a {
        AstView::Factor(n) => Some((factor_text(n), st)),
        _ => None,
    }
}

/// `&&`: 1 when both operands are not 0, else 0.
#[verifier::opaque]
pub open spec fn g_logical_and(c: Ctx, st: GenState, a: AstView) -> Option<(Seq<char>, GenState)>
    decreases a, 0int,
{
    match a {
        AstView::LogicalAnd(x, y) => match next_label_of(st.label) {
            None => None,
            Some((lf, l1)) => match next_label_of(l1) {
                None => None,
                Some((le, l2)) => match g(c, with_label(st, l2), *x) {
                    None => None,
                    Some((ox, s3)) => match g(c, s3, *y) {
                        None => None,
                        Some((oy, s4)) => Some((
                            ox + test_text(0) + je_text(lf) + oy + test_text(0) + je_text(lf) + mov_imm_text("eax"@, 1)
                                + jmp_text(le) + label_text(lf) + mov_imm_text("eax"@, 0) + label_text(le) + push_text(
                                "rax"@,
                            ),
                            s4,
                        )),
                    },
                },
            },
        },
        _ => None,
    }
}

/// `||`: 1 when an operand is not 0, else 0.
#[verifier::opaque]
pub open spec fn g_logical_or(c: Ctx, st: GenState, a: AstView) -> Option<(Seq<char>, GenState)>
    decreases a, 0int,
{
    match a {
        AstView::LogicalOr(x, y) => match next_label_of(st.label) {
            None => None,
            Some((lt, l1)) => match next_label_of(l1) {
                None => None,
                Some((le, l2)) => match g(c, with_label(st, l2), *x) {
                    None => None,
                    Some((ox, s3)) => match g(c, s3, *y) {
                        None => None,
                        Some((oy, s4)) => Some((
                            ox + test_text(0) + jne_text(lt) + oy + test_text(0) + jne_text(lt) + mov_imm_text("eax"@, 0)
                                + jmp_text(le) + label_text(lt) + mov_imm_text("eax"@, 1) + label_text(le) + push_text(
                                "rax"@,
                            ),
                            s4,
                        )),
                    },
                },
            },
        },
        _ => None,
    }
}

/// `? :`.
#[verifier::opaque]
pub open spec fn g_condition(c: Ctx, st: GenState, a: AstView) -> Option<(Seq<char>, GenState)>
    decreases a, 0int,
{
    match a {
        AstView::Condition(x, y, z) => match next_label_of(st.label) {
            None => None,
            Some((lf, l1)) => match next_label_of(l1) {
                None => None,
                Some((le, l2)) => match g(c, with_label(st, l2), *x) {
                    None => None,
                    Some((ox, s3)) => match g(c, s3, *y) {
                        None => None,
                        Some((oy, s4)) => match g(c, s4, *z) {
                            None => None,
                            Some((oz, s5)) => Some((
                                ox + test_text(0) + je_text(lf) + oy + jmp_text(le) + label_text(lf) + oz + label_text(le),
                                s5,
                            )),
                        },
                    },
                },
            },
        },
        _ => None,
    }
}

/// Unary operators and `*`.
#[verifier::opaque]
pub open spec fn g_unary(c: Ctx, st: GenState, a: AstView) -> Option<(Seq<char>, GenState)>
    decreases a, 0int,
{
    match a {
        AstView::UnPlus(x) | AstView::UnMinus(x) | AstView::Not(x) | AstView::BitReverse(x) | AstView::Indirect(x) =>
            match g(c, st, *x) {
                None => None,
                Some((o, s1)) => Some((o + unary_tail(a), s1)),
            },
        _ => None,
    }
}

/// `=`: into a variable, through a pointer, or just the value.
#[verifier::opaque]
pub open spec fn g_assign(c: Ctx, st: GenState, a: AstView) -> Option<(Seq<char>, GenState)>
    decreases a, 0int,
{
    match a {
        AstView::Assign(x, y) => match *x {
            AstView::Variable(t, s, n) => match lookup(c, n) {
                None => None,
                Some(sym) => match slot(sym) {
                    None => None,
                    Some(off) => match g(c, st, *y) {
                        None => None,
                        Some((oy, s1)) => match store_text(t, s, n, sym, off) {
                            None => None,
                            Some(ot) => Some((oy + ot, s1)),
                        },
                    },
                },
            },
            AstView::Indirect(z) => match g(c, st, *z) {
                None => None,
                Some((oz, s1)) => match g(c, s1, *y) {
                    None => None,
                    Some((oy, s2)) => Some((
                        oz + oy + pop_text("rax"@) + pop_text("rcx"@) + mov_dst_text("rax"@, "rcx"@, 0) + push_text("rax"@),
                        s2,
                    )),
                },
            },
            _ => g(c, st, *y),
        },
        _ => None,
    }
}

/// The value of a variable.
#[verifier::opaque]
pub open spec fn g_variable(c: Ctx, st: GenState, a: AstView) -> Option<(Seq<char>, GenState)>
    decreases a, 0int,
{
    match a {
        AstView::Variable(t, s, n) => match lookup(c, n) {
            None => None,
            Some(sym) => match slot(sym) {
                None => None,
                Some(off) => match var_text(t, s, n, sym.scope, off) {
                    None => None,
                    Some(o) => Some((o, st)),
                },
            },
        },
        _ => None,
    }
}

/// A call: arguments last first, the first six in registers.
#[verifier::opaque]
pub open spec fn g_call_func(c: Ctx, st: GenState, a: AstView) -> Option<(Seq<char>, GenState)>
    decreases a, 0int,
{
    match a {
        AstView::CallFunc(x, y) => match *x {
            AstView::Variable(_, _, n) => if find(c.funcs, ScopeView::Func, n) is Some {
                match *y {
                    AstView::Argment(v) => match g_args_rev(c, st, v) {
                        None => None,
                        Some((o, s1)) => Some((
                            o + pops_text(v, 0) + call_text(func_symbol(c, n)) + push_text("rax"@),
                            s1,
                        )),
                    },
                    _ => None,
                }
            } else {
                None
            },
            _ => None,
        },
        _ => None,
    }
}

/// `++` after a variable.
#[verifier::opaque]
pub open spec fn g_post_inc(c: Ctx, st: GenState, a: AstView) -> Option<(Seq<char>, GenState)>
    decreases a, 0int,
{
    match a {
        AstView::PostInc(x) => match lvalue_text(c, *x) {
            None => None,
            Some(o) => Some((
                o + pop_text("rcx"@) + mov_src_text("rcx"@, "eax"@, 0) + push_text("rax"@) + add_imm_text(1, "eax"@)
                    + mov_dst_text("eax"@, "rcx"@, 0),
                st,
            )),
        },
        _ => None,
    }
}

/// `--` after a variable.
#[verifier::opaque]
pub open spec fn g_post_dec(c: Ctx, st: GenState, a: AstView) -> Option<(Seq<char>, GenState)>
    decreases a, 0int,
{
    match a {
        AstView::PostDec(x) => match lvalue_text(c, *x) {
            None => None,
            Some(o) => Some((
                o + pop_text("rcx"@) + mov_src_text("rcx"@, "eax"@, 0) + push_text("rax"@) + sub_imm_text(1, "eax"@)
                    + mov_dst_text("eax"@, "rcx"@, 0),
                st,
            )),
        },
        _ => None,
    }
}

/// Binary operators: both operands, then the operation.
#[verifier::opaque]
pub open spec fn g_binary(c: Ctx, st: GenState, a: AstView) -> Option<(Seq<char>, GenState)>
    decreases a, 0int,
{
    match a {
        AstView::Plus(x, y) | AstView::Minus(x, y) | AstView::Multiple(x, y) | AstView::Division(x, y)
        | AstView::Remainder(x, y) | AstView::Equal(x, y) | AstView::NotEqual(x, y) | AstView::LessThan(x, y)
        | AstView::GreaterThan(x, y) | AstView::LessThanEqual(x, y) | AstView::GreaterThanEqual(x, y)
        | AstView::LeftShift(x, y) | AstView::RightShift(x, y) | AstView::BitAnd(x, y) | AstView::BitOr(x, y)
        | AstView::BitXor(x, y) => match g(c, st, *x) {
            None => None,
            Some((ox, s1)) => match g(c, s1, *y) {
                None => None,
                Some((oy, s2)) => Some((ox + oy + binary_tail(a), s2)),
            },
        },
        _ => None,
    }
}

/// `&` of a local variable.
#[verifier::opaque]
pub open spec fn g_address(c: Ctx, st: GenState, a: AstView) -> Option<(Seq<char>, GenState)>
    decreases a, 0int,
{
    match a {
        AstView::Address(x) => match *x {
            AstView::Variable(_, _, n) => match find(c.vars, locals(), n) {
                None => None,
                Some(sym) => match slot(sym) {
                    None => None,
                    Some(off) => Some((lea_text(off) + push_text("rax"@), st)),
                },
            },
            _ => None,
        },
        _ => None,
    }
}
/// The statements of a block in order; the value an expression leaves on
/// the stack is popped.
pub open spec fn g_stmts(c: Ctx, st: GenState, v: Seq<AstView>) -> Option<(Seq<char>, GenState)>
    decreases v, 0int,
{
    if v.len() == 0 {
        Some((Seq::empty(), st))
    } else {
        match g(c, st, v[0]) {
            None => None,
            Some((o1, s1)) => match g_stmts(c, s1, v.drop_first()) {
                None => None,
                Some((o2, s2)) => Some((
                    o1 + (if is_expr_view(v[0]) { pop_text("rax"@) } else { Seq::empty() }) + o2,
                    s2,
                )),
            },
        }
    }
}

/// The arguments of a call, last first.
pub open spec fn g_args_rev(c: Ctx, st: GenState, v: Seq<AstView>) -> Option<(Seq<char>, GenState)>
    decreases v, 0int,
{
    if v.len() == 0 {
        Some((Seq::empty(), st))
    } else {
        match g(c, st, v.last()) {
            None => None,
            Some((o1, s1)) => match g_args_rev(c, s1, v.drop_last()) {
                None => None,
                Some((o2, s2)) => Some((o1 + o2, s2)),
            },
        }
    }
}

/// The items of a tree in order.
pub open spec fn g_items(c: Ctx, st: GenState, v: Seq<AstView>) -> Option<(Seq<char>, GenState)>
    decreases v.len(),
{
    if v.len() == 0 {
        Some((Seq::empty(), st))
    } else {
        match g(c, st, v[0]) {
            None => None,
            Some((o1, s1)) => match g_items(c, s1, v.drop_first()) {
                None => None,
                Some((o2, s2)) => Some((o1 + o2, s2)),
            },
        }
    }
}


/// The label counter after generation is no lower than before it.
pub open spec fn counter_kept(st: GenState, r: Option<(Seq<char>, GenState)>) -> bool {
    r matches Some((_, s)) ==> s.label.label_no >= st.label.label_no
}

/// Generation never takes the label counter back: a label handed out while
/// generating one node is never handed out again for a later one.
#[verifier::spinoff_prover]
#[verifier::rlimit(50)]
pub proof fn law_counter_never_decreases(c: Ctx, st: GenState, a: AstView)
    ensures
        counter_kept(st, g(c, st, a)),
    decreases a, 1int,
{
    match a {
        AstView::Global(..) => lemma_counter_global(c, st, a),
        AstView::FuncDef(..) => lemma_counter_func_def(c, st, a),
        AstView::Statement(..) => lemma_counter_statement(c, st, a),
        AstView::While(..) => lemma_counter_while(c, st, a),
        AstView::Do(..) => lemma_counter_do(c, st, a),
        AstView::If(..) => lemma_counter_if(c, st, a),
        AstView::For(..) => lemma_counter_for(c, st, a),
        AstView::Continue => lemma_counter_continue(c, st, a),
        AstView::Break => lemma_counter_break(c, st, a),
        AstView::Return(..) => lemma_counter_return(c, st, a),
        AstView::Factor(..) => lemma_counter_factor(c, st, a),
        AstView::LogicalAnd(..) => lemma_counter_logical_and(c, st, a),
        AstView::LogicalOr(..) => lemma_counter_logical_or(c, st, a),
        AstView::Condition(..) => lemma_counter_condition(c, st, a),
        AstView::UnPlus(..) | AstView::UnMinus(..) | AstView::Not(..) | AstView::BitReverse(..) | AstView::Indirect(..) => lemma_counter_unary(c, st, a),
        AstView::Assign(..) => lemma_counter_assign(c, st, a),
        AstView::Variable(..) => lemma_counter_variable(c, st, a),
        AstView::CallFunc(..) => lemma_counter_call_func(c, st, a),
        AstView::PostInc(..) => lemma_counter_post_inc(c, st, a),
        AstView::PostDec(..) => lemma_counter_post_dec(c, st, a),
        AstView::Plus(..) | AstView::Minus(..) | AstView::Multiple(..) | AstView::Division(..)
        | AstView::Remainder(..) | AstView::Equal(..) | AstView::NotEqual(..) | AstView::LessThan(..)
        | AstView::GreaterThan(..) | AstView::LessThanEqual(..) | AstView::GreaterThanEqual(..)
        | AstView::LeftShift(..) | AstView::RightShift(..) | AstView::BitAnd(..) | AstView::BitOr(..)
        | AstView::BitXor(..) => lemma_counter_binary(c, st, a),
        AstView::Address(..) => lemma_counter_address(c, st, a),
        _ => {},
    }
}

proof fn lemma_counter_global(c: Ctx, st: GenState, a: AstView)
    ensures
        counter_kept(st, g_global(c, st, a)),
    decreases a, 0int,
{
    match a {
        AstView::Global(..) => {
            reveal(g_global);
        },
        _ => reveal(g_global),
    }
}

proof fn lemma_counter_func_def(c: Ctx, st: GenState, a: AstView)
    ensures
        counter_kept(st, g_func_def(c, st, a)),
    decreases a, 0int,
{
    match a {
        AstView::FuncDef(_, name, x, y) => {
            reveal(g_func_def);
            if let Some((rl, l1)) = next_return_label_of(st.label) {
                if let AstView::Statement(body) = *y {
                    assert(decreases_to!(a => body)) by {
                        assert(decreases_to!(a => *y));
                    }
                    law_counter_never_decreases_block(c, GenState { label: l1 }, body);
                }
            }
        },
        _ => reveal(g_func_def),
    }
}

proof fn lemma_counter_statement(c: Ctx, st: GenState, a: AstView)
    ensures
        counter_kept(st, g_statement(c, st, a)),
    decreases a, 0int,
{
    match a {
        AstView::Statement(v) => {
            reveal(g_statement);
            law_counter_never_decreases_block(c, st, v);
        },
        _ => reveal(g_statement),
    }
}

proof fn lemma_counter_while(c: Ctx, st: GenState, a: AstView)
    ensures
        counter_kept(st, g_while(c, st, a)),
    decreases a, 0int,
{
    match a {
        AstView::While(x, y) => {
            reveal(g_while);
            if let Some((lb, l1)) = next_label_of(st.label) {
                if let Some((le, l2)) = next_label_of(l1) {
                    let s2 = with_label(st, push_break_of(push_continue_of(l2, lb), le));
                    law_counter_never_decreases(c, s2, *x);
                    if let Some((_, s3)) = g(c, s2, *x) {
                        law_counter_never_decreases(c, s3, *y);
                    }
                }
            }
        },
        _ => reveal(g_while),
    }
}

proof fn lemma_counter_do(c: Ctx, st: GenState, a: AstView)
    ensures
        counter_kept(st, g_do(c, st, a)),
    decreases a, 0int,
{
    match a {
        AstView::Do(x, y) => {
            reveal(g_do);
            if let Some((lb, l1)) = next_label_of(st.label) {
                if let Some((lc, l2)) = next_label_of(l1) {
                    if let Some((le, l3)) = next_label_of(l2) {
                        let s3 = with_label(st, push_break_of(push_continue_of(l3, lc), le));
                        law_counter_never_decreases(c, s3, *x);
                        if let Some((_, s4)) = g(c, s3, *x) {
                            law_counter_never_decreases(c, s4, *y);
                        }
                    }
                }
            }
        },
        _ => reveal(g_do),
    }
}

proof fn lemma_counter_if(c: Ctx, st: GenState, a: AstView)
    ensures
        counter_kept(st, g_if(c, st, a)),
    decreases a, 0int,
{
    match a {
        AstView::If(x, y, z) => {
            reveal(g_if);
            if let Some((le, l1)) = next_label_of(st.label) {
                law_counter_never_decreases(c, with_label(st, l1), *x);
                if let Some((_, s2)) = g(c, with_label(st, l1), *x) {
                    match z {
                        Some(e) => {
                            if let Some((li, l3)) = next_label_of(s2.label) {
                                assert(decreases_to!(a => *e)) by {
                                    assert(decreases_to!(a => z));
                                }
                                law_counter_never_decreases(c, with_label(s2, l3), *e);
                                if let Some((_, s4)) = g(c, with_label(s2, l3), *e) {
                                    law_counter_never_decreases(c, s4, *y);
                                }
                            }
                        },
                        None => law_counter_never_decreases(c, s2, *y),
                    }
                }
            }
        },
        _ => reveal(g_if),
    }
}

proof fn lemma_counter_for(c: Ctx, st: GenState, a: AstView)
    ensures
        counter_kept(st, g_for(c, st, a)),
    decreases a, 0int,
{
    match a {
        AstView::For(x, y, z, w) => {
            reveal(g_for);
            if let Some((lb, l1)) = next_label_of(st.label) {
                if let Some((lc, l2)) = next_label_of(l1) {
                    if let Some((le, l3)) = next_label_of(l2) {
                        let s3 = with_label(st, push_break_of(push_continue_of(l3, lc), le));
                        let init = match x {
                            Some(e) => match g(c, s3, *e) {
                                Some((o, s)) => Some((o + pop_text("rax"@), s)),
                                None => None,
                            },
                            None => Some((Seq::empty(), s3)),
                        };
                        if let Some(e) = x {
                            assert(decreases_to!(a => *e)) by {
                                assert(decreases_to!(a => x));
                            }
                            law_counter_never_decreases(c, s3, *e);
                        }
                        if let Some((_, s4)) = init {
                            let cond = match y {
                                Some(e) => match g(c, s4, *e) {
                                    Some((o, s)) => Some((o + test_text(0) + je_text(le), s)),
                                    None => None,
                                },
                                None => Some((Seq::empty(), s4)),
                            };
                            if let Some(e) = y {
                                assert(decreases_to!(a => *e)) by {
                                    assert(decreases_to!(a => y));
                                }
                                law_counter_never_decreases(c, s4, *e);
                            }
                            if let Some((_, s5)) = cond {
                                law_counter_never_decreases(c, s5, *w);
                                if let Some((_, s6)) = g(c, s5, *w) {
                                    if let Some(e) = z {
                                        assert(decreases_to!(a => *e)) by {
                                            assert(decreases_to!(a => z));
                                        }
                                        law_counter_never_decreases(c, s6, *e);
                                    }
                                }
                            }
                        }
                    }
                }
            }
        },
        _ => reveal(g_for),
    }
}

proof fn lemma_counter_continue(c: Ctx, st: GenState, a: AstView)
    ensures
        counter_kept(st, g_continue(c, st, a)),
    decreases a, 0int,
{
    match a {
        AstView::Continue => {
            reveal(g_continue);
        },
        _ => reveal(g_continue),
    }
}

proof fn lemma_counter_break(c: Ctx, st: GenState, a: AstView)
    ensures
        counter_kept(st, g_break(c, st, a)),
    decreases a, 0int,
{
    match a {
        AstView::Break => {
            reveal(g_break);
        },
        _ => reveal(g_break),
    }
}

proof fn lemma_counter_return(c: Ctx, st: GenState, a: AstView)
    ensures
        counter_kept(st, g_return(c, st, a)),
    decreases a, 0int,
{
    match a {
        AstView::Return(x) => {
            reveal(g_return);
            law_counter_never_decreases(c, st, *x);
        },
        _ => reveal(g_return),
    }
}

proof fn lemma_counter_factor(c: Ctx, st: GenState, a: AstView)
    ensures
        counter_kept(st, g_factor(c, st, a)),
    decreases a, 0int,
{
    match a {
        AstView::Factor(..) => {
            reveal(g_factor);
        },
        _ => reveal(g_factor),
    }
}

proof fn lemma_counter_logical_and(c: Ctx, st: GenState, a: AstView)
    ensures
        counter_kept(st, g_logical_and(c, st, a)),
    decreases a, 0int,
{
    match a {
        AstView::LogicalAnd(x, y) => {
            reveal(g_logical_and);
            if let Some((lf, l1)) = next_label_of(st.label) {
                if let Some((le, l2)) = next_label_of(l1) {
                    law_counter_never_decreases(c, with_label(st, l2), *x);
                    if let Some((_, s3)) = g(c, with_label(st, l2), *x) {
                        law_counter_never_decreases(c, s3, *y);
                    }
                }
            }
        },
        _ => reveal(g_logical_and),
    }
}

proof fn lemma_counter_logical_or(c: Ctx, st: GenState, a: AstView)
    ensures
        counter_kept(st, g_logical_or(c, st, a)),
    decreases a, 0int,
{
    match a {
        AstView::LogicalOr(x, y) => {
            reveal(g_logical_or);
            if let Some((lt, l1)) = next_label_of(st.label) {
                if let Some((le, l2)) = next_label_of(l1) {
                    law_counter_never_decreases(c, with_label(st, l2), *x);
                    if let Some((_, s3)) = g(c, with_label(st, l2), *x) {
                        law_counter_never_decreases(c, s3, *y);
                    }
                }
            }
        },
        _ => reveal(g_logical_or),
    }
}

proof fn lemma_counter_condition(c: Ctx, st: GenState, a: AstView)
    ensures
        counter_kept(st, g_condition(c, st, a)),
    decreases a, 0int,
{
    match a {
        AstView::Condition(x, y, z) => {
            reveal(g_condition);
            if let Some((lf, l1)) = next_label_of(st.label) {
                if let Some((le, l2)) = next_label_of(l1) {
                    law_counter_never_decreases(c, with_label(st, l2), *x);
                    if let Some((_, s3)) = g(c, with_label(st, l2), *x) {
                        law_counter_never_decreases(c, s3, *y);
                        if let Some((_, s4)) = g(c, s3, *y) {
                            law_counter_never_decreases(c, s4, *z);
                        }
                    }
                }
            }
        },
        _ => reveal(g_condition),
    }
}

proof fn lemma_counter_unary(c: Ctx, st: GenState, a: AstView)
    ensures
        counter_kept(st, g_unary(c, st, a)),
    decreases a, 0int,
{
    match a {
        AstView::UnPlus(x) | AstView::UnMinus(x) | AstView::Not(x) | AstView::BitReverse(x) | AstView::Indirect(x) => {
            reveal(g_unary);
            law_counter_never_decreases(c, st, *x);
        },
        _ => reveal(g_unary),
    }
}

proof fn lemma_counter_assign(c: Ctx, st: GenState, a: AstView)
    ensures
        counter_kept(st, g_assign(c, st, a)),
    decreases a, 0int,
{
    match a {
        AstView::Assign(x, y) => {
            reveal(g_assign);
            match *x {
                AstView::Indirect(z) => {
                    assert(decreases_to!(a => *z)) by {
                        assert(decreases_to!(a => *x));
                    }
                    law_counter_never_decreases(c, st, *z);
                    if let Some((_, s1)) = g(c, st, *z) {
                        law_counter_never_decreases(c, s1, *y);
                    }
                },
                _ => law_counter_never_decreases(c, st, *y),
            }
        },
        _ => reveal(g_assign),
    }
}

proof fn lemma_counter_variable(c: Ctx, st: GenState, a: AstView)
    ensures
        counter_kept(st, g_variable(c, st, a)),
    decreases a, 0int,
{
    match a {
        AstView::Variable(..) => {
            reveal(g_variable);
        },
        _ => reveal(g_variable),
    }
}

proof fn lemma_counter_call_func(c: Ctx, st: GenState, a: AstView)
    ensures
        counter_kept(st, g_call_func(c, st, a)),
    decreases a, 0int,
{
    match a {
        AstView::CallFunc(x, y) => {
            reveal(g_call_func);
            if let AstView::Argment(v) = *y {
                assert(decreases_to!(a => v)) by {
                    assert(decreases_to!(a => *y));
                }
                law_counter_never_decreases_args(c, st, v);
            }
        },
        _ => reveal(g_call_func),
    }
}

proof fn lemma_counter_post_inc(c: Ctx, st: GenState, a: AstView)
    ensures
        counter_kept(st, g_post_inc(c, st, a)),
    decreases a, 0int,
{
    match a {
        AstView::PostInc(..) => {
            reveal(g_post_inc);
        },
        _ => reveal(g_post_inc),
    }
}

proof fn lemma_counter_post_dec(c: Ctx, st: GenState, a: AstView)
    ensures
        counter_kept(st, g_post_dec(c, st, a)),
    decreases a, 0int,
{
    match a {
        AstView::PostDec(..) => {
            reveal(g_post_dec);
        },
        _ => reveal(g_post_dec),
    }
}

proof fn lemma_counter_binary(c: Ctx, st: GenState, a: AstView)
    ensures
        counter_kept(st, g_binary(c, st, a)),
    decreases a, 0int,
{
    match a {
        AstView::Plus(x, y) | AstView::Minus(x, y) | AstView::Multiple(x, y) | AstView::Division(x, y)
        | AstView::Remainder(x, y) | AstView::Equal(x, y) | AstView::NotEqual(x, y) | AstView::LessThan(x, y)
        | AstView::GreaterThan(x, y) | AstView::LessThanEqual(x, y) | AstView::GreaterThanEqual(x, y)
        | AstView::LeftShift(x, y) | AstView::RightShift(x, y) | AstView::BitAnd(x, y) | AstView::BitOr(x, y)
        | AstView::BitXor(x, y) => {
        reveal(g_binary);
        law_counter_never_decreases(c, st, *x);
        if let Some((_, s1)) = g(c, st, *x) {
            law_counter_never_decreases(c, s1, *y);
        }
        },
        _ => reveal(g_binary),
    }
}

proof fn lemma_counter_address(c: Ctx, st: GenState, a: AstView)
    ensures
        counter_kept(st, g_address(c, st, a)),
    decreases a, 0int,
{
    match a {
        AstView::Address(..) => {
            reveal(g_address);
        },
        _ => reveal(g_address),
    }
}

/// The label counter is kept by the statements of a block.
pub proof fn law_counter_never_decreases_block(c: Ctx, st: GenState, v: Seq<AstView>)
    ensures
        counter_kept(st, g_stmts(c, st, v)),
    decreases v, 0int,
{
    if v.len() > 0 {
        law_counter_never_decreases(c, st, v[0]);
        if let Some((_, s1)) = g(c, st, v[0]) {
            law_counter_never_decreases_block(c, s1, v.drop_first());
        }
    }
}

/// The label counter is kept by the arguments of a call.
pub proof fn law_counter_never_decreases_args(c: Ctx, st: GenState, v: Seq<AstView>)
    ensures
        counter_kept(st, g_args_rev(c, st, v)),
    decreases v, 0int,
{
    if v.len() > 0 {
        law_counter_never_decreases(c, st, v.last());
        if let Some((_, s1)) = g(c, st, v.last()) {
            law_counter_never_decreases_args(c, s1, v.drop_last());
        }
    }
}

// ---------------------------------------------------------------------------
// What the code of comparisons and of `do`-`while` means.

/// What a comparison sequence leaves in `%rax` when it starts with the left
/// operand `a` in `%rax` and the right operand `b` in `%rcx`: `cmp` then a
/// `set` on the signed condition, zero-extended; 1 when the condition holds,
/// else 0. `None` for a text that is no such sequence.
pub open spec fn compare_result(t: Seq<char>, a: int, b: int) -> Option<int> {
    let v = |c: bool| if c { 1int } else { 0int };
    if t == "  cmp %rcx, %rax\n  setl %al\n  movzb %al, %rax\n"@ {
        Some(v(a < b))
    } else if t == "  cmp %rcx, %rax\n  setle %al\n  movzb %al, %rax\n"@ {
        Some(v(a <= b))
    } else if t == "  cmp %rcx, %rax\n  setg %al\n  movzb %al, %rax\n"@ {
        Some(v(a > b))
    } else if t == "  cmp %rcx, %rax\n  setge %al\n  movzb %al, %rax\n"@ {
        Some(v(a >= b))
    } else if t == "  cmp %rcx, %rax\n  sete %al\n  movzb %al, %rax\n"@ {
        Some(v(a == b))
    } else if t == "  cmp %rcx, %rax\n  setne %al\n  movzb %al, %rax\n"@ {
        Some(v(a != b))
    } else {
        None
    }
}

/// The value of a C comparison of `a` with `b`: 1 when it holds, else 0.
pub open spec fn c_comparison(op: AstView, a: int, b: int) -> Option<int> {
    let v = |c: bool| if c { 1int } else { 0int };
    match op {
        AstView::LessThan(..) => Some(v(a < b)),
        AstView::LessThanEqual(..) => Some(v(a <= b)),
        AstView::GreaterThan(..) => Some(v(a > b)),
        AstView::GreaterThanEqual(..) => Some(v(a >= b)),
        AstView::Equal(..) => Some(v(a == b)),
        AstView::NotEqual(..) => Some(v(a != b)),
        _ => None,
    }
}

/// The code of every comparison operator computes that comparison: run on
/// the left operand in `%rax` and the right one in `%rcx`, it leaves 1 in
/// `%rax` exactly when the comparison holds, else 0.
pub proof fn law_comparison_code(op: AstView, a: int, b: int)
    requires
        c_comparison(op, a, b) is Some,
    ensures
        compare_result(operator_text(op), a, b) == c_comparison(op, a, b),
{
    let l = "  cmp %rcx, %rax\n  setl %al\n  movzb %al, %rax\n"@;
    let le = "  cmp %rcx, %rax\n  setle %al\n  movzb %al, %rax\n"@;
    let g = "  cmp %rcx, %rax\n  setg %al\n  movzb %al, %rax\n"@;
    let ge = "  cmp %rcx, %rax\n  setge %al\n  movzb %al, %rax\n"@;
    let e = "  cmp %rcx, %rax\n  sete %al\n  movzb %al, %rax\n"@;
    let ne = "  cmp %rcx, %rax\n  setne %al\n  movzb %al, %rax\n"@;
    reveal_strlit("  cmp %rcx, %rax\n  setl %al\n  movzb %al, %rax\n");
    reveal_strlit("  cmp %rcx, %rax\n  setle %al\n  movzb %al, %rax\n");
    reveal_strlit("  cmp %rcx, %rax\n  setg %al\n  movzb %al, %rax\n");
    reveal_strlit("  cmp %rcx, %rax\n  setge %al\n  movzb %al, %rax\n");
    reveal_strlit("  cmp %rcx, %rax\n  sete %al\n  movzb %al, %rax\n");
    reveal_strlit("  cmp %rcx, %rax\n  setne %al\n  movzb %al, %rax\n");
    assert(l[22] == 'l' && l[23] == ' ');
    assert(le[22] == 'l' && le[23] == 'e');
    assert(g[22] == 'g' && g[23] == ' ');
    assert(ge[22] == 'g' && ge[23] == 'e');
    assert(e[22] == 'e' && e[23] == ' ');
    assert(ne[22] == 'n' && ne[23] == 'e');
}

/// What an instruction sequence `t` leaves in register `r`, when it starts
/// with the left operand `a` in `%rax` and the right operand `b` in `%rcx`:
/// `add`, `sub` and `imul` give the sum, difference and product; `idiv`
/// after zeroing `%rdx` gives the quotient in `%rax` and the remainder in
/// `%rdx` (for `a` not negative and `b` positive); `sal` and `sar` by
/// `%cl` shift left and right arithmetically (for `0 <= b < 64`); `and`,
/// `or` and `xor` work bit by bit; a comparison leaves 1 or 0 as
/// `compare_result` says. `None` for any other sequence or register.
pub open spec fn alu_value(t: Seq<char>, r: Seq<char>, a: i64, b: i64) -> Option<int> {
    let x: int = 0int + a;
    let y: int = 0int + b;
    let div = "  mov $0, %rdx\n  idiv %rcx\n"@;
    if r == "rax"@ && t == "  add %rcx, %rax\n"@ {
        Some(x + y)
    } else if r == "rax"@ && t == "  sub %rcx, %rax\n"@ {
        Some(x - y)
    } else if r == "rax"@ && t == "  imul %rcx\n"@ {
        Some(x * y)
    } else if r == "rax"@ && t == div && 0 <= a && 0 < b {
        Some(x / y)
    } else if r == "rdx"@ && t == div && 0 <= a && 0 < b {
        Some(x % y)
    } else if r == "rax"@ && t == "  sal %cl, %rax\n"@ && 0 <= b < 64 {
        Some(x * pow2(to_nat(y)))
    } else if r == "rax"@ && t == "  sar %cl, %rax\n"@ && 0 <= b < 64 {
        Some(x / (0int + pow2(to_nat(y))))
    } else if r == "rax"@ && t == "  and %rcx, %rax\n"@ {
        Some(0int + (a & b))
    } else if r == "rax"@ && t == "  or %rcx, %rax\n"@ {
        Some(0int + (a | b))
    } else if r == "rax"@ && t == "  xor %rcx, %rax\n"@ {
        Some(0int + (a ^ b))
    } else if r == "rax"@ {
        compare_result(t, x, y)
    } else {
        None
    }
}

/// The value of the C binary operator `op` on `a` and `b` where it is
/// defined here: no division by a non-positive number or of a negative one,
/// shifts by 0 to 63.
pub open spec fn c_binary(op: AstView, a: i64, b: i64) -> Option<int> {
    let x: int = 0int + a;
    let y: int = 0int + b;
    match op {
        AstView::Plus(..) => Some(x + y),
        AstView::Minus(..) => Some(x - y),
        AstView::Multiple(..) => Some(x * y),
        AstView::Division(..) => if 0 <= a && 0 < b { Some(x / y) } else { None },
        AstView::Remainder(..) => if 0 <= a && 0 < b { Some(x % y) } else { None },
        AstView::LeftShift(..) => if 0 <= b < 64 { Some(x * pow2(to_nat(y))) } else { None },
        AstView::RightShift(..) => if 0 <= b < 64 { Some(x / (0int + pow2(to_nat(y)))) } else { None },
        AstView::BitAnd(..) => Some(0int + (a & b)),
        AstView::BitOr(..) => Some(0int + (a | b)),
        AstView::BitXor(..) => Some(0int + (a ^ b)),
        _ => c_comparison(op, x, y),
    }
}

/// `+` and `-` on numbers, not on pointers.
pub open spec fn no_pointer(op: AstView) -> bool {
    match op {
        AstView::Plus(x, _) => !plus_pointer(*x),
        AstView::Minus(x, y) => !minus_pointer(*x, *y),
        _ => true,
    }
}

/// The code of every binary operator (on numbers) computes that operator:
/// it pops the right operand into `%rcx` and the left into `%rax`, runs
/// an instruction sequence, and pushes the register that holds the C
/// result.
pub proof fn law_binary_code(op: AstView, a: i64, b: i64)
    requires
        c_binary(op, a, b) is Some,
        no_pointer(op),
    ensures
        exists|t: Seq<char>, r: Seq<char>|
            binary_tail(op) == pop_text("rcx"@) + pop_text("rax"@) + t + push_text(r) && #[trigger] alu_value(t, r, a, b)
                == c_binary(op, a, b),
{
    reveal_strlit("  add %rcx, %rax\n");
    reveal_strlit("  sub %rcx, %rax\n");
    reveal_strlit("  imul %rcx\n");
    reveal_strlit("  mov $0, %rdx\n  idiv %rcx\n");
    reveal_strlit("  sal %cl, %rax\n");
    reveal_strlit("  sar %cl, %rax\n");
    reveal_strlit("  and %rcx, %rax\n");
    reveal_strlit("  or %rcx, %rax\n");
    reveal_strlit("  xor %rcx, %rax\n");
    reveal_strlit("rax");
    reveal_strlit("rdx");
    reveal_strlit("  cmp %rcx, %rax\n  setl %al\n  movzb %al, %rax\n");
    reveal_strlit("  cmp %rcx, %rax\n  setle %al\n  movzb %al, %rax\n");
    reveal_strlit("  cmp %rcx, %rax\n  setg %al\n  movzb %al, %rax\n");
    reveal_strlit("  cmp %rcx, %rax\n  setge %al\n  movzb %al, %rax\n");
    reveal_strlit("  cmp %rcx, %rax\n  sete %al\n  movzb %al, %rax\n");
    reveal_strlit("  cmp %rcx, %rax\n  setne %al\n  movzb %al, %rax\n");
    assert("rax"@[1] != "rdx"@[1]);
    let t = match op {
        AstView::Plus(..) => plus_text(),
        AstView::Minus(..) => minus_text(),
        _ => operator_text(op),
    };
    let r = match op {
        AstView::Remainder(..) => "rdx"@,
        _ => "rax"@,
    };
    assert("  add %rcx, %rax\n"@[2] == 'a' && "  add %rcx, %rax\n"@[3] == 'd' && "  add %rcx, %rax\n"@[4] == 'd');
    assert("  sub %rcx, %rax\n"@[2] == 's' && "  sub %rcx, %rax\n"@[3] == 'u' && "  sub %rcx, %rax\n"@[4] == 'b');
    assert("  imul %rcx\n"@[2] == 'i' && "  imul %rcx\n"@[3] == 'm' && "  imul %rcx\n"@[4] == 'u');
    assert("  mov $0, %rdx\n  idiv %rcx\n"@[2] == 'm' && "  mov $0, %rdx\n  idiv %rcx\n"@[3] == 'o' && "  mov $0, %rdx\n  idiv %rcx\n"@[4] == 'v');
    assert("  sal %cl, %rax\n"@[2] == 's' && "  sal %cl, %rax\n"@[3] == 'a' && "  sal %cl, %rax\n"@[4] == 'l');
    assert("  sar %cl, %rax\n"@[2] == 's' && "  sar %cl, %rax\n"@[3] == 'a' && "  sar %cl, %rax\n"@[4] == 'r');
    assert("  and %rcx, %rax\n"@[2] == 'a' && "  and %rcx, %rax\n"@[3] == 'n' && "  and %rcx, %rax\n"@[4] == 'd');
    assert("  or %rcx, %rax\n"@[2] == 'o' && "  or %rcx, %rax\n"@[3] == 'r' && "  or %rcx, %rax\n"@[4] == ' ');
    assert("  xor %rcx, %rax\n"@[2] == 'x' && "  xor %rcx, %rax\n"@[3] == 'o' && "  xor %rcx, %rax\n"@[4] == 'r');
    assert("  cmp %rcx, %rax\n  setl %al\n  movzb %al, %rax\n"@[2] == 'c' && "  cmp %rcx, %rax\n  setl %al\n  movzb %al, %rax\n"@[3] == 'm');
    assert("  cmp %rcx, %rax\n  setle %al\n  movzb %al, %rax\n"@[2] == 'c' && "  cmp %rcx, %rax\n  setle %al\n  movzb %al, %rax\n"@[3] == 'm');
    assert("  cmp %rcx, %rax\n  setg %al\n  movzb %al, %rax\n"@[2] == 'c' && "  cmp %rcx, %rax\n  setg %al\n  movzb %al, %rax\n"@[3] == 'm');
    assert("  cmp %rcx, %rax\n  setge %al\n  movzb %al, %rax\n"@[2] == 'c' && "  cmp %rcx, %rax\n  setge %al\n  movzb %al, %rax\n"@[3] == 'm');
    assert("  cmp %rcx, %rax\n  sete %al\n  movzb %al, %rax\n"@[2] == 'c' && "  cmp %rcx, %rax\n  sete %al\n  movzb %al, %rax\n"@[3] == 'm');
    assert("  cmp %rcx, %rax\n  setne %al\n  movzb %al, %rax\n"@[2] == 'c' && "  cmp %rcx, %rax\n  setne %al\n  movzb %al, %rax\n"@[3] == 'm');
    assert(binary_tail(op) == pop_text("rcx"@) + pop_text("rax"@) + t + push_text(r));
    if c_comparison(op, 0int + a, 0int + b) is Some {
        law_comparison_code(op, 0int + a, 0int + b);
    }
    assert(alu_value(t, r, a, b) == c_binary(op, a, b));
}

/// What an instruction sequence `t` pushes when the stack holds a pointer
/// `p` with an integer `n` on top of it: the sequence that pops `n` into
/// `%rax`, multiplies it by 8, pops `p` into `%rcx`, adds (or subtracts)
/// `%rax` to `%rcx` and pushes `%rcx` gives `p + 8 * n` (or `p - 8 * n`).
/// `None` for any other sequence.
pub open spec fn pointer_value(t: Seq<char>, p: int, n: int) -> Option<int> {
    let head = "  pop %rax\n  mov $8, %rcx\n  mul %rcx\n  pop %rcx\n"@;
    if t == head + "  add %rax, %rcx\n  push %rcx\n"@ {
        Some(p + 8 * n)
    } else if t == head + "  sub %rax, %rcx\n  push %rcx\n"@ {
        Some(p - 8 * n)
    } else {
        None
    }
}

/// Adding an integer to a pointer, or taking one from it, moves the
/// pointer by that many 8-byte elements: `p + n` is `p + 8 * n` and
/// `p - n` is `p - 8 * n`.
pub proof fn law_pointer_arithmetic(x: AstView, y: AstView, p: int, n: int)
    ensures
        plus_pointer(x) ==> pointer_value(binary_tail(AstView::Plus(Box::new(x), Box::new(y))), p, n) == Some(
            p + 8 * n,
        ),
        minus_pointer(x, y) ==> pointer_value(binary_tail(AstView::Minus(Box::new(x), Box::new(y))), p, n) == Some(
            p - 8 * n,
        ),
{
    reveal_strlit("  pop %");
    reveal_strlit("\n");
    reveal_strlit("rax");
    reveal_strlit("rcx");
    reveal_strlit("  mov $");
    reveal_strlit(", %");
    reveal_strlit("  mul %");
    reveal_strlit("  add %");
    reveal_strlit("  sub %");
    reveal_strlit("  push %");
    reveal_strlit("  pop %rax\n  mov $8, %rcx\n  mul %rcx\n  pop %rcx\n");
    reveal_strlit("  add %rax, %rcx\n  push %rcx\n");
    reveal_strlit("  sub %rax, %rcx\n  push %rcx\n");
    assert(i64_text(8) =~= seq!['8']);
    let head = "  pop %rax\n  mov $8, %rcx\n  mul %rcx\n  pop %rcx\n"@;
    assert(pop_text("rax"@) + mov_imm_text("rcx"@, 8) + mul_text("rcx"@) + pop_text("rcx"@) =~= head);
    assert(pointer_tail(add_text("rax"@, "rcx"@)) =~= head + "  add %rax, %rcx\n  push %rcx\n"@);
    assert(pointer_tail(sub_text("rax"@, "rcx"@)) =~= head + "  sub %rax, %rcx\n  push %rcx\n"@);
    assert(("  add %rax, %rcx\n  push %rcx\n"@)[3] != ("  sub %rax, %rcx\n  push %rcx\n"@)[3]);
    assert((head + "  add %rax, %rcx\n  push %rcx\n"@)[head.len() + 3int] == 'd');
    assert((head + "  sub %rax, %rcx\n  push %rcx\n"@)[head.len() + 3int] == 'u');
}

/// What an instruction sequence `t` leaves in `%rax` when it starts with
/// `a` in `%rax`: `neg` the negation, `not` the bitwise complement, and a
/// comparison with 0 followed by `sete` 1 exactly when `a` is 0, else 0.
/// `None` for any other sequence.
pub open spec fn unary_value(t: Seq<char>, a: i64) -> Option<int> {
    let x: int = 0int + a;
    if t == "  neg %eax\n"@ {
        Some(-x)
    } else if t == "  not %eax\n"@ {
        Some(0int + !a)
    } else if t == cmpl_text(0, "eax"@) + "  sete %al\n  movzb %al, %eax\n"@ {
        Some(if x == 0 { 1int } else { 0int })
    } else {
        None
    }
}

/// The value of a C unary operator: `-a`, `~a`, and `!a` (1 when `a` is 0,
/// else 0).
pub open spec fn c_unary(op: AstView, a: i64) -> Option<int> {
    let x: int = 0int + a;
    match op {
        AstView::UnMinus(..) => Some(-x),
        AstView::BitReverse(..) => Some(0int + !a),
        AstView::Not(..) => Some(if x == 0 { 1int } else { 0int }),
        _ => None,
    }
}

/// The code of `-`, `~` and `!` computes them: it pops the operand into
/// `%rax`, runs an instruction sequence and pushes `%rax`.
pub proof fn law_unary_code(op: AstView, a: i64)
    requires
        c_unary(op, a) is Some,
    ensures
        exists|t: Seq<char>|
            unary_tail(op) == pop_text("rax"@) + t + push_text("rax"@) && #[trigger] unary_value(t, a) == c_unary(op, a),
{
    reveal_strlit("  neg %eax\n");
    reveal_strlit("  not %eax\n");
    reveal_strlit("  neg %");
    reveal_strlit("  not %");
    reveal_strlit("eax");
    reveal_strlit("\n");
    reveal_strlit("  sete %");
    reveal_strlit("al");
    reveal_strlit("  movzb %");
    reveal_strlit(", %");
    reveal_strlit("  sete %al\n  movzb %al, %eax\n");
    let t = match op {
        AstView::UnMinus(..) => neg_text("eax"@),
        AstView::BitReverse(..) => not_text("eax"@),
        _ => cmpl_text(0, "eax"@) + set_text("al"@) + movz_text("al"@, "eax"@),
    };
    assert(neg_text("eax"@) =~= "  neg %eax\n"@);
    assert(not_text("eax"@) =~= "  not %eax\n"@);
    assert(set_text("al"@) + movz_text("al"@, "eax"@) =~= "  sete %al\n  movzb %al, %eax\n"@);
    assert("  neg %eax\n"@[3] == 'e');
    assert("  not %eax\n"@[3] == 'o');
    reveal_strlit("  cmp $");
    assert(cmpl_text(0, "eax"@)[2] == 'c');
    assert(unary_tail(op) == pop_text("rax"@) + t + push_text("rax"@));
    assert(unary_value(t, a) == c_unary(op, a));
}

/// Whether a test-and-branch sequence jumps to label `target` when the
/// value on top of the stack is `v`: it pops the value into `%rax`,
/// compares `%eax` with `k`, then `jne` jumps when the value is not `k`,
/// `je` when it is `k`. `None` for a text that is no such sequence.
pub open spec fn branch_taken(t: Seq<char>, k: usize, target: usize, v: int) -> Option<bool> {
    let head = pop_text("rax"@) + cmpl_text(k, "eax"@);
    if t == head + "  jne .L"@ + usize_text(target) + "\n"@ {
        Some(v != k)
    } else if t == head + "  je .L"@ + usize_text(target) + "\n"@ {
        Some(v == k)
    } else {
        None
    }
}

/// The code of a `do`-`while`: a label at the start, the body, a label,
/// the condition, then a branch that jumps back to the start exactly when
/// the condition's value is not 0, and the end label.
#[verifier::spinoff_prover]
#[verifier::rlimit(50)]
pub proof fn law_do_loops_while_true(c: Ctx, st: GenState, x: AstView, y: AstView)
    ensures
        g_do(c, st, AstView::Do(Box::new(x), Box::new(y))) matches Some((o, _)) ==> exists|
            lb: usize,
            lc: usize,
            le: usize,
            ox: Seq<char>,
            oy: Seq<char>,
            br: Seq<char>,
        |
            o == ".L"@ + usize_text(lb) + ":\n"@ + ox + ".L"@ + usize_text(lc) + ":\n"@ + oy + br + ".L"@
                + usize_text(le) + ":\n"@ && forall|v: int| #[trigger] branch_taken(br, 0, lb, v) == Some(v != 0),
{
    reveal(g_do);
    let a = AstView::Do(Box::new(x), Box::new(y));
    if let Some((o, _)) = g_do(c, st, a) {
        let (lb, l1) = next_label_of(st.label)->0;
        let (lc, l2) = next_label_of(l1)->0;
        let (le, l3) = next_label_of(l2)->0;
        let s3 = with_label(st, push_break_of(push_continue_of(l3, lc), le));
        let (ox, s4) = g(c, s3, x)->0;
        let (oy, s5) = g(c, s4, y)->0;
        let br = test_text(0) + jne_text(lb);
        assert forall|v: int| #[trigger] branch_taken(br, 0, lb, v) == Some(v != 0) by {}
        assert(o == ".L"@ + usize_text(lb) + ":\n"@ + ox + ".L"@ + usize_text(lc) + ":\n"@ + oy + br + ".L"@
            + usize_text(le) + ":\n"@);
    }
}

/// The code of a `while`: a label, the condition, a branch that leaves the
/// loop exactly when the condition's value is 0, the body, a jump back to
/// the start, and the end label.
#[verifier::spinoff_prover]
#[verifier::rlimit(50)]
pub proof fn law_while_leaves_when_false(c: Ctx, st: GenState, x: AstView, y: AstView)
    ensures
        g_while(c, st, AstView::While(Box::new(x), Box::new(y))) matches Some((o, _)) ==> exists|
            lb: usize,
            le: usize,
            ox: Seq<char>,
            oy: Seq<char>,
            br: Seq<char>,
        |
            o == label_text(lb) + ox + br + oy + jmp_text(lb) + label_text(le) && forall|v: int| #[trigger]
                branch_taken(br, 0, le, v) == Some(v == 0),
{
    reveal(g_while);
    let a = AstView::While(Box::new(x), Box::new(y));
    if let Some((o, _)) = g_while(c, st, a) {
        let (lb, l1) = next_label_of(st.label)->0;
        let (le, l2) = next_label_of(l1)->0;
        let s2 = with_label(st, push_break_of(push_continue_of(l2, lb), le));
        let (ox, s3) = g(c, s2, x)->0;
        let (oy, s4) = g(c, s3, y)->0;
        let br = test_text(0) + je_text(le);
        assert forall|v: int| #[trigger] branch_taken(br, 0, le, v) == Some(v == 0) by {
            reveal_strlit("  jne .L");
            reveal_strlit("  je .L");
            assert("  jne .L"@[3] != "  je .L"@[3]);
            let h = pop_text("rax"@) + cmpl_text(0, "eax"@);
            assert((h + "  jne .L"@ + usize_text(le) + "\n"@)[h.len() + 3int] == 'n');
            assert(br[h.len() + 3int] == 'e');
        }
        assert(o == label_text(lb) + ox + br + oy + jmp_text(lb) + label_text(le));
    }
}

/// In a `do`-`while` whose body is a block of one `break` or one
/// `continue`, `break` jumps to the label that ends the loop and `continue`
/// to the label of the condition, which loops back while it is not 0.
#[verifier::spinoff_prover]
#[verifier::rlimit(50)]
pub proof fn law_do_break_continue(c: Ctx, st: GenState, j: AstView, y: AstView)
    requires
        j == AstView::Break || j == AstView::Continue,
    ensures
        g_do(c, st, AstView::Do(Box::new(AstView::Statement(seq![j])), Box::new(y))) matches Some((o, _))
            ==> exists|lb: usize, lc: usize, le: usize, t: usize, oy: Seq<char>, br: Seq<char>|
            lb != lc && lc != le && lb != le && t == (if j == AstView::Break { le } else { lc }) && o == label_text(lb)
                + jmp_text(t) + label_text(lc) + oy + br + label_text(le) && forall|v: int| #[trigger]
                branch_taken(br, 0, lb, v) == Some(v != 0),
{
    reveal(g_do);
    reveal(g_statement);
    reveal(g_break);
    reveal(g_continue);
    let x = AstView::Statement(seq![j]);
    let a = AstView::Do(Box::new(x), Box::new(y));
    if let Some((o, _)) = g_do(c, st, a) {
        let (lb, l1) = next_label_of(st.label)->0;
        let (lc, l2) = next_label_of(l1)->0;
        let (le, l3) = next_label_of(l2)->0;
        let s3 = with_label(st, push_break_of(push_continue_of(l3, lc), le));
        let (ox, s4) = g(c, s3, x)->0;
        let (oy, s5) = g(c, s4, y)->0;
        let target = if j == AstView::Break { le } else { lc };
        assert(s3.label.break_labels.last() == le);
        assert(s3.label.continue_labels.last() == lc);
        let (oj, s6) = g(c, s3, j)->0;
        assert(oj == jmp_text(target));
        assert(seq![j].drop_first() =~= Seq::<AstView>::empty());
        assert(seq![j][0] == j);
        assert(g_stmts(c, s6, Seq::<AstView>::empty()) == Some((Seq::<char>::empty(), s6)));
        assert(g_stmts(c, s3, seq![j]) == Some((oj + Seq::<char>::empty(), s6)));
        assert(ox =~= jmp_text(target));
        let br = test_text(0) + jne_text(lb);
        assert forall|v: int| #[trigger] branch_taken(br, 0, lb, v) == Some(v != 0) by {}
        assert(o == label_text(lb) + jmp_text(target) + label_text(lc) + oy + br + label_text(le));
    }
}

/// In a `for` whose body is a block of one `break` or one `continue`,
/// `break` jumps to the label that ends the loop and `continue` to the label
/// of the update, which is followed by the jump back to the test.
#[verifier::spinoff_prover]
#[verifier::rlimit(50)]
pub proof fn law_for_break_continue(
    c: Ctx,
    st: GenState,
    x: Option<Box<AstView>>,
    y: Option<Box<AstView>>,
    z: Option<Box<AstView>>,
    j: AstView,
)
    requires
        x matches Some(e) ==> jump_free(*e),
        y matches Some(e) ==> jump_free(*e),
        stacks_fresh(st.label),
        j == AstView::Break || j == AstView::Continue,
    ensures
        g_for(c, st, AstView::For(x, y, z, Box::new(AstView::Statement(seq![j])))) matches Some((o, _))
            ==> exists|lb: usize, lc: usize, le: usize, t: usize, oi: Seq<char>, oc: Seq<char>, ou: Seq<char>|
            lb != lc && lc != le && lb != le && t == (if j == AstView::Break { le } else { lc }) && o == oi
                + label_text(lb) + oc + jmp_text(t) + label_text(lc) + ou + jmp_text(lb) + label_text(le),
{
    reveal(g_for);
    reveal(g_statement);
    reveal(g_break);
    reveal(g_continue);
    let w = AstView::Statement(seq![j]);
    let a = AstView::For(x, y, z, Box::new(w));
    if let Some((o, _)) = g_for(c, st, a) {
        let (lb, l1) = next_label_of(st.label)->0;
        let (lc, l2) = next_label_of(l1)->0;
        let (le, l3) = next_label_of(l2)->0;
        let s3 = with_label(st, push_break_of(push_continue_of(l3, lc), le));
        lemma_loop_stacks(st.label, lc, le, l3, s3);
        let init = match x {
            Some(e) => match g(c, s3, *e) {
                Some((o, s)) => Some((o + pop_text("rax"@), s)),
                None => None,
            },
            None => Some((Seq::empty(), s3)),
        };
        if let Some(e) = x {
            law_stacks_restored(c, s3, *e);
            law_counter_never_decreases(c, s3, *e);
        }
        let (oi, s4) = init->0;
        lemma_fresh_later(s3, s4);
        let cond = match y {
            Some(e) => match g(c, s4, *e) {
                Some((o, s)) => Some((o + test_text(0) + je_text(le), s)),
                None => None,
            },
            None => Some((Seq::empty(), s4)),
        };
        if let Some(e) = y {
            law_stacks_restored(c, s4, *e);
        }
        let (oc, s5) = cond->0;
        assert(s5.label.break_labels.last() == le);
        assert(s5.label.continue_labels.last() == lc);
        let t = if j == AstView::Break { le } else { lc };
        let (oj, s6) = g(c, s5, j)->0;
        assert(oj == jmp_text(t));
        assert(seq![j].drop_first() =~= Seq::<AstView>::empty());
        assert(seq![j][0] == j);
        assert(g_stmts(c, s6, Seq::<AstView>::empty()) == Some((Seq::<char>::empty(), s6)));
        assert(g_stmts(c, s5, seq![j]) == Some((oj + Seq::<char>::empty(), s6)));
        let (ob, s7) = g(c, s5, w)->0;
        assert(ob =~= jmp_text(t));
        let upd = match z {
            Some(e) => match g(c, s7, *e) {
                Some((o, s)) => Some((o + pop_text("rax"@), s)),
                None => None,
            },
            None => Some((Seq::empty(), s7)),
        };
        let (ou, s8) = upd->0;
        assert(o == oi + label_text(lb) + oc + jmp_text(t) + label_text(lc) + ou + jmp_text(lb) + label_text(le));
    }
}

/// In a function whose body is `return n;`, the number is left in `%rax`
/// and the code jumps to the return label, which stands right before the
/// end of the function: the frame reserved at its start is the frame
/// released there, then `%rbp` is restored and the function returns.
#[verifier::spinoff_prover]
#[verifier::rlimit(50)]
pub proof fn law_return_reaches_end(
    c: Ctx,
    st: GenState,
    t: ast::TypeView,
    name: Seq<char>,
    args: Seq<AstView>,
    n: i64,
)
    ensures
        g_func_def(
            c,
            st,
            AstView::FuncDef(
                t,
                name,
                Box::new(AstView::Argment(args)),
                Box::new(AstView::Statement(seq![AstView::Return(Box::new(AstView::Factor(n)))])),
            ),
        ) matches Some((o, _)) ==> exists|pre: Seq<char>, mid: Seq<char>, rl: usize, fs: usize|
            o == pre + sub_imm_text(fs, "rsp"@) + mid + factor_text(n) + pop_text("rax"@) + jmp_text(rl)
                + label_text(rl) + add_imm_text(fs, "rsp"@) + pop_text("rbp"@) + ret_text(),
{
    reveal(g_func_def);
    reveal(g_statement);
    reveal(g_return);
    reveal(g_factor);
    let r = AstView::Return(Box::new(AstView::Factor(n)));
    let body = seq![r];
    let a = AstView::FuncDef(t, name, Box::new(AstView::Argment(args)), Box::new(AstView::Statement(body)));
    if let Some((o, _)) = g_func_def(c, st, a) {
        let (rl, l1) = next_return_label_of(st.label)->0;
        let fs = frame_size(c)->0;
        let s1 = GenState { label: l1 };
        assert(g(c, s1, AstView::Factor(n)) == Some((factor_text(n), s1)));
        assert(is_expr_view(AstView::Factor(n)));
        assert(s1.label.return_label == rl);
        assert(g(c, s1, r) == Some((factor_text(n) + pop_text("rax"@) + jmp_text(rl), s1)));
        let (or, s2) = g(c, s1, r)->0;
        assert(or == factor_text(n) + pop_text("rax"@) + jmp_text(rl));
        assert(body.drop_first() =~= Seq::<AstView>::empty());
        assert(body[0] == r);
        assert(g_stmts(c, s2, Seq::<AstView>::empty()) == Some((Seq::<char>::empty(), s2)));
        assert(g_stmts(c, s1, body) == Some((or + Seq::<char>::empty(), s2)));
        let pre = func_start_text(c, name, fs).subrange(0, func_start_text(c, name, fs).len() - sub_imm_text(
            fs,
            "rsp"@,
        ).len());
        let mid = func_args_text(args, 0);
        assert(func_start_text(c, name, fs) =~= pre + sub_imm_text(fs, "rsp"@));
        assert(o =~= pre + sub_imm_text(fs, "rsp"@) + mid + factor_text(n) + pop_text("rax"@) + jmp_text(rl)
            + label_text(rl) + add_imm_text(fs, "rsp"@) + pop_text("rbp"@) + ret_text());
    }
}

/// A local `int` variable is read from and written to one and the same
/// slot of the frame, 8 bytes per position below the frame base: reading it
/// loads `%eax` from that slot and pushes it, and assigning a number to it
/// pushes the number, pops it and stores `%eax` into that slot.
#[verifier::spinoff_prover]
#[verifier::rlimit(50)]
pub proof fn law_local_slot_shared(c: Ctx, st: GenState, v: Seq<char>, k: i64)
    requires
        lookup(c, v) is Some,
        lookup(c, v)->0.scope != ScopeView::Global,
        slot(lookup(c, v)->0) is Some,
    ensures
        exists|d: i64|
            0int + d == -8 * lookup(c, v)->0.pos && #[trigger] g(
                c,
                st,
                AstView::Variable(ast::TypeView::Int, ast::Structure::Identifier, v),
            ) == Some(("  mov "@ + i64_text(d) + "(%rbp), %eax\n"@ + push_text("rax"@), st)) && g(
                c,
                st,
                AstView::Assign(
                    Box::new(AstView::Variable(ast::TypeView::Int, ast::Structure::Identifier, v)),
                    Box::new(AstView::Factor(k)),
                ),
            ) == Some((factor_text(k) + pop_text("rax"@) + "  mov %eax, "@ + i64_text(d) + "(%rbp)\n"@
                + push_text("rax"@), st)),
{
    let sym = lookup(c, v)->0;
    let off = slot(sym)->0;
    let d = negated(off);
    assert(0int + d == -8 * sym.pos);
    assert(mov_src_text("rbp"@, "eax"@, d) =~= "  mov "@ + i64_text(d) + "(%rbp), %eax\n"@) by {
        reveal_strlit("  mov ");
        reveal_strlit("(%");
        reveal_strlit("), %");
        reveal_strlit("rbp");
        reveal_strlit("eax");
        reveal_strlit("\n");
        reveal_strlit("(%rbp), %eax\n");
    }
    assert(mov_dst_text("eax"@, "rbp"@, d) =~= "  mov %eax, "@ + i64_text(d) + "(%rbp)\n"@) by {
        reveal_strlit("  mov %");
        reveal_strlit(", ");
        reveal_strlit("(%");
        reveal_strlit(")\n");
        reveal_strlit("rbp");
        reveal_strlit("eax");
        reveal_strlit("  mov %eax, ");
        reveal_strlit("(%rbp)\n");
    }
    let x = AstView::Variable(ast::TypeView::Int, ast::Structure::Identifier, v);
    assert(g(c, st, x) == Some((mov_src_text("rbp"@, "eax"@, d) + push_text("rax"@), st))) by {
        reveal(g_variable);
    }
    assert(g(c, st, AstView::Factor(k)) == Some((factor_text(k), st))) by {
        reveal(g_factor);
    }
    assert(g(c, st, AstView::Assign(Box::new(x), Box::new(AstView::Factor(k)))) == Some((factor_text(k)
        + (pop_text("rax"@) + mov_dst_text("eax"@, "rbp"@, d) + push_text("rax"@)), st))) by {
        reveal(g_assign);
    }
    assert(factor_text(k) + (pop_text("rax"@) + mov_dst_text("eax"@, "rbp"@, d) + push_text("rax"@)) =~= factor_text(k)
        + pop_text("rax"@) + "  mov %eax, "@ + i64_text(d) + "(%rbp)\n"@ + push_text("rax"@));
}

/// The address of a local variable, `&v`, is the slot it is read from:
/// 8 bytes per position below the frame base.
#[verifier::spinoff_prover]
#[verifier::rlimit(50)]
pub proof fn law_address_is_slot(c: Ctx, t: ast::TypeView, s: ast::Structure, v: Seq<char>)
    requires
        lookup(c, v) is Some,
        lookup(c, v)->0.scope != ScopeView::Global,
        slot(lookup(c, v)->0) is Some,
        lookup(c, v)->0.pos > 0,
    ensures
        exists|d: i64|
            0int + d == -8 * lookup(c, v)->0.pos && #[trigger] lvalue_text(c, AstView::Variable(t, s, v)) == Some(
                "  leaq "@ + i64_text(d) + "(%rbp), %rax\n"@ + push_text("rax"@),
            ),
{
    let sym = lookup(c, v)->0;
    let off = slot(sym)->0;
    let d = negated(off);
    assert(0int + d == -8 * sym.pos);
    assert(i64_text(d) =~= seq!['-'] + i64_text(off));
    reveal_strlit("  leaq -");
    reveal_strlit("  leaq ");
    reveal_strlit("(%rbp), %rax\n");
    assert(lea_text(off) =~= "  leaq "@ + i64_text(d) + "(%rbp), %rax\n"@);
}

/// A global `int` variable is read from and written to the memory named by
/// the variable, addressed relative to the instruction pointer: reading it
/// loads `%eax` from there and pushes it, and assigning a number to it
/// pushes the number, pops it and stores `%eax` there.
#[verifier::spinoff_prover]
#[verifier::rlimit(50)]
pub proof fn law_global_named_shared(c: Ctx, st: GenState, v: Seq<char>, k: i64)
    requires
        lookup(c, v) is Some,
        lookup(c, v)->0.scope == ScopeView::Global,
        slot(lookup(c, v)->0) is Some,
    ensures
        g(c, st, AstView::Variable(ast::TypeView::Int, ast::Structure::Identifier, v)) == Some((
            "  mov "@ + v + "(%rip), %eax\n"@ + push_text("rax"@),
            st,
        )),
        g(
            c,
            st,
            AstView::Assign(
                Box::new(AstView::Variable(ast::TypeView::Int, ast::Structure::Identifier, v)),
                Box::new(AstView::Factor(k)),
            ),
        ) == Some((factor_text(k) + pop_text("rax"@) + "  mov %eax, "@ + v + "(%rip)\n"@ + push_text("rax"@), st)),
{
    let sym = lookup(c, v)->0;
    assert(mov_from_glb_text("eax"@, v) =~= "  mov "@ + v + "(%rip), %eax\n"@) by {
        reveal_strlit("  mov ");
        reveal_strlit("(%rip), %");
        reveal_strlit("eax");
        reveal_strlit("\n");
        reveal_strlit("(%rip), %eax\n");
    }
    assert(mov_to_glb_text("eax"@, v) =~= "  mov %eax, "@ + v + "(%rip)\n"@) by {
        reveal_strlit("  mov %");
        reveal_strlit(", ");
        reveal_strlit("(%rip)\n");
        reveal_strlit("eax");
        reveal_strlit("  mov %eax, ");
    }
    let x = AstView::Variable(ast::TypeView::Int, ast::Structure::Identifier, v);
    assert(g(c, st, x) == Some((mov_from_glb_text("eax"@, v) + push_text("rax"@), st))) by {
        reveal(g_variable);
    }
    assert(g(c, st, AstView::Factor(k)) == Some((factor_text(k), st))) by {
        reveal(g_factor);
    }
    assert(g(c, st, AstView::Assign(Box::new(x), Box::new(AstView::Factor(k)))) == Some((factor_text(k)
        + (pop_text("rax"@) + mov_to_glb_text("eax"@, v) + push_text("rax"@)), st))) by {
        reveal(g_assign);
    }
    assert(factor_text(k) + (pop_text("rax"@) + mov_to_glb_text("eax"@, v) + push_text("rax"@)) =~= factor_text(k)
        + pop_text("rax"@) + "  mov %eax, "@ + v + "(%rip)\n"@ + push_text("rax"@));
}

/// What an instruction sequence `t` does when the stack holds the address
/// of a variable whose value is `x`: the value it pushes and the value it
/// leaves in the variable. The sequence that pops the address into `%rcx`,
/// loads the value, pushes it, then adds (or subtracts) 1 and stores the
/// result back pushes `x` and leaves `x + 1` (or `x - 1`). `None` for any
/// other sequence.
pub open spec fn step_effect(t: Seq<char>, x: int) -> Option<(int, int)> {
    let head = "  pop %rcx\n  mov 0(%rcx), %eax\n  push %rax\n"@;
    if t == head + "  add $1, %eax\n  mov %eax, 0(%rcx)\n"@ {
        Some((x, x + 1))
    } else if t == head + "  sub $1, %eax\n  mov %eax, 0(%rcx)\n"@ {
        Some((x, x - 1))
    } else {
        None
    }
}

/// `v++` and `v--` give the old value of `v` and leave `v` one higher (or
/// one lower): after the address of `v` is pushed, the code pushes the old
/// value and stores the new one.
#[verifier::spinoff_prover]
#[verifier::rlimit(50)]
pub proof fn law_post_step(c: Ctx, st: GenState, x: AstView, v: int)
    requires
        lvalue_text(c, x) is Some,
    ensures
        exists|t: Seq<char>|
            g(c, st, AstView::PostInc(Box::new(x))) == Some((lvalue_text(c, x)->0 + t, st)) && #[trigger] step_effect(
                t,
                v,
            ) == Some((v, v + 1)),
        exists|t: Seq<char>|
            g(c, st, AstView::PostDec(Box::new(x))) == Some((lvalue_text(c, x)->0 + t, st)) && #[trigger] step_effect(
                t,
                v,
            ) == Some((v, v - 1)),
{
    reveal(g_post_inc);
    reveal(g_post_dec);
    reveal_strlit("  pop %");
    reveal_strlit("\n");
    reveal_strlit("rcx");
    reveal_strlit("eax");
    reveal_strlit("rax");
    reveal_strlit("  mov ");
    reveal_strlit("(%");
    reveal_strlit("), %");
    reveal_strlit("  push %");
    reveal_strlit("  add $");
    reveal_strlit("  sub $");
    reveal_strlit(", %");
    reveal_strlit("  mov %");
    reveal_strlit(", ");
    reveal_strlit(")\n");
    reveal_strlit("  pop %rcx\n  mov 0(%rcx), %eax\n  push %rax\n");
    reveal_strlit("  add $1, %eax\n  mov %eax, 0(%rcx)\n");
    reveal_strlit("  sub $1, %eax\n  mov %eax, 0(%rcx)\n");
    assert(i64_text(0) =~= seq!['0']);
    assert(usize_text(1) =~= seq!['1']);
    let o = lvalue_text(c, x)->0;
    let head = "  pop %rcx\n  mov 0(%rcx), %eax\n  push %rax\n"@;
    assert(pop_text("rcx"@) + mov_src_text("rcx"@, "eax"@, 0) + push_text("rax"@) =~= head);
    let ti = head + "  add $1, %eax\n  mov %eax, 0(%rcx)\n"@;
    let td = head + "  sub $1, %eax\n  mov %eax, 0(%rcx)\n"@;
    assert(add_imm_text(1, "eax"@) + mov_dst_text("eax"@, "rcx"@, 0) =~= "  add $1, %eax\n  mov %eax, 0(%rcx)\n"@);
    assert(sub_imm_text(1, "eax"@) + mov_dst_text("eax"@, "rcx"@, 0) =~= "  sub $1, %eax\n  mov %eax, 0(%rcx)\n"@);
    assert(g(c, st, AstView::PostInc(Box::new(x))) == Some((o + ti, st)));
    assert(g(c, st, AstView::PostDec(Box::new(x))) == Some((o + td, st)));
    assert(ti[head.len() + 3int] == 'd');
    assert(td[head.len() + 3int] == 'u');
    assert(step_effect(ti, v) == Some((v, v + 1)));
    assert(step_effect(td, v) == Some((v, v - 1)));
}

/// Whether the code `o` holds a `call` of the label `target`.
pub open spec fn calls_label(o: Seq<char>, target: Seq<char>) -> bool {
    exists|pre: Seq<char>, post: Seq<char>| o == #[trigger] (pre + "  call "@ + target + "\n"@ + post)
}

/// A call reaches the function it names: the definition of `name` starts
/// its code at the label `name` (`_name` on macOS), exported when the
/// function is `main`, and a call of `name` calls that same label.
#[verifier::spinoff_prover]
#[verifier::rlimit(50)]
pub proof fn law_call_reaches_definition(
    c: Ctx,
    st: GenState,
    st2: GenState,
    t: ast::TypeView,
    name: Seq<char>,
    args: Seq<AstView>,
    body: Seq<AstView>,
    t2: ast::TypeView,
    s2: ast::Structure,
    v: Seq<AstView>,
)
    ensures
        g_func_def(
            c,
            st,
            AstView::FuncDef(t, name, Box::new(AstView::Argment(args)), Box::new(AstView::Statement(body))),
        ) matches Some((o, _)) ==> ((if name == "main"@ {
            "  .text\n.global "@ + (if c.mac { "_"@ + name } else { name }) + "\n"@
        } else {
            "  .text\n"@
        }) + (if c.mac { "_"@ + name } else { name }) + ":\n"@).is_prefix_of(o),
        g_call_func(
            c,
            st2,
            AstView::CallFunc(Box::new(AstView::Variable(t2, s2, name)), Box::new(AstView::Argment(v))),
        ) matches Some((o2, _)) ==> calls_label(o2, if c.mac { "_"@ + name } else { name }),
{
    let sym = if c.mac { "_"@ + name } else { name };
    assert(func_symbol(c, name) == sym);
    let a = AstView::FuncDef(t, name, Box::new(AstView::Argment(args)), Box::new(AstView::Statement(body)));
    let head = if name == "main"@ { "  .text\n.global "@ + sym + "\n"@ } else { "  .text\n"@ };
    assert(g_func_def(c, st, a) matches Some((o, _)) ==> (head + sym + ":\n"@).is_prefix_of(o)) by {
        reveal(g_func_def);
        if let Some((o, _)) = g_func_def(c, st, a) {
            let (rl, l1) = next_return_label_of(st.label)->0;
            let fs = frame_size(c)->0;
            let (ob, s2) = g_stmts(c, GenState { label: l1 }, body)->0;
            let rest = push_text("rbp"@) + mov_text("rsp"@, "rbp"@) + sub_imm_text(fs, "rsp"@) + func_args_text(args, 0)
                + ob + label_text(rl) + func_end_text(fs);
            assert(o =~= head + sym + ":\n"@ + rest);
            assert(o.subrange(0, (head + sym + ":\n"@).len() as int) =~= head + sym + ":\n"@);
        }
    }
    let call = AstView::CallFunc(Box::new(AstView::Variable(t2, s2, name)), Box::new(AstView::Argment(v)));
    assert(g_call_func(c, st2, call) matches Some((o2, _)) ==> calls_label(o2, sym)) by {
        reveal(g_call_func);
        if let Some((o2, _)) = g_call_func(c, st2, call) {
            let (oa, _) = g_args_rev(c, st2, v)->0;
            let pre = oa + pops_text(v, 0);
            let post = push_text("rax"@);
            assert(o2 =~= pre + "  call "@ + sym + "\n"@ + post);
        }
    }
}

/// The registers that carry the first six arguments of a call, in order,
/// as the System V calling convention for x86-64 fixes them.
pub open spec fn sysv_arg_regs() -> Seq<Seq<char>> {
    seq!["rdi"@, "rsi"@, "rdx"@, "rcx"@, "r8"@, "r9"@]
}

/// The `i`-th of the first six arguments of a call is moved into the
/// `i`-th argument register of the calling convention, and a function takes
/// its `i`-th parameter from that same register into the parameter's slot,
/// `8 * (i + 1)` bytes below the frame base.
#[verifier::spinoff_prover]
#[verifier::rlimit(50)]
pub proof fn law_calling_convention(v: Seq<AstView>, i: int)
    requires
        0 <= i < v.len(),
        i < 6,
    ensures
        pops_text(v, i) == (if is_pointer(v[i]) {
            "  pop %"@ + sysv_arg_regs()[i] + "\n"@
        } else {
            "  pop %rax\n  mov %rax, %"@ + sysv_arg_regs()[i] + "\n"@
        }) + pops_text(v, i + 1),
        exists|d: i64|
            0int + d == -8 * (i + 1) && #[trigger] func_args_text(v, i) == (if is_pointer(v[i]) {
                "  mov %"@ + sysv_arg_regs()[i] + ", "@ + i64_text(d) + "(%rbp)\n"@
            } else {
                "  mov %"@ + sysv_arg_regs()[i] + ", %rax\n  mov %eax, "@ + i64_text(d) + "(%rbp)\n"@
            }) + func_args_text(v, i + 1),
{
    reveal_strlit("rdi");
    reveal_strlit("rsi");
    reveal_strlit("rdx");
    reveal_strlit("rcx");
    reveal_strlit("r8");
    reveal_strlit("r9");
    assert(arg_reg(i) == sysv_arg_regs()[i]);
    let r = arg_reg(i);
    let d = param_offset(i);
    assert(0int + d == -8 * (i + 1));
    reveal_strlit("  pop %");
    reveal_strlit("\n");
    reveal_strlit("rax");
    reveal_strlit("eax");
    reveal_strlit("rbp");
    reveal_strlit("  mov %");
    reveal_strlit(", %");
    reveal_strlit(", ");
    reveal_strlit("(%");
    reveal_strlit(")\n");
    reveal_strlit("  pop %rax\n  mov %rax, %");
    reveal_strlit(", %rax\n  mov %eax, ");
    reveal_strlit("(%rbp)\n");
    assert(pop_text("rax"@) + mov_text("rax"@, r) =~= "  pop %rax\n  mov %rax, %"@ + r + "\n"@);
    assert(pop_text(r) =~= "  pop %"@ + r + "\n"@);
    assert(mov_dst_text(r, "rbp"@, d) =~= "  mov %"@ + r + ", "@ + i64_text(d) + "(%rbp)\n"@);
    assert(mov_text(r, "rax"@) + mov_dst_text("eax"@, "rbp"@, d) =~= "  mov %"@ + r + ", %rax\n  mov %eax, "@
        + i64_text(d) + "(%rbp)\n"@);
    assert(func_args_text(v, i) == (if is_pointer(v[i]) {
        "  mov %"@ + r + ", "@ + i64_text(d) + "(%rbp)\n"@
    } else {
        "  mov %"@ + r + ", %rax\n  mov %eax, "@ + i64_text(d) + "(%rbp)\n"@
    }) + func_args_text(v, i + 1));
}

/// In a `while` whose body is a block of one `break` or one `continue`,
/// `break` jumps to the label that ends the loop and `continue` back to the
/// label that starts it, where the condition is tested again.
#[verifier::spinoff_prover]
#[verifier::rlimit(50)]
pub proof fn law_while_break_continue(c: Ctx, st: GenState, x: AstView, j: AstView)
    requires
        jump_free(x),
        stacks_fresh(st.label),
        j == AstView::Break || j == AstView::Continue,
    ensures
        g_while(c, st, AstView::While(Box::new(x), Box::new(AstView::Statement(seq![j])))) matches Some((o, _))
            ==> exists|lb: usize, le: usize, ox: Seq<char>, br: Seq<char>|
            lb != le && o == label_text(lb) + ox + br + jmp_text(if j == AstView::Break { le } else { lb })
                + jmp_text(lb) + label_text(le) && forall|v: int| #[trigger] branch_taken(br, 0, le, v) == Some(v == 0),
{
    reveal(g_while);
    reveal(g_statement);
    reveal(g_break);
    reveal(g_continue);
    let y = AstView::Statement(seq![j]);
    let a = AstView::While(Box::new(x), Box::new(y));
    if let Some((o, _)) = g_while(c, st, a) {
        let (lb, l1) = next_label_of(st.label)->0;
        let (le, l2) = next_label_of(l1)->0;
        let s2 = with_label(st, push_break_of(push_continue_of(l2, lb), le));
        lemma_loop_stacks(st.label, lb, le, l2, s2);
        law_stacks_restored(c, s2, x);
        let (ox, s3) = g(c, s2, x)->0;
        let (oy, s4) = g(c, s3, y)->0;
        let target = if j == AstView::Break { le } else { lb };
        assert(s3.label.break_labels == s2.label.break_labels);
        assert(s3.label.continue_labels == s2.label.continue_labels);
        assert(s2.label.break_labels.last() == le);
        assert(s2.label.continue_labels.last() == lb);
        let (oj, s5) = g(c, s3, j)->0;
        assert(oj == jmp_text(target));
        assert(seq![j].drop_first() =~= Seq::<AstView>::empty());
        assert(seq![j][0] == j);
        assert(g_stmts(c, s5, Seq::<AstView>::empty()) == Some((Seq::<char>::empty(), s5)));
        assert(g_stmts(c, s3, seq![j]) == Some((oj + Seq::<char>::empty(), s5)));
        assert(oy =~= jmp_text(target));
        let br = test_text(0) + je_text(le);
        assert forall|v: int| #[trigger] branch_taken(br, 0, le, v) == Some(v == 0) by {
            reveal_strlit("  jne .L");
            reveal_strlit("  je .L");
            assert("  jne .L"@[3] != "  je .L"@[3]);
            let h = pop_text("rax"@) + cmpl_text(0, "eax"@);
            assert((h + "  jne .L"@ + usize_text(le) + "\n"@)[h.len() + 3int] == 'n');
            assert(br[h.len() + 3int] == 'e');
        }
        assert(o == label_text(lb) + ox + br + jmp_text(target) + jmp_text(lb) + label_text(le));
    }
}

/// The code of a `for` with a condition: the initialisation, a label, the
/// condition, a branch that leaves the loop exactly when the condition's
/// value is 0, the body, the `continue` label, the update, a jump back to
/// the first label, and the end label.
#[verifier::spinoff_prover]
#[verifier::rlimit(50)]
pub proof fn law_for_leaves_when_false(
    c: Ctx,
    st: GenState,
    x: Option<Box<AstView>>,
    y: AstView,
    z: Option<Box<AstView>>,
    w: AstView,
)
    ensures
        g_for(c, st, AstView::For(x, Some(Box::new(y)), z, Box::new(w))) matches Some((o, _)) ==> exists|
            lb: usize,
            lc: usize,
            le: usize,
            oi: Seq<char>,
            oc: Seq<char>,
            br: Seq<char>,
            ob: Seq<char>,
            ou: Seq<char>,
        |
            o == oi + label_text(lb) + oc + br + ob + label_text(lc) + ou + jmp_text(lb) + label_text(le) && forall|
                v: int,
            | #[trigger] branch_taken(br, 0, le, v) == Some(v == 0),
{
    reveal(g_for);
    let a = AstView::For(x, Some(Box::new(y)), z, Box::new(w));
    if let Some((o, _)) = g_for(c, st, a) {
        let (lb, l1) = next_label_of(st.label)->0;
        let (lc, l2) = next_label_of(l1)->0;
        let (le, l3) = next_label_of(l2)->0;
        let s3 = with_label(st, push_break_of(push_continue_of(l3, lc), le));
        let init = match x {
            Some(e) => match g(c, s3, *e) {
                Some((o, s)) => Some((o + pop_text("rax"@), s)),
                None => None,
            },
            None => Some((Seq::empty(), s3)),
        };
        let (oi, s4) = init->0;
        let (oc, s5) = g(c, s4, y)->0;
        let (ob, s6) = g(c, s5, w)->0;
        let upd = match z {
            Some(e) => match g(c, s6, *e) {
                Some((o, s)) => Some((o + pop_text("rax"@), s)),
                None => None,
            },
            None => Some((Seq::empty(), s6)),
        };
        let (ou, s7) = upd->0;
        let br = test_text(0) + je_text(le);
        assert forall|v: int| #[trigger] branch_taken(br, 0, le, v) == Some(v == 0) by {
            let h = pop_text("rax"@) + cmpl_text(0, "eax"@);
            reveal_strlit("  jne .L");
            reveal_strlit("  je .L");
            assert((h + "  jne .L"@ + usize_text(le) + "\n"@)[h.len() + 3int] == 'n');
            assert(br[h.len() + 3int] == 'e');
        }
        assert(o == oi + label_text(lb) + oc + br + ob + label_text(lc) + ou + jmp_text(lb) + label_text(le));
    }
}

/// The code of an `if` with an `else`: the condition, a branch to the
/// `then` block exactly when the condition's value is 1, the `else` block
/// and a jump to the end, the `then` block's label and code and a jump to
/// the end, then the end label.
#[verifier::spinoff_prover]
#[verifier::rlimit(50)]
pub proof fn law_if_else_branches(c: Ctx, st: GenState, x: AstView, y: AstView, e: AstView)
    ensures
        g_if(c, st, AstView::If(Box::new(x), Box::new(y), Some(Box::new(e)))) matches Some((o, _)) ==> exists|
            li: usize,
            le: usize,
            ox: Seq<char>,
            oy: Seq<char>,
            oe: Seq<char>,
            br: Seq<char>,
        |
            o == ox + br + oe + jmp_text(le) + label_text(li) + oy + jmp_text(le) + label_text(le) && forall|v: int|
                #[trigger] branch_taken(br, 1, li, v) == Some(v == 1),
{
    reveal(g_if);
    let a = AstView::If(Box::new(x), Box::new(y), Some(Box::new(e)));
    if let Some((o, _)) = g_if(c, st, a) {
        let (le, l1) = next_label_of(st.label)->0;
        let (ox, s2) = g(c, with_label(st, l1), x)->0;
        let (li, l3) = next_label_of(s2.label)->0;
        let (oe, s4) = g(c, with_label(s2, l3), e)->0;
        let (oy, s5) = g(c, s4, y)->0;
        let br = test_text(1) + je_text(li);
        assert forall|v: int| #[trigger] branch_taken(br, 1, li, v) == Some(v == 1) by {
            let h = pop_text("rax"@) + cmpl_text(1, "eax"@);
            reveal_strlit("  jne .L");
            reveal_strlit("  je .L");
            assert((h + "  jne .L"@ + usize_text(li) + "\n"@)[h.len() + 3int] == 'n');
            assert(br[h.len() + 3int] == 'e');
        }
        assert(o == ox + br + oe + jmp_text(le) + label_text(li) + oy + jmp_text(le) + label_text(le));
    }
}

/// The code of an `if` without `else`: the condition, a branch past the
/// `then` block exactly when the condition's value is not 1, the block,
/// and the end label.
#[verifier::spinoff_prover]
#[verifier::rlimit(50)]
pub proof fn law_if_skips_unless_one(c: Ctx, st: GenState, x: AstView, y: AstView)
    ensures
        g_if(c, st, AstView::If(Box::new(x), Box::new(y), None)) matches Some((o, _)) ==> exists|
            le: usize,
            ox: Seq<char>,
            oy: Seq<char>,
            br: Seq<char>,
        | o == ox + br + oy + label_text(le) && forall|v: int| #[trigger] branch_taken(br, 1, le, v) == Some(v != 1),
{
    reveal(g_if);
    let a = AstView::If(Box::new(x), Box::new(y), None);
    if let Some((o, _)) = g_if(c, st, a) {
        let (le, l1) = next_label_of(st.label)->0;
        let (ox, s2) = g(c, with_label(st, l1), x)->0;
        let (oy, s3) = g(c, s2, y)->0;
        let br = test_text(1) + jne_text(le);
        assert forall|v: int| #[trigger] branch_taken(br, 1, le, v) == Some(v != 1) by {}
        assert(o == ox + br + oy + label_text(le));
    }
}

/// The code of `a ? b : c`: the condition, a branch to the `c` part
/// exactly when the condition's value is 0, the `b` part and a jump to the
/// end, the `c` part's label and code, and the end label.
#[verifier::spinoff_prover]
#[verifier::rlimit(50)]
pub proof fn law_condition_picks(c: Ctx, st: GenState, x: AstView, y: AstView, z: AstView)
    ensures
        g_condition(c, st, AstView::Condition(Box::new(x), Box::new(y), Box::new(z))) matches Some((o, _)) ==> exists|
            lf: usize,
            le: usize,
            ox: Seq<char>,
            oy: Seq<char>,
            oz: Seq<char>,
            br: Seq<char>,
        |
            o == ox + br + oy + jmp_text(le) + label_text(lf) + oz + label_text(le) && forall|v: int| #[trigger]
                branch_taken(br, 0, lf, v) == Some(v == 0),
{
    reveal(g_condition);
    let a = AstView::Condition(Box::new(x), Box::new(y), Box::new(z));
    if let Some((o, _)) = g_condition(c, st, a) {
        let (lf, l1) = next_label_of(st.label)->0;
        let (le, l2) = next_label_of(l1)->0;
        let (ox, s3) = g(c, with_label(st, l2), x)->0;
        let (oy, s4) = g(c, s3, y)->0;
        let (oz, s5) = g(c, s4, z)->0;
        let br = test_text(0) + je_text(lf);
        assert forall|v: int| #[trigger] branch_taken(br, 0, lf, v) == Some(v == 0) by {
            let h = pop_text("rax"@) + cmpl_text(0, "eax"@);
            reveal_strlit("  jne .L");
            reveal_strlit("  je .L");
            assert((h + "  jne .L"@ + usize_text(lf) + "\n"@)[h.len() + 3int] == 'n');
            assert(br[h.len() + 3int] == 'e');
        }
        assert(o == ox + br + oy + jmp_text(le) + label_text(lf) + oz + label_text(le));
    }
}

/// The code of `a && b`: each operand in turn, each followed by a branch to
/// the false label exactly when its value is 0; then 1 and a jump to the
/// end; at the false label 0; at the end the value is pushed.
#[verifier::spinoff_prover]
#[verifier::rlimit(50)]
pub proof fn law_logical_and_code(c: Ctx, st: GenState, x: AstView, y: AstView)
    ensures
        g_logical_and(c, st, AstView::LogicalAnd(Box::new(x), Box::new(y))) matches Some((o, _)) ==> exists|
            lf: usize,
            le: usize,
            ox: Seq<char>,
            oy: Seq<char>,
            b1: Seq<char>,
            b2: Seq<char>,
        |
            o == ox + b1 + oy + b2 + mov_imm_text("eax"@, 1) + jmp_text(le) + label_text(lf) + mov_imm_text("eax"@, 0)
                + label_text(le) + push_text("rax"@) && forall|v: int| #[trigger] branch_taken(b1, 0, lf, v) == Some(
                v == 0,
            ) && #[trigger] branch_taken(b2, 0, lf, v) == Some(v == 0),
{
    reveal(g_logical_and);
    let a = AstView::LogicalAnd(Box::new(x), Box::new(y));
    if let Some((o, _)) = g_logical_and(c, st, a) {
        let (lf, l1) = next_label_of(st.label)->0;
        let (le, l2) = next_label_of(l1)->0;
        let (ox, s3) = g(c, with_label(st, l2), x)->0;
        let (oy, s4) = g(c, s3, y)->0;
        let br = test_text(0) + je_text(lf);
        assert forall|v: int| #[trigger] branch_taken(br, 0, lf, v) == Some(v == 0) by {
            let h = pop_text("rax"@) + cmpl_text(0, "eax"@);
            reveal_strlit("  jne .L");
            reveal_strlit("  je .L");
            assert((h + "  jne .L"@ + usize_text(lf) + "\n"@)[h.len() + 3int] == 'n');
            assert(br[h.len() + 3int] == 'e');
        }
        assert(o == ox + br + oy + br + mov_imm_text("eax"@, 1) + jmp_text(le) + label_text(lf) + mov_imm_text(
            "eax"@,
            0,
        ) + label_text(le) + push_text("rax"@));
    }
}

/// The code of `a || b`: each operand in turn, each followed by a branch to
/// the true label exactly when its value is not 0; then 0 and a jump to
/// the end; at the true label 1; at the end the value is pushed.
#[verifier::spinoff_prover]
#[verifier::rlimit(50)]
pub proof fn law_logical_or_code(c: Ctx, st: GenState, x: AstView, y: AstView)
    ensures
        g_logical_or(c, st, AstView::LogicalOr(Box::new(x), Box::new(y))) matches Some((o, _)) ==> exists|
            lt: usize,
            le: usize,
            ox: Seq<char>,
            oy: Seq<char>,
            b1: Seq<char>,
            b2: Seq<char>,
        |
            o == ox + b1 + oy + b2 + mov_imm_text("eax"@, 0) + jmp_text(le) + label_text(lt) + mov_imm_text("eax"@, 1)
                + label_text(le) + push_text("rax"@) && forall|v: int| #[trigger] branch_taken(b1, 0, lt, v) == Some(
                v != 0,
            ) && #[trigger] branch_taken(b2, 0, lt, v) == Some(v != 0),
{
    reveal(g_logical_or);
    let a = AstView::LogicalOr(Box::new(x), Box::new(y));
    if let Some((o, _)) = g_logical_or(c, st, a) {
        let (lt, l1) = next_label_of(st.label)->0;
        let (le, l2) = next_label_of(l1)->0;
        let (ox, s3) = g(c, with_label(st, l2), x)->0;
        let (oy, s4) = g(c, s3, y)->0;
        let br = test_text(0) + jne_text(lt);
        assert forall|v: int| #[trigger] branch_taken(br, 0, lt, v) == Some(v != 0) by {}
        assert(o == ox + br + oy + br + mov_imm_text("eax"@, 0) + jmp_text(le) + label_text(lt) + mov_imm_text(
            "eax"@,
            1,
        ) + label_text(le) + push_text("rax"@));
    }
}

// ---------------------------------------------------------------------------
// The `continue` and `break` stacks.

/// A node with no `continue` or `break` anywhere in it.
pub open spec fn jump_free(a: AstView) -> bool
    decreases a, 1int,
{
    match a {
        AstView::Continue | AstView::Break => false,
        AstView::Statement(v) | AstView::Argment(v) => jump_free_seq(v),
        AstView::FuncDef(_, _, x, y) | AstView::While(x, y) | AstView::Do(x, y) | AstView::LogicalAnd(x, y)
        | AstView::LogicalOr(x, y) | AstView::BitAnd(x, y) | AstView::BitOr(x, y) | AstView::BitXor(x, y)
        | AstView::Equal(x, y) | AstView::NotEqual(x, y) | AstView::LessThan(x, y) | AstView::GreaterThan(x, y)
        | AstView::LessThanEqual(x, y) | AstView::GreaterThanEqual(x, y) | AstView::Plus(x, y)
        | AstView::Minus(x, y) | AstView::LeftShift(x, y) | AstView::RightShift(x, y) | AstView::Multiple(x, y)
        | AstView::Division(x, y) | AstView::Remainder(x, y) | AstView::Assign(x, y) | AstView::CallFunc(x, y) =>
            jump_free(*x) && jump_free(*y),
        AstView::If(x, y, z) => jump_free(*x) && jump_free(*y) && match z {
            Some(e) => jump_free(*e),
            None => true,
        },
        AstView::For(x, y, z, w) => (match x {
            Some(e) => jump_free(*e),
            None => true,
        }) && (match y {
            Some(e) => jump_free(*e),
            None => true,
        }) && (match z {
            Some(e) => jump_free(*e),
            None => true,
        }) && jump_free(*w),
        AstView::Condition(x, y, z) => jump_free(*x) && jump_free(*y) && jump_free(*z),
        AstView::Return(x) | AstView::UnPlus(x) | AstView::UnMinus(x) | AstView::Not(x) | AstView::BitReverse(x)
        | AstView::Address(x) | AstView::Indirect(x) | AstView::PostInc(x) | AstView::PostDec(x) => jump_free(*x),
        _ => true,
    }
}

/// Nodes with no `continue` or `break` in any of them.
pub open spec fn jump_free_seq(v: Seq<AstView>) -> bool
    decreases v, 0int,
{
    v.len() == 0 || (jump_free(v[0]) && jump_free_seq(v.drop_first()))
}

proof fn lemma_jump_free_seq(v: Seq<AstView>)
    ensures
        jump_free_seq(v) <==> forall|i: int| 0 <= i < v.len() ==> jump_free(#[trigger] v[i]),
    decreases v.len(),
{
    if v.len() > 0 {
        lemma_jump_free_seq(v.drop_first());
        if forall|i: int| 0 <= i < v.len() ==> jump_free(#[trigger] v[i]) {
            assert(jump_free(v[0]));
            assert forall|i: int| 0 <= i < v.drop_first().len() implies jump_free(#[trigger] v.drop_first()[i]) by {
                assert(v.drop_first()[i] == v[i + 1]);
                assert(jump_free(v[i + 1]));
            }
        }
        if jump_free_seq(v) {
            assert forall|i: int| 0 <= i < v.len() implies jump_free(#[trigger] v[i]) by {
                if i > 0 {
                    assert(v[i] == v.drop_first()[i - 1]);
                }
            }
        }
    }
}

/// Every label on the `continue` and `break` stacks was handed out already.
pub open spec fn stacks_fresh(l: LabelView) -> bool {
    &&& forall|i: int| 0 <= i < l.continue_labels.len() ==> #[trigger] l.continue_labels[i] <= l.label_no
    &&& forall|i: int| 0 <= i < l.break_labels.len() ==> #[trigger] l.break_labels[i] <= l.label_no
}

/// The stacks after generation are those before it.
pub open spec fn stacks_kept(st: GenState, r: Option<(Seq<char>, GenState)>) -> bool {
    r matches Some((_, s)) ==> s.label.continue_labels == st.label.continue_labels
        && s.label.break_labels == st.label.break_labels
}

/// A state whose stacks are those of `st`, with a counter no lower, keeps
/// the stacks fresh.
proof fn lemma_fresh_later(st: GenState, s: GenState)
    requires
        stacks_fresh(st.label),
        s.label.continue_labels == st.label.continue_labels,
        s.label.break_labels == st.label.break_labels,
        s.label.label_no >= st.label.label_no,
    ensures
        stacks_fresh(s.label),
{
}

/// Pushing the labels just handed out keeps the stacks fresh, and removing
/// them afterwards gives back the stacks as they were.
proof fn lemma_loop_stacks(l: LabelView, lc: usize, le: usize, l3: LabelView, s: GenState)
    requires
        stacks_fresh(l),
        l.label_no < lc <= l3.label_no,
        l.label_no < le <= l3.label_no,
        l3.continue_labels == l.continue_labels,
        l3.break_labels == l.break_labels,
        s.label.continue_labels == l.continue_labels.push(lc),
        s.label.break_labels == l.break_labels.push(le),
    ensures
        stacks_fresh(push_break_of(push_continue_of(l3, lc), le)),
        remove_break_of(remove_continue_of(s.label, lc), le).continue_labels == l.continue_labels,
        remove_break_of(remove_continue_of(s.label, lc), le).break_labels == l.break_labels,
{
    let l4 = push_break_of(push_continue_of(l3, lc), le);
    assert forall|i: int| 0 <= i < l4.continue_labels.len() implies #[trigger] l4.continue_labels[i] <= l4.label_no by {
        if i < l.continue_labels.len() {
            assert(l4.continue_labels[i] == l.continue_labels[i]);
        }
    }
    assert forall|i: int| 0 <= i < l4.break_labels.len() implies #[trigger] l4.break_labels[i] <= l4.label_no by {
        if i < l.break_labels.len() {
            assert(l4.break_labels[i] == l.break_labels[i]);
        }
    }
    assert(!l.continue_labels.contains(lc)) by {
        if l.continue_labels.contains(lc) {
            let i = choose|i: int| 0 <= i < l.continue_labels.len() && l.continue_labels[i] == lc;
            assert(l.continue_labels[i] <= l.label_no);
        }
    }
    assert(!l.break_labels.contains(le)) by {
        if l.break_labels.contains(le) {
            let i = choose|i: int| 0 <= i < l.break_labels.len() && l.break_labels[i] == le;
            assert(l.break_labels[i] <= l.label_no);
        }
    }
    law_remove_after_push(LabelView { continue_labels: l.continue_labels, break_labels: l.break_labels, ..s.label }, lc);
    law_remove_after_push(LabelView { continue_labels: l.continue_labels, break_labels: l.break_labels, ..s.label }, le);
}

/// Generating a node with no `continue` or `break` leaves the `continue`
/// and `break` stacks as they were: every loop takes its labels off again.
#[verifier::spinoff_prover]
#[verifier::rlimit(50)]
pub proof fn law_stacks_restored(c: Ctx, st: GenState, a: AstView)
    requires
        jump_free(a),
        stacks_fresh(st.label),
    ensures
        stacks_kept(st, g(c, st, a)),
    decreases a, 2int,
{
    match a {
        AstView::FuncDef(..) => lemma_stacks_func_def(c, st, a),
        AstView::Statement(..) => lemma_stacks_statement(c, st, a),
        AstView::While(..) => lemma_stacks_while(c, st, a),
        AstView::Do(..) => lemma_stacks_do(c, st, a),
        AstView::If(..) => lemma_stacks_if(c, st, a),
        AstView::For(..) => lemma_stacks_for(c, st, a),
        AstView::Return(..) => lemma_stacks_return(c, st, a),
        AstView::LogicalAnd(..) => lemma_stacks_logical(c, st, a),
        AstView::LogicalOr(..) => lemma_stacks_logical(c, st, a),
        AstView::Condition(..) => lemma_stacks_condition(c, st, a),
        AstView::UnPlus(..) | AstView::UnMinus(..) | AstView::Not(..) | AstView::BitReverse(..) | AstView::Indirect(..) => lemma_stacks_unary(c, st, a),
        AstView::Assign(..) => lemma_stacks_assign(c, st, a),
        AstView::CallFunc(..) => lemma_stacks_call_func(c, st, a),
        AstView::Plus(..) | AstView::Minus(..) | AstView::Multiple(..) | AstView::Division(..)
        | AstView::Remainder(..) | AstView::Equal(..) | AstView::NotEqual(..) | AstView::LessThan(..)
        | AstView::GreaterThan(..) | AstView::LessThanEqual(..) | AstView::GreaterThanEqual(..)
        | AstView::LeftShift(..) | AstView::RightShift(..) | AstView::BitAnd(..) | AstView::BitOr(..)
        | AstView::BitXor(..) => lemma_stacks_binary(c, st, a),
        AstView::Global(..) => reveal(g_global),
        AstView::Factor(..) => reveal(g_factor),
        AstView::Variable(..) => reveal(g_variable),
        AstView::PostInc(..) => reveal(g_post_inc),
        AstView::PostDec(..) => reveal(g_post_dec),
        AstView::Address(..) => reveal(g_address),
        _ => {},
    }
}

/// Two nodes generated one after the other keep the stacks.
proof fn lemma_stacks_pair(c: Ctx, st: GenState, a: AstView, x: AstView, y: AstView)
    requires
        decreases_to!(a => x),
        decreases_to!(a => y),
        jump_free(x),
        jump_free(y),
        stacks_fresh(st.label),
    ensures
        stacks_kept(st, g(c, st, x)),
        g(c, st, x) matches Some((_, s1)) ==> stacks_fresh(s1.label) && stacks_kept(s1, g(c, s1, y)),
    decreases a, 0int,
{
    law_stacks_restored(c, st, x);
    law_counter_never_decreases(c, st, x);
    if let Some((_, s1)) = g(c, st, x) {
        lemma_fresh_later(st, s1);
        law_stacks_restored(c, s1, y);
    }
}

proof fn lemma_stacks_func_def(c: Ctx, st: GenState, a: AstView)
    requires
        jump_free(a),
        stacks_fresh(st.label),
    ensures
        stacks_kept(st, g_func_def(c, st, a)),
    decreases a, 1int,
{
    reveal_with_fuel(jump_free, 2);
    reveal(g_func_def);
    if let AstView::FuncDef(_, name, x, y) = a {
        if let Some((rl, l1)) = next_return_label_of(st.label) {
            if let AstView::Statement(body) = *y {
                assert(decreases_to!(a => body)) by {
                    assert(decreases_to!(a => *y));
                }
                lemma_jump_free_seq(body);
                lemma_stacks_block(c, GenState { label: l1 }, body);
            }
        }
    }
}

proof fn lemma_stacks_statement(c: Ctx, st: GenState, a: AstView)
    requires
        jump_free(a),
        stacks_fresh(st.label),
    ensures
        stacks_kept(st, g_statement(c, st, a)),
    decreases a, 1int,
{
    reveal(g_statement);
    if let AstView::Statement(v) = a {
        lemma_jump_free_seq(v);
        lemma_stacks_block(c, st, v);
    }
}

/// The statements of a block keep the stacks.
proof fn lemma_stacks_block(c: Ctx, st: GenState, v: Seq<AstView>)
    requires
        forall|i: int| 0 <= i < v.len() ==> jump_free(#[trigger] v[i]),
        stacks_fresh(st.label),
    ensures
        stacks_kept(st, g_stmts(c, st, v)),
    decreases v, 0int,
{
    if v.len() > 0 {
        law_stacks_restored(c, st, v[0]);
        law_counter_never_decreases(c, st, v[0]);
        if let Some((_, s1)) = g(c, st, v[0]) {
            lemma_fresh_later(st, s1);
            assert forall|i: int| 0 <= i < v.drop_first().len() implies jump_free(#[trigger] v.drop_first()[i]) by {
                assert(v.drop_first()[i] == v[i + 1]);
            }
            lemma_stacks_block(c, s1, v.drop_first());
        }
    }
}

/// The arguments of a call keep the stacks.
proof fn lemma_stacks_args(c: Ctx, st: GenState, v: Seq<AstView>)
    requires
        forall|i: int| 0 <= i < v.len() ==> jump_free(#[trigger] v[i]),
        stacks_fresh(st.label),
    ensures
        stacks_kept(st, g_args_rev(c, st, v)),
    decreases v, 0int,
{
    if v.len() > 0 {
        assert(jump_free(v[v.len() - 1]));
        law_stacks_restored(c, st, v.last());
        law_counter_never_decreases(c, st, v.last());
        if let Some((_, s1)) = g(c, st, v.last()) {
            lemma_fresh_later(st, s1);
            assert forall|i: int| 0 <= i < v.drop_last().len() implies jump_free(#[trigger] v.drop_last()[i]) by {
                assert(v.drop_last()[i] == v[i]);
            }
            lemma_stacks_args(c, s1, v.drop_last());
        }
    }
}

proof fn lemma_stacks_while(c: Ctx, st: GenState, a: AstView)
    requires
        jump_free(a),
        stacks_fresh(st.label),
    ensures
        stacks_kept(st, g_while(c, st, a)),
    decreases a, 1int,
{
    reveal(g_while);
    if let AstView::While(x, y) = a {
        if let Some((lb, l1)) = next_label_of(st.label) {
            if let Some((le, l2)) = next_label_of(l1) {
                let s2 = with_label(st, push_break_of(push_continue_of(l2, lb), le));
                lemma_loop_stacks(st.label, lb, le, l2, s2);
                lemma_stacks_pair(c, s2, a, *x, *y);
                if let Some((_, s3)) = g(c, s2, *x) {
                    if let Some((_, s4)) = g(c, s3, *y) {
                        lemma_loop_stacks(st.label, lb, le, l2, s4);
                    }
                }
            }
        }
    }
}

proof fn lemma_stacks_do(c: Ctx, st: GenState, a: AstView)
    requires
        jump_free(a),
        stacks_fresh(st.label),
    ensures
        stacks_kept(st, g_do(c, st, a)),
    decreases a, 1int,
{
    reveal(g_do);
    if let AstView::Do(x, y) = a {
        if let Some((lb, l1)) = next_label_of(st.label) {
            if let Some((lc, l2)) = next_label_of(l1) {
                if let Some((le, l3)) = next_label_of(l2) {
                    let s3 = with_label(st, push_break_of(push_continue_of(l3, lc), le));
                    lemma_loop_stacks(st.label, lc, le, l3, s3);
                    lemma_stacks_pair(c, s3, a, *x, *y);
                    if let Some((_, s4)) = g(c, s3, *x) {
                        if let Some((_, s5)) = g(c, s4, *y) {
                            lemma_loop_stacks(st.label, lc, le, l3, s5);
                        }
                    }
                }
            }
        }
    }
}

proof fn lemma_stacks_if(c: Ctx, st: GenState, a: AstView)
    requires
        jump_free(a),
        stacks_fresh(st.label),
    ensures
        stacks_kept(st, g_if(c, st, a)),
    decreases a, 1int,
{
    reveal(g_if);
    if let AstView::If(x, y, z) = a {
        if let Some((le, l1)) = next_label_of(st.label) {
            let s1 = with_label(st, l1);
            lemma_fresh_later(st, s1);
            match z {
                Some(e) => {
                    law_stacks_restored(c, s1, *x);
                    law_counter_never_decreases(c, s1, *x);
                    if let Some((_, s2)) = g(c, s1, *x) {
                        lemma_fresh_later(s1, s2);
                        if let Some((li, l3)) = next_label_of(s2.label) {
                            assert(decreases_to!(a => *e)) by {
                                assert(decreases_to!(a => z));
                            }
                            let s3 = with_label(s2, l3);
                            lemma_fresh_later(s2, s3);
                            lemma_stacks_pair(c, s3, a, *e, *y);
                        }
                    }
                },
                None => lemma_stacks_pair(c, s1, a, *x, *y),
            }
        }
    }
}

proof fn lemma_stacks_for(c: Ctx, st: GenState, a: AstView)
    requires
        jump_free(a),
        stacks_fresh(st.label),
    ensures
        stacks_kept(st, g_for(c, st, a)),
    decreases a, 1int,
{
    reveal(g_for);
    if let AstView::For(x, y, z, w) = a {
        if let Some((lb, l1)) = next_label_of(st.label) {
            if let Some((lc, l2)) = next_label_of(l1) {
                if let Some((le, l3)) = next_label_of(l2) {
                    let s3 = with_label(st, push_break_of(push_continue_of(l3, lc), le));
                    lemma_loop_stacks(st.label, lc, le, l3, s3);
                    let init = match x {
                        Some(e) => match g(c, s3, *e) {
                            Some((o, s)) => Some((o + pop_text("rax"@), s)),
                            None => None,
                        },
                        None => Some((Seq::empty(), s3)),
                    };
                    if let Some(e) = x {
                        assert(decreases_to!(a => *e)) by {
                            assert(decreases_to!(a => x));
                        }
                        law_stacks_restored(c, s3, *e);
                        law_counter_never_decreases(c, s3, *e);
                    }
                    if let Some((_, s4)) = init {
                        lemma_fresh_later(s3, s4);
                        let cond = match y {
                            Some(e) => match g(c, s4, *e) {
                                Some((o, s)) => Some((o + test_text(0) + je_text(le), s)),
                                None => None,
                            },
                            None => Some((Seq::empty(), s4)),
                        };
                        if let Some(e) = y {
                            assert(decreases_to!(a => *e)) by {
                                assert(decreases_to!(a => y));
                            }
                            law_stacks_restored(c, s4, *e);
                            law_counter_never_decreases(c, s4, *e);
                        }
                        if let Some((_, s5)) = cond {
                            lemma_fresh_later(s3, s5);
                            law_stacks_restored(c, s5, *w);
                            law_counter_never_decreases(c, s5, *w);
                            if let Some((_, s6)) = g(c, s5, *w) {
                                lemma_fresh_later(s3, s6);
                                if let Some(e) = z {
                                    assert(decreases_to!(a => *e)) by {
                                        assert(decreases_to!(a => z));
                                    }
                                    law_stacks_restored(c, s6, *e);
                                    law_counter_never_decreases(c, s6, *e);
                                    if let Some((_, s7)) = g(c, s6, *e) {
                                        lemma_loop_stacks(st.label, lc, le, l3, s7);
                                    }
                                } else {
                                    lemma_loop_stacks(st.label, lc, le, l3, s6);
                                }
                            }
                        }
                    }
                }
            }
        }
    }
}

proof fn lemma_stacks_return(c: Ctx, st: GenState, a: AstView)
    requires
        jump_free(a),
        stacks_fresh(st.label),
    ensures
        stacks_kept(st, g_return(c, st, a)),
    decreases a, 1int,
{
    reveal(g_return);
    if let AstView::Return(x) = a {
        law_stacks_restored(c, st, *x);
    }
}

proof fn lemma_stacks_logical(c: Ctx, st: GenState, a: AstView)
    requires
        jump_free(a),
        stacks_fresh(st.label),
    ensures
        stacks_kept(st, g_logical_and(c, st, a)),
        stacks_kept(st, g_logical_or(c, st, a)),
    decreases a, 1int,
{
    reveal(g_logical_and);
    reveal(g_logical_or);
    match a {
        AstView::LogicalAnd(x, y) | AstView::LogicalOr(x, y) => {
            if let Some((lf, l1)) = next_label_of(st.label) {
                if let Some((le, l2)) = next_label_of(l1) {
                    let s2 = with_label(st, l2);
                    lemma_fresh_later(st, s2);
                    lemma_stacks_pair(c, s2, a, *x, *y);
                }
            }
        },
        _ => {},
    }
}

proof fn lemma_stacks_condition(c: Ctx, st: GenState, a: AstView)
    requires
        jump_free(a),
        stacks_fresh(st.label),
    ensures
        stacks_kept(st, g_condition(c, st, a)),
    decreases a, 1int,
{
    reveal(g_condition);
    if let AstView::Condition(x, y, z) = a {
        if let Some((lf, l1)) = next_label_of(st.label) {
            if let Some((le, l2)) = next_label_of(l1) {
                let s2 = with_label(st, l2);
                lemma_fresh_later(st, s2);
                lemma_stacks_pair(c, s2, a, *x, *y);
                if let Some((_, s3)) = g(c, s2, *x) {
                    law_counter_never_decreases(c, s3, *y);
                    if let Some((_, s4)) = g(c, s3, *y) {
                        lemma_fresh_later(s3, s4);
                        law_stacks_restored(c, s4, *z);
                    }
                }
            }
        }
    }
}

proof fn lemma_stacks_unary(c: Ctx, st: GenState, a: AstView)
    requires
        jump_free(a),
        stacks_fresh(st.label),
    ensures
        stacks_kept(st, g_unary(c, st, a)),
    decreases a, 1int,
{
    reveal(g_unary);
    match a {
        AstView::UnPlus(x) | AstView::UnMinus(x) | AstView::Not(x) | AstView::BitReverse(x) | AstView::Indirect(x) =>
            law_stacks_restored(c, st, *x),
        _ => {},
    }
}

proof fn lemma_stacks_assign(c: Ctx, st: GenState, a: AstView)
    requires
        jump_free(a),
        stacks_fresh(st.label),
    ensures
        stacks_kept(st, g_assign(c, st, a)),
    decreases a, 1int,
{
    reveal_with_fuel(jump_free, 2);
    reveal(g_assign);
    if let AstView::Assign(x, y) = a {
        match *x {
            AstView::Indirect(z) => {
                assert(decreases_to!(a => *z)) by {
                    assert(decreases_to!(a => *x));
                }
                lemma_stacks_pair(c, st, a, *z, *y);
            },
            _ => law_stacks_restored(c, st, *y),
        }
    }
}

proof fn lemma_stacks_call_func(c: Ctx, st: GenState, a: AstView)
    requires
        jump_free(a),
        stacks_fresh(st.label),
    ensures
        stacks_kept(st, g_call_func(c, st, a)),
    decreases a, 1int,
{
    reveal_with_fuel(jump_free, 2);
    reveal(g_call_func);
    if let AstView::CallFunc(x, y) = a {
        if let AstView::Argment(v) = *y {
            assert(decreases_to!(a => v)) by {
                assert(decreases_to!(a => *y));
            }
            lemma_jump_free_seq(v);
            lemma_stacks_args(c, st, v);
        }
    }
}

proof fn lemma_stacks_binary(c: Ctx, st: GenState, a: AstView)
    requires
        jump_free(a),
        stacks_fresh(st.label),
    ensures
        stacks_kept(st, g_binary(c, st, a)),
    decreases a, 1int,
{
    reveal(g_binary);
    match a {
        AstView::Plus(x, y) | AstView::Minus(x, y) | AstView::Multiple(x, y) | AstView::Division(x, y)
        | AstView::Remainder(x, y) | AstView::Equal(x, y) | AstView::NotEqual(x, y) | AstView::LessThan(x, y)
        | AstView::GreaterThan(x, y) | AstView::LessThanEqual(x, y) | AstView::GreaterThanEqual(x, y)
        | AstView::LeftShift(x, y) | AstView::RightShift(x, y) | AstView::BitAnd(x, y) | AstView::BitOr(x, y)
        | AstView::BitXor(x, y) => lemma_stacks_pair(c, st, a, *x, *y),
        _ => {},
    }
}

/// The text of two operands in order, followed by `tail`.
pub open spec fn both(c: Ctx, st: GenState, x: AstView, y: AstView, tail: Seq<char>) -> Option<(Seq<char>, GenState)> {
    match g(c, st, x) {
        None => None,
        Some((ox, s1)) => match g(c, s1, y) {
            None => None,
            Some((oy, s2)) => Some((ox + oy + tail, s2)),
        },
    }
}

/// `r` with `p` in front of its text.
pub open spec fn prepend(p: Seq<char>, r: Option<(Seq<char>, GenState)>) -> Option<(Seq<char>, GenState)> {
    match r {
        Some((o, s)) => Some((p + o, s)),
        None => None,
    }
}

proof fn lemma_prepend(p: Seq<char>, q: Seq<char>, r: Option<(Seq<char>, GenState)>)
    ensures
        prepend(p, prepend(q, r)) == prepend(p + q, r),
{
    if let Some((o, s)) = r {
        assert(p + (q + o) =~= (p + q) + o);
    }
}

/// The children of a node are below it.
proof fn lemma_children(n: AstView)
    ensures
        n matches AstView::While(x, y) ==> decreases_to!(n => *x) && decreases_to!(n => *y),
        n matches AstView::Do(x, y) ==> decreases_to!(n => *x) && decreases_to!(n => *y),
        n matches AstView::If(x, y, z) ==> decreases_to!(n => *x) && decreases_to!(n => *y) && (z matches Some(e)
            ==> decreases_to!(n => *e)),
        n matches AstView::For(x, y, z, w) ==> decreases_to!(n => *w) && (x matches Some(e) ==> decreases_to!(n => *e))
            && (y matches Some(e) ==> decreases_to!(n => *e)) && (z matches Some(e) ==> decreases_to!(n => *e)),
        n matches AstView::Return(x) ==> decreases_to!(n => *x),
        n matches AstView::FuncDef(_, _, x, y) ==> decreases_to!(n => *x) && decreases_to!(n => *y),
        n matches AstView::CallFunc(x, y) ==> decreases_to!(n => *x) && decreases_to!(n => *y),
        n matches AstView::Condition(x, y, z) ==> decreases_to!(n => *x) && decreases_to!(n => *y) && decreases_to!(n => *z),
        n matches AstView::LogicalAnd(x, y) ==> decreases_to!(n => *x) && decreases_to!(n => *y),
        n matches AstView::LogicalOr(x, y) ==> decreases_to!(n => *x) && decreases_to!(n => *y),
        n matches AstView::UnPlus(x) ==> decreases_to!(n => *x),
        n matches AstView::UnMinus(x) ==> decreases_to!(n => *x),
        n matches AstView::Not(x) ==> decreases_to!(n => *x),
        n matches AstView::BitReverse(x) ==> decreases_to!(n => *x),
        n matches AstView::Indirect(x) ==> decreases_to!(n => *x),
        n matches AstView::Assign(x, y) ==> decreases_to!(n => *y) && (*x matches AstView::Indirect(z) ==> decreases_to!(n => *z)),
        is_binary(n) ==> (n matches AstView::Plus(x, y) ==> decreases_to!(n => *x) && decreases_to!(n => *y))
            && (n matches AstView::Minus(x, y) ==> decreases_to!(n => *x) && decreases_to!(n => *y)),
        (n matches AstView::Multiple(x, y) || n matches AstView::Division(x, y) || n matches AstView::Remainder(x, y)
            || n matches AstView::Equal(x, y) || n matches AstView::NotEqual(x, y) || n matches AstView::LessThan(x, y)
            || n matches AstView::GreaterThan(x, y) || n matches AstView::LessThanEqual(x, y)
            || n matches AstView::GreaterThanEqual(x, y) || n matches AstView::LeftShift(x, y)
            || n matches AstView::RightShift(x, y) || n matches AstView::BitAnd(x, y) || n matches AstView::BitOr(x, y)
            || n matches AstView::BitXor(x, y)) ==> true,
{
    match n {
        AstView::While(x, y) | AstView::Do(x, y) | AstView::LogicalAnd(x, y) | AstView::LogicalOr(x, y)
        | AstView::Plus(x, y) | AstView::Minus(x, y) | AstView::FuncDef(_, _, x, y) | AstView::CallFunc(x, y) => {
            assert(decreases_to!(n => x));
            assert(decreases_to!(n => y));
        },
        AstView::If(x, y, z) => {
            assert(decreases_to!(n => x));
            assert(decreases_to!(n => y));
            if let Some(e) = z {
                assert(decreases_to!(n => z));
                assert(decreases_to!(z => e));
            }
        },
        AstView::For(x, y, z, w) => {
            assert(decreases_to!(n => w));
            if let Some(e) = x {
                assert(decreases_to!(n => x));
                assert(decreases_to!(x => e));
            }
            if let Some(e) = y {
                assert(decreases_to!(n => y));
                assert(decreases_to!(y => e));
            }
            if let Some(e) = z {
                assert(decreases_to!(n => z));
                assert(decreases_to!(z => e));
            }
        },
        AstView::Condition(x, y, z) => {
            assert(decreases_to!(n => x));
            assert(decreases_to!(n => y));
            assert(decreases_to!(n => z));
        },
        AstView::Return(x) | AstView::UnPlus(x) | AstView::UnMinus(x) | AstView::Not(x) | AstView::BitReverse(x)
        | AstView::Indirect(x) => {
            assert(decreases_to!(n => x));
        },
        AstView::Assign(x, y) => {
            assert(decreases_to!(n => y));
            if let AstView::Indirect(z) = *x {
                assert(decreases_to!(n => x));
                assert(decreases_to!(x => z));
            }
        },
        _ => {},
    }
}

/// `n` is a binary node with operands `a` and `b`.
pub open spec fn operands(n: AstView, a: AstView, b: AstView) -> bool {
    n == AstView::Plus(Box::new(a), Box::new(b)) || n == AstView::Minus(Box::new(a), Box::new(b))
        || n == AstView::Multiple(Box::new(a), Box::new(b)) || n == AstView::Division(Box::new(a), Box::new(b))
        || n == AstView::Remainder(Box::new(a), Box::new(b)) || n == AstView::Equal(Box::new(a), Box::new(b))
        || n == AstView::NotEqual(Box::new(a), Box::new(b)) || n == AstView::LessThan(Box::new(a), Box::new(b))
        || n == AstView::GreaterThan(Box::new(a), Box::new(b)) || n == AstView::LessThanEqual(Box::new(a), Box::new(b))
        || n == AstView::GreaterThanEqual(Box::new(a), Box::new(b)) || n == AstView::LeftShift(Box::new(a), Box::new(b))
        || n == AstView::RightShift(Box::new(a), Box::new(b)) || n == AstView::BitAnd(Box::new(a), Box::new(b))
        || n == AstView::BitOr(Box::new(a), Box::new(b)) || n == AstView::BitXor(Box::new(a), Box::new(b))
}

/// The operands of a binary node are below it.
proof fn lemma_operands(n: AstView, a: AstView, b: AstView)
    requires
        is_binary(n),
        n == AstView::Plus(Box::new(a), Box::new(b)) || n == AstView::Minus(Box::new(a), Box::new(b))
            || n == AstView::Multiple(Box::new(a), Box::new(b)) || n == AstView::Division(Box::new(a), Box::new(b))
            || n == AstView::Remainder(Box::new(a), Box::new(b)) || n == AstView::Equal(Box::new(a), Box::new(b))
            || n == AstView::NotEqual(Box::new(a), Box::new(b)) || n == AstView::LessThan(Box::new(a), Box::new(b))
            || n == AstView::GreaterThan(Box::new(a), Box::new(b)) || n == AstView::LessThanEqual(
            Box::new(a),
            Box::new(b),
        ) || n == AstView::GreaterThanEqual(Box::new(a), Box::new(b)) || n == AstView::LeftShift(
            Box::new(a),
            Box::new(b),
        ) || n == AstView::RightShift(Box::new(a), Box::new(b)) || n == AstView::BitAnd(Box::new(a), Box::new(b))
            || n == AstView::BitOr(Box::new(a), Box::new(b)) || n == AstView::BitXor(Box::new(a), Box::new(b)),
    ensures
        decreases_to!(n => a),
        decreases_to!(n => b),
{
    match n {
        AstView::Plus(x, y) | AstView::Minus(x, y) | AstView::Multiple(x, y) | AstView::Division(x, y)
        | AstView::Remainder(x, y) | AstView::Equal(x, y) | AstView::NotEqual(x, y) | AstView::LessThan(x, y)
        | AstView::GreaterThan(x, y) | AstView::LessThanEqual(x, y) | AstView::GreaterThanEqual(x, y)
        | AstView::LeftShift(x, y) | AstView::RightShift(x, y) | AstView::BitAnd(x, y) | AstView::BitOr(x, y)
        | AstView::BitXor(x, y) => {
            assert(decreases_to!(n => x));
            assert(decreases_to!(n => y));
        },
        _ => {},
    }
}

/// The elements of a block or argument list are below it.
proof fn lemma_elements(v: Seq<AstView>, i: int)
    requires
        0 <= i < v.len(),
    ensures
        decreases_to!(AstView::Statement(v) => v[i]),
        decreases_to!(AstView::Argment(v) => v[i]),
{
    let n = AstView::Statement(v);
    if let AstView::Statement(w) = n {
        assert(decreases_to!(n => w));
        assert(decreases_to!(w => w[i]));
    }
    let m = AstView::Argment(v);
    if let AstView::Argment(w) = m {
        assert(decreases_to!(m => w));
        assert(decreases_to!(w => w[i]));
    }
}

/// The registers of the first six arguments.
fn arg_register(i: usize) -> (r: &'static str)
    requires
        i < 6,
    ensures
        r@ == arg_reg(i as int),
{
    if i == 0 {
        "rdi"
    } else if i == 1 {
        "rsi"
    } else if i == 2 {
        "rdx"
    } else if i == 3 {
        "rcx"
    } else if i == 4 {
        "r8"
    } else {
        "r9"
    }
}

/// The slot of a symbol, if its offset fits in `i64`.
fn slot_of(sym: &Symbol) -> (r: Option<i64>)
    ensures
        r == slot(sym@),
{
    let p: u64 = sym.pos as u64;
    if p <= 1152921504606846975u64 {
        Some((p * 8) as i64)
    } else {
        None
    }
}

/// `-n` for a non-negative `n`.
fn negate(n: i64) -> (r: i64)
    requires
        n >= 0,
    ensures
        r == negated(n),
{
    -n
}

/// Array bytes as the generator computes them.
fn array_bytes_of(n: usize) -> (r: Option<i64>)
    ensures
        r == array_bytes(n),
{
    #[verifier::truncate]
    let num: i64 = n as i64;
    num.checked_mul(8)
}

/// Generates assembly from a syntax tree, given the symbol tables built by
/// the semantic analysis.
pub struct Asm<'a> {
    inst: String,
    global_table: &'a SymbolTable,
    var_table: &'a SymbolTable,
    func_table: &'a SymbolTable,
    label: Label,
    config: Config,
}

impl<'a> Asm<'a> {
    /// What generation reads.
    pub closed spec fn ctx(&self) -> Ctx {
        Ctx { globals: self.global_table@, vars: self.var_table@, funcs: self.func_table@, mac: self.config.mac }
    }

    /// The labels.
    pub closed spec fn st(&self) -> GenState {
        GenState { label: self.label@ }
    }

    /// The assembly so far.
    pub closed spec fn text(&self) -> Seq<char> {
        self.inst@
    }

    pub closed spec fn same_ctx(&self, other: &Self) -> bool {
        &&& self.global_table == other.global_table
        &&& self.var_table == other.var_table
        &&& self.func_table == other.func_table
        &&& self.config == other.config
    }

    /// From `self` to `after` the text grew by what `res` gives and the
    /// state became its state; on `None`, `ok` is false.
    pub closed spec fn emitted(&self, after: &Self, res: Option<(Seq<char>, GenState)>, ok: bool) -> bool {
        &&& after.same_ctx(self)
        &&& match res {
            Some((o, s)) => ok && after.inst@ =~= self.inst@ + o && after.st() == s,
            None => !ok,
        }
    }

    pub fn new(global_table: &'a SymbolTable, var_table: &'a SymbolTable, func_table: &'a SymbolTable, config: Config) -> (r: Asm<'a>)
        ensures
            r.ctx() == (Ctx { globals: global_table@, vars: var_table@, funcs: func_table@, mac: config.mac }),
            r.st() == (GenState { label: first_labels() }),
            r.text() == Seq::<char>::empty(),
    {
        Asm {
            inst: String::new(),
            global_table: global_table,
            var_table: var_table,
            func_table: func_table,
            label: Label::new(),
            config: config,
        }
    }

    fn gen_asm(&self) -> X64 {
        X64
    }

    /// The assembly generated so far.
    pub fn get_inst(&self) -> (r: String)
        ensures
            r@ == self.text(),
    {
        self.inst.clone()
    }

    fn emit(&mut self, s: String)
        ensures
            final(self).inst@ == old(self).inst@ + s@,
            final(self).same_ctx(old(self)),
            final(self).st() == old(self).st(),
    {
        append(&mut self.inst, s.as_str());
    }

    /// Defines label `no`.
    fn generate_label_inst(&mut self, no: usize)
        ensures
            final(self).inst@ == old(self).inst@ + label_text(no),
            final(self).same_ctx(old(self)),
            final(self).st() == old(self).st(),
    {
        let t = self.gen_asm().label(no);
        self.emit(t);
    }

    fn generate_jmp_inst(&mut self, no: usize)
        ensures
            final(self).inst@ == old(self).inst@ + jmp_text(no),
            final(self).same_ctx(old(self)),
            final(self).st() == old(self).st(),
    {
        let t = self.gen_asm().jmp(no);
        self.emit(t);
    }

    fn generate_je_inst(&mut self, no: usize)
        ensures
            final(self).inst@ == old(self).inst@ + je_text(no),
            final(self).same_ctx(old(self)),
            final(self).st() == old(self).st(),
    {
        let t = self.gen_asm().je(no);
        self.emit(t);
    }

    fn generate_jne_inst(&mut self, no: usize)
        ensures
            final(self).inst@ == old(self).inst@ + jne_text(no),
            final(self).same_ctx(old(self)),
            final(self).st() == old(self).st(),
    {
        let t = self.gen_asm().jne(no);
        self.emit(t);
    }

    /// Compares register `r` with `f`.
    fn generate_cmp_inst(&mut self, f: usize, r: &str)
        ensures
            final(self).inst@ == old(self).inst@ + cmpl_text(f, r@),
            final(self).same_ctx(old(self)),
            final(self).st() == old(self).st(),
    {
        let t = self.gen_asm().cmpl(f, r);
        self.emit(t);
    }

    /// Pops a condition and compares it with `f`.
    fn generate_test(&mut self, f: usize)
        ensures
            final(self).inst@ == old(self).inst@ + test_text(f),
            final(self).same_ctx(old(self)),
            final(self).st() == old(self).st(),
    {
        let t = self.gen_asm().pop("rax");
        self.emit(t);
        self.generate_cmp_inst(f, "eax");
    }

    /// Whether a fresh label can be made.
    fn can_label(&self) -> (r: bool)
        ensures
            r == next_label_of(self.label@) is Some,
    {
        self.label.label_no < usize::MAX
    }

    /// Pushes a number.
    fn generate_factor(&mut self, a: i64)
        ensures
            final(self).inst@ == old(self).inst@ + factor_text(a),
            final(self).same_ctx(old(self)),
            final(self).st() == old(self).st(),
    {
        let t = self.gen_asm().sub_imm(8, "rsp");
        self.emit(t);
        let mut m = lit("  movq $");
        let n = i64_to_string(a);
        append(&mut m, n.as_str());
        append(&mut m, ", (%rsp)\n");
        self.emit(m);
        let t = self.gen_asm().mov_imm_dst("rsp", a, 0);
        self.emit(t);
    }

    /// The symbol of function `s`.
    fn generate_func_symbol(&self, s: &String) -> (r: String)
        ensures
            r@ == func_symbol(self.ctx(), s@),
    {
        if self.config.mac {
            let mut r = lit("_");
            append(&mut r, s.as_str());
            r
        } else {
            s.clone()
        }
    }

    /// The frame size of a function.
    fn frame_size_of(&self) -> (r: Option<usize>)
        ensures
            r == frame_size(self.ctx()),
    {
        let n = self.var_table.count_all();
        match n.checked_mul(8) {
            Some(m) => m.checked_add(8),
            None => None,
        }
    }

    fn emit_pop(&mut self, reg: &str)
        ensures
            final(self).inst@ == old(self).inst@ + pop_text(reg@),
            final(self).same_ctx(old(self)),
            final(self).st() == old(self).st(),
    {
        let t = self.gen_asm().pop(reg);
        self.emit(t);
    }

    fn emit_push(&mut self, reg: &str)
        ensures
            final(self).inst@ == old(self).inst@ + push_text(reg@),
            final(self).same_ctx(old(self)),
            final(self).st() == old(self).st(),
    {
        let t = self.gen_asm().push(reg);
        self.emit(t);
    }

    /// Generates every item of the tree in order; `false` where generation
    /// fails.
    #[verifier::spinoff_prover]
    #[verifier::rlimit(100)]
    pub fn run(&mut self, tree: &AstTree) -> (ok: bool)
        ensures
            old(self).emitted(final(self), g_items(old(self).ctx(), old(self).st(), seq_view(tree.tree@)), ok),
            match g_items(old(self).ctx(), old(self).st(), seq_view(tree.tree@)) {
                Some((o, s)) => ok && final(self).text() == old(self).text() + o && final(self).st() == s
                    && final(self).ctx() == old(self).ctx(),
                None => !ok,
            },
    {
        let items = tree.get_tree();
        let ghost sv = seq_view(items@);
        let ghost c = self.ctx();
        let ghost all = g_items(c, self.st(), sv);
        let ghost inst0 = self.inst@;
        let ghost mut out: Seq<char> = Seq::empty();
        let mut i: usize = 0;
        assert(sv.subrange(0, sv.len() as int) =~= sv);
        assert(inst0 + out =~= inst0);
        assert(prepend(out, all) == all) by {
            if let Some((o, s)) = all {
                assert(out + o =~= o);
            }
        }
        while i < items.len()
            invariant
                i <= items@.len(),
                sv == seq_view(items@),
                items@ == tree.tree@,
                self.same_ctx(old(self)),
                c == self.ctx(),
                c == old(self).ctx(),
                self.inst@ == inst0 + out,
                inst0 == old(self).inst@,
                all == g_items(c, old(self).st(), sv),
                all == prepend(out, g_items(c, self.st(), sv.subrange(i as int, sv.len() as int))),
            decreases items.len() - i,
        {
            let ghost rest = sv.subrange(i as int, sv.len() as int);
            assert(rest[0] == items@[i as int]@);
            assert(rest.drop_first() =~= sv.subrange(i + 1, sv.len() as int));
            let ghost before = self.inst@;
            let ghost o1 = g(c, self.st(), rest[0]);
            if !self.generate(&items[i]) {
                return false;
            }
            proof {
                let (p1, _) = o1->0;
                lemma_prepend(out, p1, g_items(c, self.st(), rest.drop_first()));
                out = out + p1;
                assert(self.inst@ =~= inst0 + out);
            }
            i = i + 1;
        }
        proof {
            assert(sv.subrange(sv.len() as int, sv.len() as int) =~= Seq::<AstView>::empty());
            assert(out + Seq::<char>::empty() =~= out);
        }
        true
    }

    /// Appends the assembly of every item of the tree.
    pub fn exec(&mut self, tree: &AstTree)
        requires
            g_items(old(self).ctx(), old(self).st(), seq_view(tree.tree@)) is Some,
        ensures
            final(self).ctx() == old(self).ctx(),
            g_items(old(self).ctx(), old(self).st(), seq_view(tree.tree@)) == Some((
                final(self).text().subrange(old(self).text().len() as int, final(self).text().len() as int),
                final(self).st(),
            )),
            final(self).text().subrange(0, old(self).text().len() as int) == old(self).text(),
    {
        let ok = self.run(tree);
        proof {
            let (o, _) = g_items(old(self).ctx(), old(self).st(), seq_view(tree.tree@))->0;
            assert(self.inst@.subrange(old(self).inst@.len() as int, self.inst@.len() as int) =~= o);
            assert(self.inst@.subrange(0, old(self).inst@.len() as int) =~= old(self).inst@);
        }
    }

    /// Generates one node.
    #[verifier::spinoff_prover]
    #[verifier::rlimit(100)]
    fn generate(&mut self, ast: &AstType) -> (ok: bool)
        ensures
            old(self).emitted(final(self), g(old(self).ctx(), old(self).st(), ast@), ok),
        decreases ast@, 9int,
    {
        reveal_with_fuel(g_statement, 1);
        reveal(g_factor);
        match ast {
            AstType::Global(a) => self.generate_global(a),
            AstType::FuncDef(t, a, b, c) => self.generate_funcdef(t, a, b, c),
            AstType::Statement(_) => self.generate_statement(ast),
            AstType::While(a, b) => self.generate_statement_while(a, b),
            AstType::Do(a, b) => self.generate_statement_do(a, b),
            AstType::If(a, b, c) => self.generate_statement_if(a, b, c),
            AstType::For(a, b, c, d) => self.generate_statement_for(a, b, c, d),
            AstType::Continue() => self.generate_statement_continue(),
            AstType::Break() => self.generate_statement_break(),
            AstType::Return(a) => self.generate_statement_return(a),
            AstType::Factor(a) => {
                self.generate_factor(*a);
                true
            },
            AstType::LogicalAnd(a, b) => self.generate_logical_and(a, b),
            AstType::LogicalOr(a, b) => self.generate_logical_or(a, b),
            AstType::Condition(a, b, c) => self.generate_condition(a, b, c),
            AstType::UnPlus(a) => self.generate_unplus(a),
            AstType::UnMinus(a) => self.generate_unminus(a),
            AstType::Not(a) => self.generate_not(a),
            AstType::BitReverse(a) => self.generate_bit_reverse(a),
            AstType::Assign(a, b) => self.generate_assign(a, b),
            AstType::Variable(t, a, s) => self.generate_variable(t, a, s),
            AstType::CallFunc(a, b) => self.generate_call_func(a, b),
            AstType::PostInc(a) => self.generate_post_inc(a),
            AstType::PostDec(a) => self.generate_post_dec(a),
            AstType::Plus(a, b) => self.generate_plus(a, b),
            AstType::Minus(a, b) => self.generate_minus(a, b),
            AstType::Multiple(a, b) | AstType::Division(a, b) | AstType::Remainder(a, b) | AstType::Equal(a, b)
            | AstType::NotEqual(a, b) | AstType::LessThan(a, b) | AstType::GreaterThan(a, b)
            | AstType::LessThanEqual(a, b) | AstType::GreaterThanEqual(a, b) | AstType::LeftShift(a, b)
            | AstType::RightShift(a, b) | AstType::BitAnd(a, b) | AstType::BitOr(a, b) | AstType::BitXor(a, b) =>
                self.generate_operator(ast, a, b),
            AstType::Address(a) => self.generate_address(a),
            AstType::Indirect(a) => self.generate_indirect(a),
            _ => false,
        }
    }

    /// Global variables: one 8-byte zeroed slot each.
    fn generate_global(&mut self, a: &Vec<AstType>) -> (ok: bool)
        ensures
            old(self).emitted(final(self), g_global(old(self).ctx(), old(self).st(), AstView::Global(seq_view(a@))), ok),
    {
        reveal(g_global);
        let ghost sv = seq_view(a@);
        let d = lit("  .data\n");
        self.emit(d);
        let ghost inst0 = self.inst@;
        let mut i: usize = 0;
        assert(sv.subrange(0, 0) =~= Seq::<AstView>::empty());
        while i < a.len()
            invariant
                i <= a@.len(),
                sv == seq_view(a@),
                self.same_ctx(old(self)),
                self.st() == old(self).st(),
                inst0 == old(self).inst@ + "  .data\n"@,
                global_text(sv.subrange(0, i as int)) is Some,
                self.inst@ == inst0 + global_text(sv.subrange(0, i as int))->0,
            decreases a.len() - i,
        {
            let ghost pre = sv.subrange(0, i + 1);
            assert(pre.drop_last() =~= sv.subrange(0, i as int));
            assert(pre.last() == a@[i as int]@);
            match &a[i] {
                AstType::Variable(_, _, n) => {
                    let mut t = n.clone();
                    append(&mut t, ":\n");
                    append(&mut t, "  .zero 8\n");
                    self.emit(t);
                },
                _ => {
                    proof {
                        reveal(g_global);
                        lemma_view_kind(&a@[i as int]);
                        assert(!(pre.last() is Variable));
                        assert(global_text(pre) is None);
                        lemma_global_text_none(sv, i + 1);
                        assert(global_text(sv) is None);
                    }
                    return false;
                },
            }
            i = i + 1;
        }
        assert(sv.subrange(0, sv.len() as int) =~= sv);
        true
    }

    /// A function: its start, parameters, body, return label and end.
    #[verifier::spinoff_prover]
    #[verifier::rlimit(100)]
    fn generate_funcdef(&mut self, t: &ast::Type, a: &String, b: &AstType, c: &AstType) -> (ok: bool)
        ensures
            old(self).emitted(
                final(self),
                g_func_def(old(self).ctx(), old(self).st(), AstView::FuncDef(t@, a@, Box::new(b@), Box::new(c@))),
                ok,
            ),
        decreases AstView::FuncDef(t@, a@, Box::new(b@), Box::new(c@)), 8int,
    {
        reveal_with_fuel(g_func_def, 1);
        proof {
            lemma_children(AstView::FuncDef(t@, a@, Box::new(b@), Box::new(c@)));
        }
        if !self.can_label() {
            return false;
        }
        let return_label = self.label.next_return_label();
        let ghost i0 = self.inst@;
        if !self.generate_func_start(a) {
            return false;
        }
        let ghost i1 = self.inst@;
        if !self.generate_func_args(b) {
            return false;
        }
        let ghost i2 = self.inst@;
        let ghost st2 = self.st();
        if !self.generate_statement(c) {
            return false;
        }
        let ghost i3 = self.inst@;
        self.generate_label_inst(return_label);
        let ghost i4 = self.inst@;
        let ok = self.generate_func_end();
        proof {
            if ok {
                let ctx = old(self).ctx();
                let fs = frame_size(ctx)->0;
                let args = match b@ {
                    AstView::Argment(v) => v,
                    _ => Seq::empty(),
                };
                let body = match c@ {
                    AstView::Statement(v) => v,
                    _ => Seq::empty(),
                };
                let (ob, _) = g_stmts(ctx, st2, body)->0;
                assert(i1 =~= i0 + func_start_text(ctx, a@, fs));
                assert(i2 =~= i1 + func_args_text(args, 0));
                assert(i3 =~= i2 + ob);
                assert(i4 =~= i3 + label_text(return_label));
                assert(self.inst@ =~= i4 + func_end_text(fs));
                assert(self.inst@ =~= old(self).inst@ + (func_start_text(ctx, a@, fs) + func_args_text(args, 0) + ob
                    + label_text(return_label) + func_end_text(fs)));
            }
        }
        ok
    }

    /// A block: each statement, popping the value an expression leaves.
    fn generate_statement(&mut self, a: &AstType) -> (ok: bool)
        ensures
            old(self).emitted(
                final(self),
                match a@ {
                    AstView::Statement(v) => g_stmts(old(self).ctx(), old(self).st(), v),
                    _ => None,
                },
                ok,
            ),
        decreases a@, 8int,
    {
        match a {
            AstType::Statement(s) => {
                let ghost sv = seq_view(s@);
                let ghost c = self.ctx();
                let ghost all = g_stmts(c, self.st(), sv);
                let ghost inst0 = self.inst@;
                let ghost mut out: Seq<char> = Seq::empty();
                let mut i: usize = 0;
                assert(sv.subrange(0, sv.len() as int) =~= sv);
                assert(inst0 + out =~= inst0);
                assert(prepend(out, all) == all) by {
                    if let Some((o, st)) = all {
                        assert(out + o =~= o);
                    }
                }
                while i < s.len()
                    invariant
                        i <= s@.len(),
                        sv == seq_view(s@),
                        a@ == AstView::Statement(sv),
                        self.same_ctx(old(self)),
                        c == self.ctx(),
                        self.inst@ == inst0 + out,
                        inst0 == old(self).inst@,
                        all == g_stmts(c, old(self).st(), sv),
                        all == prepend(out, g_stmts(c, self.st(), sv.subrange(i as int, sv.len() as int))),
                    decreases s.len() - i,
                {
                    let ghost rest = sv.subrange(i as int, sv.len() as int);
                    assert(rest[0] == s@[i as int]@);
                    assert(rest.drop_first() =~= sv.subrange(i + 1, sv.len() as int));
                    proof {
                        lemma_elements(sv, i as int);
                    }
                    let ghost o1 = g(c, self.st(), rest[0]);
                    if !self.generate(&s[i]) {
                        return false;
                    }
                    if s[i].is_expr() {
                        self.emit_pop("rax");
                    }
                    proof {
                        let (p1, _) = o1->0;
                        let p2 = p1 + (if is_expr_view(rest[0]) { pop_text("rax"@) } else { Seq::empty() });
                        lemma_prepend(out, p2, g_stmts(c, self.st(), rest.drop_first()));
                        out = out + p2;
                        assert(self.inst@ =~= inst0 + out);
                    }
                    i = i + 1;
                }
                proof {
                    assert(sv.subrange(sv.len() as int, sv.len() as int) =~= Seq::<AstView>::empty());
                    assert(out + Seq::<char>::empty() =~= out);
                }
                true
            },
            _ => false,
        }
    }

    /// Start of function `a`: section, symbol, frame.
    fn generate_func_start(&mut self, a: &String) -> (ok: bool)
        ensures
            final(self).same_ctx(old(self)),
            final(self).st() == old(self).st(),
            match frame_size(old(self).ctx()) {
                Some(fs) => ok && final(self).inst@ == old(self).inst@ + func_start_text(old(self).ctx(), a@, fs),
                None => !ok,
            },
    {
        let pos = match self.frame_size_of() {
            Some(pos) => pos,
            None => return false,
        };
        let start = if eq_lit(a, "main") {
            let mut st = lit("  .text\n.global ");
            let sym = self.generate_func_symbol(a);
            append(&mut st, sym.as_str());
            append(&mut st, "\n");
            st
        } else {
            lit("  .text\n")
        };
        self.emit(start);
        let sym = self.generate_func_symbol(a);
        self.emit(sym);
        self.emit(lit(":\n"));
        self.emit_push("rbp");
        let t = self.gen_asm().mov("rsp", "rbp");
        self.emit(t);
        let t = self.gen_asm().sub_imm(pos, "rsp");
        self.emit(t);
        true
    }

    /// End of function `a`: frame released, return.
    fn generate_func_end(&mut self) -> (ok: bool)
        ensures
            final(self).same_ctx(old(self)),
            final(self).st() == old(self).st(),
            match frame_size(old(self).ctx()) {
                Some(fs) => ok && final(self).inst@ == old(self).inst@ + func_end_text(fs),
                None => !ok,
            },
    {
        let pos = match self.frame_size_of() {
            Some(pos) => pos,
            None => return false,
        };
        let t = self.gen_asm().add_imm(pos, "rsp");
        self.emit(t);
        self.emit_pop("rbp");
        let t = self.gen_asm().ret();
        self.emit(t);
        true
    }

    /// Stores the parameters (at most six) from their registers into their
    /// slots.
    #[verifier::spinoff_prover]
    #[verifier::rlimit(40)]
    fn generate_func_args(&mut self, a: &AstType) -> (ok: bool)
        ensures
            final(self).same_ctx(old(self)),
            final(self).st() == old(self).st(),
            match a@ {
                AstView::Argment(v) => ok && final(self).inst@ == old(self).inst@ + func_args_text(v, 0),
                _ => !ok,
            },
    {
        match a {
            AstType::Argment(args) => {
                let ghost sv = seq_view(args@);
                let ghost inst0 = self.inst@;
                let mut i: usize = 0;
                assert(inst0 + func_args_text(sv, 0) =~= self.inst@ + func_args_text(sv, 0));
                while i < args.len() && i < 6
                    invariant
                        i <= args@.len(),
                        i <= 6,
                        sv == seq_view(args@),
                        self.same_ctx(old(self)),
                        self.st() == old(self).st(),
                        inst0 == old(self).inst@,
                        inst0 + func_args_text(sv, 0) == self.inst@ + func_args_text(sv, i as int),
                    decreases args.len() - i,
                {
                    assert(sv[i as int] == args@[i as int]@);
                    proof {
                        lemma_view_kind(&args@[i as int]);
                    }
                    let reg = arg_register(i);
                    let off: i64 = -8 * ((i + 1) as i64);
                    assert(off == param_offset(i as int));
                    let ghost before = self.inst@;
                    match &args[i] {
                        AstType::Variable(_, ast::Structure::Pointer, _) => {
                            let t = self.gen_asm().mov_dst(reg, "rbp", off);
                            self.emit(t);
                        },
                        _ => {
                            let t = self.gen_asm().mov(reg, "rax");
                            self.emit(t);
                            let t = self.gen_asm().mov_dst("eax", "rbp", off);
                            self.emit(t);
                        },
                    }
                    assert(before + func_args_text(sv, i as int) =~= self.inst@ + func_args_text(sv, i + 1));
                    i = i + 1;
                }
                assert(func_args_text(sv, i as int) == Seq::<char>::empty());
                assert(self.inst@ + Seq::<char>::empty() =~= self.inst@);
                true
            },
            _ => false,
        }
    }

    /// `if ( a ) b [else c]`.
    #[verifier::spinoff_prover]
    fn generate_statement_if(&mut self, a: &AstType, b: &AstType, c: &Option<AstType>) -> (ok: bool)
        ensures
            old(self).emitted(
                final(self),
                g_if(old(self).ctx(), old(self).st(), AstView::If(Box::new(a@), Box::new(b@), opt_view(*c))),
                ok,
            ),
        decreases AstView::If(Box::new(a@), Box::new(b@), opt_view(*c)), 8int,
    {
        reveal_with_fuel(g_if, 1);
        proof {
            lemma_children(AstView::If(Box::new(a@), Box::new(b@), opt_view(*c)));
        }
        if !self.can_label() {
            return false;
        }
        let label_end = self.label.next_label();
        if !self.generate(a) {
            return false;
        }
        self.generate_test(1);
        match c {
            Some(e) => {
                if !self.can_label() {
                    return false;
                }
                let label_if = self.label.next_label();
                self.generate_je_inst(label_if);
                if !self.generate(e) {
                    return false;
                }
                self.generate_jmp_inst(label_end);
                self.generate_label_inst(label_if);
                if !self.generate(b) {
                    return false;
                }
                self.generate_jmp_inst(label_end);
            },
            None => {
                self.generate_jne_inst(label_end);
                if !self.generate(b) {
                    return false;
                }
            },
        }
        self.generate_label_inst(label_end);
        true
    }

    /// `while ( a ) b`: `continue` goes to the test, `break` to the end.
    fn generate_statement_while(&mut self, a: &AstType, b: &AstType) -> (ok: bool)
        ensures
            old(self).emitted(final(self), g_while(old(self).ctx(), old(self).st(), AstView::While(Box::new(a@), Box::new(b@))), ok),
        decreases AstView::While(Box::new(a@), Box::new(b@)), 8int,
    {
        reveal_with_fuel(g_while, 1);
        proof {
            lemma_children(AstView::While(Box::new(a@), Box::new(b@)));
        }
        if !self.can_label() {
            return false;
        }
        let label_begin = self.label.next_label();
        if !self.can_label() {
            return false;
        }
        let label_end = self.label.next_label();
        self.label.push_continue(label_begin);
        self.label.push_break(label_end);
        self.generate_label_inst(label_begin);
        if !self.generate(a) {
            return false;
        }
        self.generate_test(0);
        self.generate_je_inst(label_end);
        if !self.generate(b) {
            return false;
        }
        self.generate_jmp_inst(label_begin);
        self.generate_label_inst(label_end);
        self.label.remove_continue(label_begin);
        self.label.remove_break(label_end);
        true
    }

    /// `do a while ( b )`: `continue` goes to the test, `break` to the end.
    fn generate_statement_do(&mut self, a: &AstType, b: &AstType) -> (ok: bool)
        ensures
            old(self).emitted(final(self), g_do(old(self).ctx(), old(self).st(), AstView::Do(Box::new(a@), Box::new(b@))), ok),
        decreases AstView::Do(Box::new(a@), Box::new(b@)), 8int,
    {
        reveal_with_fuel(g_do, 1);
        proof {
            lemma_children(AstView::Do(Box::new(a@), Box::new(b@)));
        }
        if !self.can_label() {
            return false;
        }
        let label_begin = self.label.next_label();
        if !self.can_label() {
            return false;
        }
        let label_condition = self.label.next_label();
        if !self.can_label() {
            return false;
        }
        let label_end = self.label.next_label();
        self.label.push_continue(label_condition);
        self.label.push_break(label_end);
        self.generate_label_inst(label_begin);
        if !self.generate(a) {
            return false;
        }
        self.generate_label_inst(label_condition);
        if !self.generate(b) {
            return false;
        }
        self.generate_test(0);
        self.generate_jne_inst(label_begin);
        self.generate_label_inst(label_end);
        self.label.remove_continue(label_condition);
        self.label.remove_break(label_end);
        true
    }

    /// `for ( a ; b ; c ) d`: `continue` goes to the update, `break` to the
    /// end.
    #[verifier::spinoff_prover]
    #[verifier::rlimit(100)]
    fn generate_statement_for(&mut self, a: &Option<AstType>, b: &Option<AstType>, c: &Option<AstType>, d: &AstType) -> (ok: bool)
        ensures
            old(self).emitted(
                final(self),
                g_for(old(self).ctx(), old(self).st(), AstView::For(opt_view(*a), opt_view(*b), opt_view(*c), Box::new(d@))),
                ok,
            ),
        decreases AstView::For(opt_view(*a), opt_view(*b), opt_view(*c), Box::new(d@)), 8int,
    {
        reveal_with_fuel(g_for, 1);
        proof {
            lemma_children(AstView::For(opt_view(*a), opt_view(*b), opt_view(*c), Box::new(d@)));
        }
        if !self.can_label() {
            return false;
        }
        let label_begin = self.label.next_label();
        if !self.can_label() {
            return false;
        }
        let label_continue = self.label.next_label();
        if !self.can_label() {
            return false;
        }
        let label_end = self.label.next_label();
        self.label.push_continue(label_continue);
        self.label.push_break(label_end);
        if let Some(init) = a {
            if !self.generate(init) {
                return false;
            }
            self.emit_pop("rax");
        }
        self.generate_label_inst(label_begin);
        if let Some(cond) = b {
            if !self.generate(cond) {
                return false;
            }
            self.generate_test(0);
            self.generate_je_inst(label_end);
        }
        if !self.generate(d) {
            return false;
        }
        self.generate_label_inst(label_continue);
        if let Some(end) = c {
            if !self.generate(end) {
                return false;
            }
            self.emit_pop("rax");
        }
        self.generate_jmp_inst(label_begin);
        self.generate_label_inst(label_end);
        self.label.remove_continue(label_continue);
        self.label.remove_break(label_end);
        true
    }

    /// `continue`: a jump to the innermost `continue` label, which is used up.
    fn generate_statement_continue(&mut self) -> (ok: bool)
        ensures
            old(self).emitted(final(self), g_continue(old(self).ctx(), old(self).st(), AstView::Continue), ok),
    {
        reveal(g_continue);
        match self.label.pop_continue() {
            Some(no) => {
                self.generate_jmp_inst(no);
                true
            },
            None => false,
        }
    }

    /// `break`: a jump to the innermost `break` label, which is used up.
    fn generate_statement_break(&mut self) -> (ok: bool)
        ensures
            old(self).emitted(final(self), g_break(old(self).ctx(), old(self).st(), AstView::Break), ok),
    {
        reveal(g_break);
        match self.label.pop_break() {
            Some(no) => {
                self.generate_jmp_inst(no);
                true
            },
            None => false,
        }
    }

    /// `return a`: the value in `%rax`, then a jump to the return label.
    fn generate_statement_return(&mut self, a: &AstType) -> (ok: bool)
        ensures
            old(self).emitted(final(self), g_return(old(self).ctx(), old(self).st(), AstView::Return(Box::new(a@))), ok),
        decreases AstView::Return(Box::new(a@)), 8int,
    {
        reveal_with_fuel(g_return, 1);
        proof {
            lemma_children(AstView::Return(Box::new(a@)));
        }
        if !self.generate(a) {
            return false;
        }
        if a.is_expr() {
            self.emit_pop("rax");
        }
        let label_no = self.label.get_return_label();
        self.generate_jmp_inst(label_no);
        true
    }

    /// `*a = b`.
    fn generate_assign_indirect(&mut self, a: &AstType, b: &AstType) -> (ok: bool)
        ensures
            old(self).emitted(
                final(self),
                g_assign(old(self).ctx(), old(self).st(), AstView::Assign(Box::new(AstView::Indirect(Box::new(a@))), Box::new(b@))),
                ok,
            ),
        decreases AstView::Assign(Box::new(AstView::Indirect(Box::new(a@))), Box::new(b@)), 7int,
    {
        reveal_with_fuel(g_assign, 1);
        proof {
            lemma_children(AstView::Assign(Box::new(AstView::Indirect(Box::new(a@))), Box::new(b@)));
        }
        if !self.generate(a) {
            return false;
        }
        if !self.generate(b) {
            return false;
        }
        self.emit_pop("rax");
        self.emit_pop("rcx");
        let t = self.gen_asm().mov_dst("rax", "rcx", 0);
        self.emit(t);
        self.emit_push("rax");
        true
    }

    /// The local named `v`, else the global.
    fn find_variable(&self, v: &String) -> (r: Option<Symbol>)
        ensures
            match r {
                Some(sym) => lookup(self.ctx(), v@) == Some(sym@),
                None => lookup(self.ctx(), v@) is None,
            },
    {
        let local = Scope::Local(String::new());
        match self.var_table.search(&local, v.as_str()) {
            Some(sym) => Some(sym),
            None => self.global_table.search(&Scope::Global, v.as_str()),
        }
    }

    /// `a = b` for a variable `a` of type `t` and shape `s`.
    fn generate_assign_variable(&mut self, a: &String, t: &ast::Type, s: &ast::Structure, b: &AstType) -> (ok: bool)
        ensures
            old(self).emitted(
                final(self),
                g_assign(old(self).ctx(), old(self).st(), AstView::Assign(Box::new(AstView::Variable(t@, *s, a@)), Box::new(b@))),
                ok,
            ),
        decreases AstView::Assign(Box::new(AstView::Variable(t@, *s, a@)), Box::new(b@)), 7int,
    {
        reveal_with_fuel(g_assign, 1);
        proof {
            lemma_children(AstView::Assign(Box::new(AstView::Variable(t@, *s, a@)), Box::new(b@)));
        }
        let ret = match self.find_variable(a) {
            Some(ret) => ret,
            None => return false,
        };
        let offset = match slot_of(&ret) {
            Some(offset) => offset,
            None => return false,
        };
        if !self.generate(b) {
            return false;
        }
        let global = match ret.scope {
            Scope::Global => true,
            _ => false,
        };
        match (t, s) {
            (ast::Type::Int, ast::Structure::Identifier) => {
                self.emit_pop("rax");
                if global {
                    let m = self.gen_asm().mov_to_glb("eax", a.as_str());
                    self.emit(m);
                } else {
                    let m = self.gen_asm().mov_dst("eax", "rbp", negate(offset));
                    self.emit(m);
                }
                self.emit_push("rax");
                true
            },
            (ast::Type::Int, ast::Structure::Pointer) => {
                self.emit_pop("rax");
                if global {
                    let m = self.gen_asm().mov_to_glb("rax", a.as_str());
                    self.emit(m);
                } else {
                    let m = self.gen_asm().mov_dst("rax", "rbp", negate(offset));
                    self.emit(m);
                }
                self.emit_push("rax");
                true
            },
            _ => false,
        }
    }

    /// `a = b`: into a variable, through a pointer, or just `b`.
    fn generate_assign(&mut self, a: &AstType, b: &AstType) -> (ok: bool)
        ensures
            old(self).emitted(final(self), g_assign(old(self).ctx(), old(self).st(), AstView::Assign(Box::new(a@), Box::new(b@))), ok),
        decreases AstView::Assign(Box::new(a@), Box::new(b@)), 8int,
    {
        reveal_with_fuel(g_assign, 1);
        proof {
            lemma_children(AstView::Assign(Box::new(a@), Box::new(b@)));
        }
        match a {
            AstType::Variable(t, s, n) => self.generate_assign_variable(n, t, s, b),
            AstType::Indirect(x) => self.generate_assign_indirect(x, b),
            _ => self.generate(b),
        }
    }

    /// Pushes variable `v` of type `t` and shape `s` in `scope`, whose slot
    /// is `offset` bytes below the frame base.
    fn generate_variable_with_type(&mut self, t: &ast::Type, s: &ast::Structure, v: &String, scope: &Scope, offset: i64) -> (ok: bool)
        requires
            offset >= 0,
        ensures
            final(self).same_ctx(old(self)),
            final(self).st() == old(self).st(),
            match var_text(t@, *s, v@, scope@, offset) {
                Some(o) => ok && final(self).inst@ == old(self).inst@ + o,
                None => !ok,
            },
    {
        let global = match scope {
            Scope::Global => true,
            _ => false,
        };
        match t {
            ast::Type::Int => match s {
                ast::Structure::Identifier => {
                    if global {
                        let m = self.gen_asm().mov_from_glb("eax", v.as_str());
                        self.emit(m);
                    } else {
                        let m = self.gen_asm().mov_src("rbp", "eax", negate(offset));
                        self.emit(m);
                    }
                    self.emit_push("rax");
                    true
                },
                ast::Structure::Pointer => {
                    if global {
                        let m = self.gen_asm().mov_from_glb("rax", v.as_str());
                        self.emit(m);
                    } else {
                        let m = self.gen_asm().mov_src("rbp", "rax", negate(offset));
                        self.emit(m);
                    }
                    self.emit_push("rax");
                    true
                },
                ast::Structure::Array(size) => match array_bytes_of(*size) {
                    Some(bytes) => {
                        let m = self.gen_asm().lea(bytes);
                        self.emit(m);
                        self.emit_push("rax");
                        true
                    },
                    None => false,
                },
                ast::Structure::Unknown => true,
            },
            _ => false,
        }
    }

    /// Pushes the value of variable `v`.
    fn generate_variable(&mut self, t: &ast::Type, s: &ast::Structure, v: &String) -> (ok: bool)
        ensures
            old(self).emitted(final(self), g_variable(old(self).ctx(), old(self).st(), AstView::Variable(t@, *s, v@)), ok),
    {
        reveal(g_variable);
        let ret = match self.find_variable(v) {
            Some(ret) => ret,
            None => return false,
        };
        let offset = match slot_of(&ret) {
            Some(offset) => offset,
            None => return false,
        };
        self.generate_variable_with_type(t, s, v, &ret.scope, offset)
    }

    /// `~a`.
    fn generate_bit_reverse(&mut self, a: &AstType) -> (ok: bool)
        ensures
            old(self).emitted(final(self), g_unary(old(self).ctx(), old(self).st(), AstView::BitReverse(Box::new(a@))), ok),
        decreases AstView::BitReverse(Box::new(a@)), 8int,
    {
        reveal_with_fuel(g_unary, 1);
        proof {
            lemma_children(AstView::BitReverse(Box::new(a@)));
        }
        if !self.generate(a) {
            return false;
        }
        self.emit_pop("rax");
        let t = self.gen_asm().not("eax");
        self.emit(t);
        self.emit_push("rax");
        proof {
            let c = old(self).ctx();
            let st = old(self).st();
            let n = AstView::BitReverse(Box::new(a@));
            assert(g(c, st, a@) is Some);
            let (o, s1) = g(c, st, a@)->0;
            assert(g_unary(c, st, n) == Some((o + unary_tail(n), s1)));
            assert(self.inst@ =~= old(self).inst@ + (o + unary_tail(n)));
        }
        true
    }

    /// `!a`: 1 when `a` is 0, else 0.
    fn generate_not(&mut self, a: &AstType) -> (ok: bool)
        ensures
            old(self).emitted(final(self), g_unary(old(self).ctx(), old(self).st(), AstView::Not(Box::new(a@))), ok),
        decreases AstView::Not(Box::new(a@)), 8int,
    {
        reveal_with_fuel(g_unary, 1);
        proof {
            lemma_children(AstView::Not(Box::new(a@)));
        }
        if !self.generate(a) {
            return false;
        }
        self.emit_pop("rax");
        self.generate_cmp_inst(0, "eax");
        let t = self.gen_asm().set("al");
        self.emit(t);
        let t = self.gen_asm().movz("al", "eax");
        self.emit(t);
        self.emit_push("rax");
        true
    }

    /// `-a`.
    fn generate_unminus(&mut self, a: &AstType) -> (ok: bool)
        ensures
            old(self).emitted(final(self), g_unary(old(self).ctx(), old(self).st(), AstView::UnMinus(Box::new(a@))), ok),
        decreases AstView::UnMinus(Box::new(a@)), 8int,
    {
        reveal_with_fuel(g_unary, 1);
        proof {
            lemma_children(AstView::UnMinus(Box::new(a@)));
        }
        if !self.generate(a) {
            return false;
        }
        self.emit_pop("rax");
        let t = self.gen_asm().neg("eax");
        self.emit(t);
        self.emit_push("rax");
        true
    }

    /// `+a`: the value of `a`.
    fn generate_unplus(&mut self, a: &AstType) -> (ok: bool)
        ensures
            old(self).emitted(final(self), g_unary(old(self).ctx(), old(self).st(), AstView::UnPlus(Box::new(a@))), ok),
        decreases AstView::UnPlus(Box::new(a@)), 8int,
    {
        reveal_with_fuel(g_unary, 1);
        proof {
            lemma_children(AstView::UnPlus(Box::new(a@)));
        }
        if !self.generate(a) {
            return false;
        }

        true
    }

    /// `*a`: the value at the address `a`.
    fn generate_indirect(&mut self, a: &AstType) -> (ok: bool)
        ensures
            old(self).emitted(final(self), g_unary(old(self).ctx(), old(self).st(), AstView::Indirect(Box::new(a@))), ok),
        decreases AstView::Indirect(Box::new(a@)), 8int,
    {
        reveal_with_fuel(g_unary, 1);
        proof {
            lemma_children(AstView::Indirect(Box::new(a@)));
        }
        if !self.generate(a) {
            return false;
        }
        self.emit_pop("rax");
        let t = self.gen_asm().mov_src("rax", "rcx", 0);
        self.emit(t);
        self.emit_push("rcx");
        true
    }

    /// A call of `a` with the arguments `b`: evaluated last first, the first
    /// six moved into their registers.
    #[verifier::spinoff_prover]
    #[verifier::rlimit(100)]
    fn generate_call_func(&mut self, a: &AstType, b: &AstType) -> (ok: bool)
        ensures
            old(self).emitted(final(self), g_call_func(old(self).ctx(), old(self).st(), AstView::CallFunc(Box::new(a@), Box::new(b@))), ok),
        decreases AstView::CallFunc(Box::new(a@), Box::new(b@)), 8int,
    {
        reveal_with_fuel(g_call_func, 1);
        proof {
            lemma_children(AstView::CallFunc(Box::new(a@), Box::new(b@)));
        }
        let n = match a {
            AstType::Variable(_, _, n) => n,
            _ => return false,
        };
        if self.func_table.search(&Scope::Func, n.as_str()).is_none() {
            return false;
        }
        let v = match b {
            AstType::Argment(v) => v,
            _ => return false,
        };
        let ghost sv = seq_view(v@);
        let ghost c = self.ctx();
        let ghost all = g_args_rev(c, self.st(), sv);
        let ghost inst0 = self.inst@;
        let ghost mut out: Seq<char> = Seq::empty();
        let ghost whole = g_call_func(c, self.st(), AstView::CallFunc(Box::new(a@), Box::new(b@)));
        assert(whole == match all {
            Some((o, s1)) => Some((o + pops_text(sv, 0) + call_text(func_symbol(c, n@)) + push_text("rax"@), s1)),
            None => None,
        });
        assert(sv.subrange(0, sv.len() as int) =~= sv);
        assert(inst0 + out =~= inst0);
        assert(prepend(out, all) == all) by {
            if let Some((o, st)) = all {
                assert(out + o =~= o);
            }
        }
        let mut i: usize = v.len();
        while i > 0
            invariant
                i <= v@.len(),
                sv == seq_view(v@),
                b@ == AstView::Argment(sv),
                self.same_ctx(old(self)),
                c == self.ctx(),
                self.inst@ == inst0 + out,
                inst0 == old(self).inst@,
                all == g_args_rev(c, old(self).st(), sv),
                all == prepend(out, g_args_rev(c, self.st(), sv.subrange(0, i as int))),
                c == old(self).ctx(),
                whole == g_call_func(c, old(self).st(), AstView::CallFunc(Box::new(a@), Box::new(b@))),
                whole == match all {
                    Some((o, s1)) => Some((o + pops_text(sv, 0) + call_text(func_symbol(c, n@)) + push_text("rax"@), s1)),
                    None => None,
                },
            decreases i,
        {
            let ghost pre = sv.subrange(0, i as int);
            assert(pre.last() == v@[i - 1]@);
            assert(pre.drop_last() =~= sv.subrange(0, i - 1));
            proof {
                lemma_children(AstView::CallFunc(Box::new(a@), Box::new(b@)));
                lemma_elements(sv, i - 1);
            }
            let ghost o1 = g(c, self.st(), pre.last());
            if !self.generate(&v[i - 1]) {
                return false;
            }
            proof {
                let (p1, _) = o1->0;
                lemma_prepend(out, p1, g_args_rev(c, self.st(), pre.drop_last()));
                out = out + p1;
                assert(self.inst@ =~= inst0 + out);
            }
            i = i - 1;
        }
        proof {
            assert(sv.subrange(0, 0) =~= Seq::<AstView>::empty());
            assert(out + Seq::<char>::empty() =~= out);
        }
        let ghost mid = self.inst@;
        let ghost st_mid = self.st();
        let mut j: usize = 0;
        assert(mid + pops_text(sv, 0) =~= self.inst@ + pops_text(sv, 0));
        while j < v.len() && j < 6
            invariant
                j <= v@.len(),
                j <= 6,
                sv == seq_view(v@),
                self.same_ctx(old(self)),
                self.st() == st_mid,
                mid + pops_text(sv, 0) == self.inst@ + pops_text(sv, j as int),
            decreases v.len() - j,
        {
            assert(sv[j as int] == v@[j as int]@);
            proof {
                lemma_view_kind(&v@[j as int]);
            }
            let reg = arg_register(j);
            let ghost before = self.inst@;
            match &v[j] {
                AstType::Variable(_, ast::Structure::Pointer, _) => {
                    self.emit_pop(reg);
                },
                _ => {
                    self.emit_pop("rax");
                    let t = self.gen_asm().mov("rax", reg);
                    self.emit(t);
                },
            }
            assert(before + pops_text(sv, j as int) =~= self.inst@ + pops_text(sv, j + 1));
            j = j + 1;
        }
        assert(pops_text(sv, j as int) == Seq::<char>::empty());
        let ghost after_pops = self.inst@;
        let sym = self.generate_func_symbol(n);
        let t = self.gen_asm().call(sym.as_str());
        self.emit(t);
        self.emit_push("rax");
        proof {
            assert(after_pops =~= mid + pops_text(sv, 0));
            assert(self.inst@ =~= inst0 + (out + pops_text(sv, 0) + call_text(func_symbol(c, n@)) + push_text("rax"@)));
        }
        true
    }

    /// `a ? b : c`.
    fn generate_condition(&mut self, a: &AstType, b: &AstType, c: &AstType) -> (ok: bool)
        ensures
            old(self).emitted(
                final(self),
                g_condition(old(self).ctx(), old(self).st(), AstView::Condition(Box::new(a@), Box::new(b@), Box::new(c@))),
                ok,
            ),
        decreases AstView::Condition(Box::new(a@), Box::new(b@), Box::new(c@)), 8int,
    {
        reveal_with_fuel(g_condition, 1);
        proof {
            lemma_children(AstView::Condition(Box::new(a@), Box::new(b@), Box::new(c@)));
        }
        if !self.can_label() {
            return false;
        }
        let label_false = self.label.next_label();
        if !self.can_label() {
            return false;
        }
        let label_end = self.label.next_label();
        if !self.generate(a) {
            return false;
        }
        self.generate_test(0);
        self.generate_je_inst(label_false);
        if !self.generate(b) {
            return false;
        }
        self.generate_jmp_inst(label_end);
        self.generate_label_inst(label_false);
        if !self.generate(c) {
            return false;
        }
        self.generate_label_inst(label_end);
        true
    }

    /// `a && b`: 1 when both are not 0, else 0; `b` is skipped when `a` is 0.
    fn generate_logical_and(&mut self, a: &AstType, b: &AstType) -> (ok: bool)
        ensures
            old(self).emitted(final(self), g_logical_and(old(self).ctx(), old(self).st(), AstView::LogicalAnd(Box::new(a@), Box::new(b@))), ok),
        decreases AstView::LogicalAnd(Box::new(a@), Box::new(b@)), 8int,
    {
        reveal_with_fuel(g_logical_and, 1);
        proof {
            lemma_children(AstView::LogicalAnd(Box::new(a@), Box::new(b@)));
        }
        if !self.can_label() {
            return false;
        }
        let label_false = self.label.next_label();
        if !self.can_label() {
            return false;
        }
        let label_end = self.label.next_label();
        if !self.generate(a) {
            return false;
        }
        self.generate_test(0);
        self.generate_je_inst(label_false);
        if !self.generate(b) {
            return false;
        }
        self.generate_test(0);
        self.generate_je_inst(label_false);
        let t = self.gen_asm().mov_imm("eax", 1);
        self.emit(t);
        self.generate_jmp_inst(label_end);
        self.generate_label_inst(label_false);
        let t = self.gen_asm().mov_imm("eax", 0);
        self.emit(t);
        self.generate_label_inst(label_end);
        self.emit_push("rax");
        true
    }

    /// `a || b`: 1 when either is not 0, else 0; `b` is skipped when `a` is
    /// not 0.
    fn generate_logical_or(&mut self, a: &AstType, b: &AstType) -> (ok: bool)
        ensures
            old(self).emitted(final(self), g_logical_or(old(self).ctx(), old(self).st(), AstView::LogicalOr(Box::new(a@), Box::new(b@))), ok),
        decreases AstView::LogicalOr(Box::new(a@), Box::new(b@)), 8int,
    {
        reveal_with_fuel(g_logical_or, 1);
        proof {
            lemma_children(AstView::LogicalOr(Box::new(a@), Box::new(b@)));
        }
        if !self.can_label() {
            return false;
        }
        let label_true = self.label.next_label();
        if !self.can_label() {
            return false;
        }
        let label_end = self.label.next_label();
        if !self.generate(a) {
            return false;
        }
        self.generate_test(0);
        self.generate_jne_inst(label_true);
        if !self.generate(b) {
            return false;
        }
        self.generate_test(0);
        self.generate_jne_inst(label_true);
        let t = self.gen_asm().mov_imm("eax", 0);
        self.emit(t);
        self.generate_jmp_inst(label_end);
        self.generate_label_inst(label_true);
        let t = self.gen_asm().mov_imm("eax", 1);
        self.emit(t);
        self.generate_label_inst(label_end);
        self.emit_push("rax");
        true
    }

    /// Pushes the address of variable `a`.
    fn generate_lvalue_address(&mut self, a: &AstType) -> (ok: bool)
        ensures
            final(self).same_ctx(old(self)),
            final(self).st() == old(self).st(),
            match lvalue_text(old(self).ctx(), a@) {
                Some(o) => ok && final(self).inst@ == old(self).inst@ + o,
                None => !ok,
            },
    {
        let name = match a {
            AstType::Variable(_, _, s) => s,
            _ => return false,
        };
        let sym = match self.find_variable(name) {
            Some(sym) => sym,
            None => return false,
        };
        match sym.scope {
            Scope::Global => {
                let t = self.gen_asm().lea_glb(name.as_str());
                self.emit(t);
            },
            _ => {
                let off = match slot_of(&sym) {
                    Some(off) => off,
                    None => return false,
                };
                let t = self.gen_asm().lea(off);
                self.emit(t);
            },
        }
        self.emit_push("rax");
        true
    }

    /// `a++`: pushes the old value, stores it plus one.
    fn generate_post_inc(&mut self, a: &AstType) -> (ok: bool)
        ensures
            old(self).emitted(final(self), g_post_inc(old(self).ctx(), old(self).st(), AstView::PostInc(Box::new(a@))), ok),
    {
        reveal(g_post_inc);
        if !self.generate_lvalue_address(a) {
            return false;
        }
        self.emit_pop("rcx");
        let t = self.gen_asm().mov_src("rcx", "eax", 0);
        self.emit(t);
        self.emit_push("rax");
        let t = self.gen_asm().add_imm(1, "eax");
        self.emit(t);
        let t = self.gen_asm().mov_dst("eax", "rcx", 0);
        self.emit(t);
        true
    }

    /// `a--`: pushes the old value, stores it minus one.
    fn generate_post_dec(&mut self, a: &AstType) -> (ok: bool)
        ensures
            old(self).emitted(final(self), g_post_dec(old(self).ctx(), old(self).st(), AstView::PostDec(Box::new(a@))), ok),
    {
        reveal(g_post_dec);
        if !self.generate_lvalue_address(a) {
            return false;
        }
        self.emit_pop("rcx");
        let t = self.gen_asm().mov_src("rcx", "eax", 0);
        self.emit(t);
        self.emit_push("rax");
        let t = self.gen_asm().sub_imm(1, "eax");
        self.emit(t);
        let t = self.gen_asm().mov_dst("eax", "rcx", 0);
        self.emit(t);
        true
    }

    /// `a + b` with `a` a pointer: `b` scaled by 8.
    fn generate_plus_with_pointer(&mut self, a: &AstType, b: &AstType) -> (ok: bool)
        ensures
            old(self).emitted(
                final(self),
                both(old(self).ctx(), old(self).st(), a@, b@, pointer_tail(add_text("rax"@, "rcx"@))),
                ok,
            ),
        decreases AstView::Plus(Box::new(a@), Box::new(b@)), 6int,
    {
        proof {
            lemma_children(AstView::Plus(Box::new(a@), Box::new(b@)));
        }
        if !self.generate(a) {
            return false;
        }
        if !self.generate(b) {
            return false;
        }
        self.emit_pop("rax");
        let t = self.gen_asm().mov_imm("rcx", 8);
        self.emit(t);
        let t = self.gen_asm().mul("rcx");
        self.emit(t);
        self.emit_pop("rcx");
        let t = self.gen_asm().add("rax", "rcx");
        self.emit(t);
        self.emit_push("rcx");
        true
    }

    /// `a + b` with `a` a variable of shape `s`: pointer arithmetic for an
    /// array.
    fn generate_plus_variable(&mut self, a: &AstType, b: &AstType, s: &ast::Structure) -> (ok: bool)
        ensures
            old(self).emitted(
                final(self),
                both(
                    old(self).ctx(),
                    old(self).st(),
                    a@,
                    b@,
                    if *s is Array {
                        pointer_tail(add_text("rax"@, "rcx"@))
                    } else {
                        operator_tail(plus_text(), "rax"@)
                    },
                ),
                ok,
            ),
        decreases AstView::Plus(Box::new(a@), Box::new(b@)), 7int,
    {
        proof {
            lemma_children(AstView::Plus(Box::new(a@), Box::new(b@)));
        }
        match s {
            ast::Structure::Array(_) => self.generate_plus_with_pointer(a, b),
            _ => {
                if !self.generate(a) {
                    return false;
                }
                if !self.generate(b) {
                    return false;
                }
                self.emit_pop("rcx");
                self.emit_pop("rax");
                let t = self.gen_asm().plus();
                self.emit(t);
                self.emit_push("rax");
                true
            },
        }
    }

    /// `a + b`.
    #[verifier::spinoff_prover]
    #[verifier::rlimit(100)]
    fn generate_plus(&mut self, a: &AstType, b: &AstType) -> (ok: bool)
        ensures
            old(self).emitted(final(self), g_binary(old(self).ctx(), old(self).st(), AstView::Plus(Box::new(a@), Box::new(b@))), ok),
        decreases AstView::Plus(Box::new(a@), Box::new(b@)), 8int,
    {
        reveal_with_fuel(g_binary, 1);
        proof {
            lemma_children(AstView::Plus(Box::new(a@), Box::new(b@)));
        }
        match a {
            AstType::Variable(_, ast::Structure::Pointer, _) => self.generate_plus_with_pointer(a, b),
            AstType::Variable(_, s1, _) => self.generate_plus_variable(a, b, s1),
            _ => {
                if !self.generate(a) {
                    return false;
                }
                if !self.generate(b) {
                    return false;
                }
                self.emit_pop("rcx");
                self.emit_pop("rax");
                let t = self.gen_asm().plus();
                self.emit(t);
                self.emit_push("rax");
                true
            },
        }
    }

    /// `a - b` with `a` a pointer: `b` scaled by 8.
    fn generate_minus_with_pointer(&mut self, a: &AstType, b: &AstType) -> (ok: bool)
        ensures
            old(self).emitted(
                final(self),
                both(old(self).ctx(), old(self).st(), a@, b@, pointer_tail(sub_text("rax"@, "rcx"@))),
                ok,
            ),
        decreases AstView::Minus(Box::new(a@), Box::new(b@)), 6int,
    {
        proof {
            lemma_children(AstView::Minus(Box::new(a@), Box::new(b@)));
        }
        if !self.generate(a) {
            return false;
        }
        if !self.generate(b) {
            return false;
        }
        self.emit_pop("rax");
        let t = self.gen_asm().mov_imm("rcx", 8);
        self.emit(t);
        let t = self.gen_asm().mul("rcx");
        self.emit(t);
        self.emit_pop("rcx");
        let t = self.gen_asm().sub("rax", "rcx");
        self.emit(t);
        self.emit_push("rcx");
        true
    }

    /// `a - b`: pointer arithmetic when `a` is a pointer and `b` an `int`
    /// variable or a number.
    #[verifier::spinoff_prover]
    #[verifier::rlimit(100)]
    fn generate_minus(&mut self, a: &AstType, b: &AstType) -> (ok: bool)
        ensures
            old(self).emitted(final(self), g_binary(old(self).ctx(), old(self).st(), AstView::Minus(Box::new(a@), Box::new(b@))), ok),
        decreases AstView::Minus(Box::new(a@), Box::new(b@)), 8int,
    {
        reveal_with_fuel(g_binary, 1);
        proof {
            lemma_children(AstView::Minus(Box::new(a@), Box::new(b@)));
        }
        let pointer = match a {
            AstType::Variable(_, ast::Structure::Pointer, _) => true,
            _ => false,
        };
        let offset = match b {
            AstType::Variable(ast::Type::Int, _, _) => true,
            AstType::Factor(_) => true,
            _ => false,
        };
        proof {
            lemma_view_kind(a);
            lemma_view_kind(b);
            assert(minus_pointer(a@, b@) == (pointer && offset));
        }
        match pointer && offset {
            true => self.generate_minus_with_pointer(a, b),
            false => {
                if !self.generate(a) {
                    return false;
                }
                if !self.generate(b) {
                    return false;
                }
                self.emit_pop("rcx");
                self.emit_pop("rax");
                let t = self.gen_asm().minus();
                self.emit(t);
                self.emit_push("rax");
                true
            },
        }
    }

    /// A comparison, shift, bitwise or multiplicative operator `ast` on `a`
    /// and `b`; the remainder is taken from `%rdx`.
    #[verifier::spinoff_prover]
    #[verifier::rlimit(100)]
    fn generate_operator(&mut self, ast: &AstType, a: &AstType, b: &AstType) -> (ok: bool)
        requires
            operands(ast@, a@, b@),
            !(ast@ is Plus),
            !(ast@ is Minus),
        ensures
            old(self).emitted(final(self), g_binary(old(self).ctx(), old(self).st(), ast@), ok),
        decreases ast@, 8int,
    {
        reveal_with_fuel(g_binary, 1);
        proof {
            lemma_operands(ast@, a@, b@);
        }
        if !self.generate(a) {
            return false;
        }
        if !self.generate(b) {
            return false;
        }
        self.emit_pop("rcx");
        self.emit_pop("rax");
        let t = self.operator(ast);
        self.emit(t);
        match ast {
            AstType::Remainder(_, _) => self.emit_push("rdx"),
            _ => self.emit_push("rax"),
        }
        true
    }

    /// `&a`: the address of local variable `a`.
    fn generate_address(&mut self, a: &AstType) -> (ok: bool)
        ensures
            old(self).emitted(final(self), g_address(old(self).ctx(), old(self).st(), AstView::Address(Box::new(a@))), ok),
    {
        reveal(g_address);
        match a {
            AstType::Variable(_, _, n) => {
                let local = Scope::Local(String::new());
                let ret = match self.var_table.search(&local, n.as_str()) {
                    Some(ret) => ret,
                    None => return false,
                };
                let pos = match slot_of(&ret) {
                    Some(pos) => pos,
                    None => return false,
                };
                let t = self.gen_asm().lea(pos);
                self.emit(t);
                self.emit_push("rax");
                true
            },
            _ => false,
        }
    }

    /// The instructions of operator `ope`.
    fn operator(&self, ope: &AstType) -> (r: String)
        ensures
            r@ == operator_text(ope@),
    {
        match ope {
            AstType::Multiple(_, _) => self.gen_asm().multiple(),
            AstType::Equal(_, _) => self.gen_asm().equal(),
            AstType::NotEqual(_, _) => self.gen_asm().not_equal(),
            AstType::LessThan(_, _) => self.gen_asm().less_than(),
            AstType::GreaterThan(_, _) => self.gen_asm().greater_than(),
            AstType::LessThanEqual(_, _) => self.gen_asm().less_than_equal(),
            AstType::GreaterThanEqual(_, _) => self.gen_asm().greater_than_equal(),
            AstType::LeftShift(_, _) => self.gen_asm().left_shift(),
            AstType::RightShift(_, _) => self.gen_asm().right_shift(),
            AstType::BitAnd(_, _) => self.gen_asm().bit_and(),
            AstType::BitOr(_, _) => self.gen_asm().bit_or(),
            AstType::BitXor(_, _) => self.gen_asm().bit_xor(),
            _ => self.gen_asm().bit_division(),
        }
    }
}

/// A non-variable among the first `k` items makes the whole list fail.
proof fn lemma_global_text_none(v: Seq<AstView>, k: int)
    requires
        0 <= k <= v.len(),
        global_text(v.subrange(0, k)) is None,
    ensures
        global_text(v) is None,
    decreases v.len() - k,
{
    if k < v.len() {
        let pre = v.subrange(0, k + 1);
        assert(pre.drop_last() =~= v.subrange(0, k));
        lemma_global_text_none(v, k + 1);
    } else {
        assert(v.subrange(0, k) =~= v);
    }
}

} // verus!
