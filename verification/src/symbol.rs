use vstd::prelude::*;
use crate::text::str_eq;

verus! {

/// Where a symbol lives.
#[derive(Debug, Clone, PartialEq, Eq, Hash)]
pub enum Scope {
    Global,
    Local(String),
    Block(String),
    Func,
    Unknown,
}

pub ghost enum ScopeView {
    Global,
    Local(Seq<char>),
    Block(Seq<char>),
    Func,
    Unknown,
}

impl View for Scope {
    type V = ScopeView;

    open spec fn view(&self) -> ScopeView {
        match self {
            Scope::Global => ScopeView::Global,
            Scope::Local(s) => ScopeView::Local(s@),
            Scope::Block(s) => ScopeView::Block(s@),
            Scope::Func => ScopeView::Func,
            Scope::Unknown => ScopeView::Unknown,
        }
    }
}

/// Type of a symbol.
#[derive(Debug, Clone, PartialEq)]
pub enum Type {
    Int,
    Char,
    Short,
    Long,
    Struct(String),
    Unknown(String),
}

pub ghost enum TypeView {
    Int,
    Char,
    Short,
    Long,
    Struct(Seq<char>),
    Unknown(Seq<char>),
}

impl View for Type {
    type V = TypeView;

    open spec fn view(&self) -> TypeView {
        match self {
            Type::Int => TypeView::Int,
            Type::Char => TypeView::Char,
            Type::Short => TypeView::Short,
            Type::Long => TypeView::Long,
            Type::Struct(s) => TypeView::Struct(s@),
            Type::Unknown(s) => TypeView::Unknown(s@),
        }
    }
}

/// Shape of a symbol: plain, pointer, array with its dimensions, structure.
#[derive(Debug, Clone, PartialEq)]
pub enum Structure {
    Identifier,
    Pointer,
    Array(Vec<usize>),
    Struct,
    Unknown,
}

pub ghost enum StructureView {
    Identifier,
    Pointer,
    Array(Seq<usize>),
    Struct,
    Unknown,
}

impl View for Structure {
    type V = StructureView;

    open spec fn view(&self) -> StructureView {
        match self {
            Structure::Identifier => StructureView::Identifier,
            Structure::Pointer => StructureView::Pointer,
            Structure::Array(v) => StructureView::Array(v@),
            Structure::Struct => StructureView::Struct,
            Structure::Unknown => StructureView::Unknown,
        }
    }
}

/// A named entity with its layout: position, offset and size.
#[derive(Debug, PartialEq)]
pub struct Symbol {
    pub scope: Scope,
    pub var: String,
    pub t: Type,
    pub strt: Structure,
    pub pos: usize,
    pub offset: usize,
    pub size: usize,
    pub members: Vec<Symbol>,
}

pub ghost struct SymbolView {
    pub scope: ScopeView,
    pub var: Seq<char>,
    pub t: TypeView,
    pub strt: StructureView,
    pub pos: usize,
    pub offset: usize,
    pub size: usize,
    pub members: Seq<SymbolView>,
}

impl View for Symbol {
    type V = SymbolView;

    open spec fn view(&self) -> SymbolView {
        symbol_view(self)
    }
}

/// The content of a symbol, its members included.
pub open spec fn symbol_view(s: &Symbol) -> SymbolView
    decreases s,
{
    SymbolView {
        scope: s.scope@,
        var: s.var@,
        t: s.t@,
        strt: s.strt@,
        pos: s.pos,
        offset: s.offset,
        size: s.size,
        members: Seq::new(
            s.members@.len(),
            |i: int|
                if 0 <= i < s.members@.len() {
                    symbol_view(&s.members@[i])
                } else {
                    arbitrary()
                },
        ),
    }
}

/// A list of symbols.
#[derive(Debug, PartialEq)]
pub struct SymbolTable {
    pub table: Vec<Symbol>,
}

impl View for SymbolTable {
    type V = Seq<SymbolView>;

    open spec fn view(&self) -> Seq<SymbolView> {
        self.table@.map_values(|s: Symbol| s@)
    }
}

// ---------------------------------------------------------------------------
// Sizes.

/// Sum of a sequence of integers.
pub open spec fn sum(s: Seq<int>) -> int
    decreases s.len(),
{
    if s.len() == 0 {
        0
    } else {
        sum(s.drop_last()) + s.last()
    }
}

/// Product of the dimensions of an array.
pub open spec fn product(s: Seq<usize>) -> int
    decreases s.len(),
{
    if s.len() == 0 {
        1
    } else {
        product(s.drop_last()) * s.last()
    }
}

/// Largest recorded `size` among symbols (0 for none).
pub open spec fn max_size(s: Seq<SymbolView>) -> int
    decreases s.len(),
{
    if s.len() == 0 {
        0
    } else {
        let m = max_size(s.drop_last());
        if s.last().size as int > m { s.last().size as int } else { m }
    }
}

/// The sizes of the members, each computed by `type_size`.
pub open spec fn member_sizes(s: SymbolView) -> Seq<int>
    decreases s, 0int,
{
    Seq::new(
        s.members.len(),
        |i: int| if 0 <= i < s.members.len() { type_size(s.members[i]) } else { 0 },
    )
}

/// The size of a value of the symbol's type: 8 for pointers and arrays,
/// 4 for `int`, 1 for `char`, the members' sizes summed and rounded up to a
/// multiple of the largest member's recorded size for a structure, 0 otherwise.
pub open spec fn type_size(s: SymbolView) -> int
    decreases s, 1int,
{
    match s.strt {
        StructureView::Pointer => 8,
        StructureView::Array(_) => 8,
        _ => match s.t {
            TypeView::Int => 4,
            TypeView::Char => 1,
            TypeView::Struct(_) => {
                if s.members.len() > 0 {
                    let m = max_size(s.members);
                    let total = sum(member_sizes(s));
                    if total % m == 0 {
                        total
                    } else {
                        (total / m) * m + m
                    }
                } else {
                    0
                }
            },
            _ => 0,
        },
    }
}

/// `type_size` can be computed in `usize` without dividing by zero.
pub open spec fn size_computable(s: SymbolView) -> bool
    decreases s,
{
    match s.strt {
        StructureView::Pointer => true,
        StructureView::Array(_) => true,
        _ => match s.t {
            TypeView::Struct(_) => {
                s.members.len() > 0 ==> {
                    &&& forall|i: int|
                        0 <= i < s.members.len() ==> size_computable(#[trigger] s.members[i])
                    &&& max_size(s.members) > 0
                    &&& sum(member_sizes(s)) <= usize::MAX
                    &&& type_size(s) <= usize::MAX
                }
            },
            _ => true,
        },
    }
}


/// The sum of all but the last element is at most the whole sum when the
/// elements are not negative.
pub proof fn lemma_sum_prefix(s: Seq<int>, k: int)
    requires
        0 <= k <= s.len(),
        forall|i: int| 0 <= i < s.len() ==> s[i] >= 0,
    ensures
        sum(s.subrange(0, k)) <= sum(s),
        sum(s.subrange(0, k)) >= 0,
    decreases s.len() - k,
{
    if k < s.len() {
        lemma_sum_prefix(s, k + 1);
        assert(s.subrange(0, k + 1).drop_last() == s.subrange(0, k));
    } else {
        assert(s.subrange(0, k) == s);
    }
    lemma_sum_nonneg(s.subrange(0, k));
}

pub proof fn lemma_sum_nonneg(s: Seq<int>)
    requires
        forall|i: int| 0 <= i < s.len() ==> s[i] >= 0,
    ensures
        sum(s) >= 0,
    decreases s.len(),
{
    if s.len() > 0 {
        lemma_sum_nonneg(s.drop_last());
    }
}

/// A computable size is never negative.
pub proof fn lemma_type_size_nonneg(s: SymbolView)
    requires
        size_computable(s),
    ensures
        type_size(s) >= 0,
    decreases s,
{
    match s.strt {
        StructureView::Pointer => {},
        StructureView::Array(_) => {},
        _ => match s.t {
            TypeView::Struct(_) => {
                if s.members.len() > 0 {
                    let ms = member_sizes(s);
                    assert forall|i: int| 0 <= i < ms.len() implies ms[i] >= 0 by {
                        lemma_type_size_nonneg(s.members[i]);
                    }
                    lemma_sum_nonneg(ms);
                    let m = max_size(s.members);
                    let total = sum(ms);
                    assert((total / m) * m + m >= 0) by (nonlinear_arith)
                        requires m > 0, total >= 0;
                }
            },
            _ => {},
        },
    }
}

impl Scope {
    /// A copy with the same content.
    pub fn duplicate(&self) -> (r: Scope)
        ensures
            r@ == self@,
    {
        match self {
            Scope::Global => Scope::Global,
            Scope::Local(s) => Scope::Local(s.clone()),
            Scope::Block(s) => Scope::Block(s.clone()),
            Scope::Func => Scope::Func,
            Scope::Unknown => Scope::Unknown,
        }
    }

    /// Whether two scopes are the same.
    pub fn same(&self, other: &Scope) -> (r: bool)
        ensures
            r == (self@ == other@),
    {
        match (self, other) {
            (Scope::Global, Scope::Global) => true,
            (Scope::Local(a), Scope::Local(b)) => str_eq(a, b),
            (Scope::Block(a), Scope::Block(b)) => str_eq(a, b),
            (Scope::Func, Scope::Func) => true,
            (Scope::Unknown, Scope::Unknown) => true,
            _ => false,
        }
    }
}

impl Type {
    /// A copy with the same content.
    pub fn duplicate(&self) -> (r: Type)
        ensures
            r@ == self@,
    {
        match self {
            Type::Int => Type::Int,
            Type::Char => Type::Char,
            Type::Short => Type::Short,
            Type::Long => Type::Long,
            Type::Struct(s) => Type::Struct(s.clone()),
            Type::Unknown(s) => Type::Unknown(s.clone()),
        }
    }
}

/// A copy of a vector of numbers.
pub fn copy_usizes(v: &Vec<usize>) -> (r: Vec<usize>)
    ensures
        r@ == v@,
{
    let mut r: Vec<usize> = Vec::new();
    let mut i: usize = 0;
    while i < v.len()
        invariant
            i <= v.len(),
            r@ == v@.subrange(0, i as int),
        decreases v.len() - i,
    {
        r.push(v[i]);
        assert(v@.subrange(0, i + 1) == v@.subrange(0, i as int).push(v@[i as int]));
        i = i + 1;
    }
    assert(v@.subrange(0, v.len() as int) == v@);
    r
}

impl Structure {
    /// A copy with the same content.
    pub fn duplicate(&self) -> (r: Structure)
        ensures
            r@ == self@,
    {
        match self {
            Structure::Identifier => Structure::Identifier,
            Structure::Pointer => Structure::Pointer,
            Structure::Array(v) => Structure::Array(copy_usizes(v)),
            Structure::Struct => Structure::Struct,
            Structure::Unknown => Structure::Unknown,
        }
    }
}

impl Symbol {
    pub fn new(s: Scope, v: String, ty: Type, st: Structure) -> (r: Symbol)
        ensures
            r@ == (SymbolView {
                scope: s@,
                var: v@,
                t: ty@,
                strt: st@,
                pos: 0,
                offset: 0,
                size: 0,
                members: Seq::empty(),
            }),
    {
        let r = Symbol {
            scope: s,
            var: v,
            t: ty,
            strt: st,
            pos: 0,
            offset: 0,
            size: 0,
            members: vec![],
        };
        assert(r@.members =~= Seq::<SymbolView>::empty());
        r
    }

    /// A copy with the same content.
    pub fn duplicate(&self) -> (r: Symbol)
        ensures
            r@ == self@,
        decreases self,
    {
        let mut members: Vec<Symbol> = Vec::new();
        let mut i: usize = 0;
        while i < self.members.len()
            invariant
                i <= self.members@.len(),
                members@.len() == i,
                forall|j: int| 0 <= j < i ==> #[trigger] members@[j]@ == self.members@[j]@,
            decreases self.members.len() - i,
        {
            let m = self.members[i].duplicate();
            members.push(m);
            i = i + 1;
        }
        let r = Symbol {
            scope: self.scope.duplicate(),
            var: self.var.clone(),
            t: self.t.duplicate(),
            strt: self.strt.duplicate(),
            pos: self.pos,
            offset: self.offset,
            size: self.size,
            members,
        };
        assert forall|j: int| 0 <= j < self.members@.len() implies #[trigger] r@.members[j] == self@.members[j] by {
            assert(r@.members[j] == r.members@[j]@);
            assert(self@.members[j] == self.members@[j]@);
        }
        assert(r@.members =~= self@.members);
        r
    }

    /// Stores the members, each with its `size` set to its `type_size`.
    pub fn regist_mem(&mut self, mem: Vec<Symbol>)
        requires
            forall|i: int| 0 <= i < mem@.len() ==> size_computable(#[trigger] mem@[i]@),
        ensures
            final(self)@ == (SymbolView {
                members: Seq::new(
                    mem@.len(),
                    |i: int| SymbolView { size: type_size(mem@[i]@) as usize, ..mem@[i]@ },
                ),
                ..old(self)@
            }),
    {
        let mut out: Vec<Symbol> = Vec::new();
        let mut mem = mem;
        let ghost orig = mem@;
        let n = mem.len();
        while mem.len() > 0
            invariant
                orig.len() == n,
                out@.len() + mem@.len() == n,
                mem@ == orig.subrange(out@.len() as int, n as int),
                forall|i: int| 0 <= i < orig.len() ==> size_computable(#[trigger] orig[i]@),
                forall|j: int|
                    0 <= j < out@.len() ==> #[trigger] out@[j]@ == (SymbolView {
                        size: type_size(orig[j]@) as usize,
                        ..orig[j]@
                    }),
            decreases mem.len(),
        {
            let ghost k = out@.len() as int;
            let mut m = mem.remove(0);
            assert(m == orig[k]);
            m.size = m.type_size();
            out.push(m);
            assert(mem@ =~= orig.subrange(k + 1, n as int));
        }
        self.members = out;
        let ghost target = Seq::new(
            orig.len(),
            |i: int| SymbolView { size: type_size(orig[i]@) as usize, ..orig[i]@ },
        );
        assert forall|i: int| 0 <= i < n implies #[trigger] self@.members[i] == target[i] by {
            assert(self@.members[i] == self.members@[i]@);
        }
        assert(self@.members =~= target);
    }

    /// Size of a value of this symbol's type (see `type_size`).
    pub fn type_size(&self) -> (r: usize)
        requires
            size_computable(self@),
        ensures
            r == type_size(self@),
        decreases self,
    {
        match self.strt {
            Structure::Pointer => 8,
            Structure::Array(_) => 8,
            _ => match self.t {
                Type::Int => 4,
                Type::Char => 1,
                Type::Struct(_) => {
                    let n = self.members.len();
                    if n == 0 {
                        return 0;
                    }
                    let ghost v = self@;
                    let ghost ms = member_sizes(v);
                    assert(v.members.len() == n);
                    assert(ms.len() == n);
                    assert forall|j: int| 0 <= j < n implies #[trigger] v.members[j] == self.members@[j]@ by {}
                    // Largest recorded member size.
                    let mut max: usize = 0;
                    let mut i: usize = 0;
                    while i < n
                        invariant
                            n == self.members@.len(),
                            v == self@,
                            v.members.len() == n,
                            i <= n,
                            max as int == max_size(v.members.subrange(0, i as int)),
                        decreases n - i,
                    {
                        assert(v.members.subrange(0, i + 1).drop_last() == v.members.subrange(0, i as int));
                        assert(v.members[i as int] == self.members@[i as int]@);
                        if self.members[i].size > max {
                            max = self.members[i].size;
                        }
                        i = i + 1;
                    }
                    assert(v.members.subrange(0, n as int) == v.members);
                    // Sum of the members' sizes.
                    assert forall|j: int| 0 <= j < ms.len() implies ms[j] >= 0 by {
                        lemma_type_size_nonneg(v.members[j]);
                    }
                    let mut total: usize = 0;
                    let mut i: usize = 0;
                    while i < n
                        invariant
                            n == self.members@.len(),
                            v == self@,
                            v.members.len() == n,
                            forall|j: int| 0 <= j < n ==> #[trigger] v.members[j] == self.members@[j]@,
                            ms == member_sizes(v),
                            ms.len() == n,
                            i <= n,
                            total as int == sum(ms.subrange(0, i as int)),
                            sum(ms) <= usize::MAX,
                            forall|j: int| 0 <= j < n ==> size_computable(#[trigger] v.members[j]),
                            forall|j: int| 0 <= j < ms.len() ==> ms[j] >= 0,
                        decreases n - i,
                    {
                        proof {
                            lemma_sum_prefix(ms, i + 1);
                            assert(ms.subrange(0, i + 1).drop_last() == ms.subrange(0, i as int));
                            assert(self.members@[i as int]@ == v.members[i as int]);
                        }
                        let s = self.members[i].type_size();
                        total = total + s;
                        i = i + 1;
                    }
                    assert(ms.subrange(0, n as int) == ms);
                    if total % max == 0 {
                        total
                    } else {
                        assert((total / max) * max <= total) by (nonlinear_arith)
                            requires max > 0, total >= 0;
                        (total / max) * max + max
                    }
                },
                _ => 0,
            },
        }
    }
}


// ---------------------------------------------------------------------------
// The table.

/// The first symbol of the given scope and name.
pub open spec fn find(t: Seq<SymbolView>, sc: ScopeView, v: Seq<char>) -> Option<SymbolView>
    decreases t.len(),
{
    if t.len() == 0 {
        None
    } else {
        match find(t.drop_last(), sc, v) {
            Some(s) => Some(s),
            None => if t.last().scope == sc && t.last().var == v {
                Some(t.last())
            } else {
                None
            },
        }
    }
}

/// The last symbol of the given scope.
pub open spec fn last_in(t: Seq<SymbolView>, sc: ScopeView) -> Option<SymbolView>
    decreases t.len(),
{
    if t.len() == 0 {
        None
    } else if t.last().scope == sc {
        Some(t.last())
    } else {
        last_in(t.drop_last(), sc)
    }
}

/// Number of symbols of the given scope.
pub open spec fn count_in(t: Seq<SymbolView>, sc: ScopeView) -> nat
    decreases t.len(),
{
    if t.len() == 0 {
        0
    } else {
        count_in(t.drop_last(), sc) + if t.last().scope == sc { 1nat } else { 0nat }
    }
}

/// Sum of `i * size` over the dimensions `i` of an array.
pub open spec fn dims_size(items: Seq<usize>, size: int) -> int
    decreases items.len(),
{
    if items.len() == 0 {
        0
    } else {
        dims_size(items.drop_last(), size) + items.last() * size
    }
}

/// What a symbol adds to the total size of its scope.
pub open spec fn size_share(s: SymbolView) -> int {
    match s.strt {
        StructureView::Pointer => 8,
        StructureView::Identifier => type_size(s),
        StructureView::Array(items) => dims_size(items, type_size(s)),
        _ => 0,
    }
}

/// Total size of the symbols of the given scope.
pub open spec fn size_in(t: Seq<SymbolView>, sc: ScopeView) -> int
    decreases t.len(),
{
    if t.len() == 0 {
        0
    } else {
        size_in(t.drop_last(), sc) + if t.last().scope == sc { size_share(t.last()) } else { 0 }
    }
}

/// The size in `usize` can be summed for every symbol of the scope.
pub open spec fn size_in_computable(t: Seq<SymbolView>, sc: ScopeView) -> bool {
    &&& forall|i: int|
        0 <= i < t.len() && t[i].scope == sc ==> size_computable(#[trigger] t[i])
    &&& forall|k: int| 0 <= k <= t.len() ==> #[trigger] size_in(t.subrange(0, k), sc) <= usize::MAX
}

/// How a variable is laid out after the last symbol of its scope: the first
/// one takes position 1 and offset 0; later ones follow the previous symbol
/// (an array advances the position by its element count), and the offset is
/// the previous offset plus the previous size, rounded down to a multiple of
/// 8 (plus 8 more after a plain variable).
pub open spec fn placed(t: Seq<SymbolView>, sym: SymbolView) -> SymbolView {
    match last_in(t, sym.scope) {
        None => SymbolView {
            pos: 1,
            offset: 0,
            size: (match sym.strt {
                StructureView::Array(v) => type_size(sym) * product(v),
                _ => type_size(sym),
            }) as usize,
            ..sym
        },
        Some(pre) => match pre.strt {
            StructureView::Array(v) => SymbolView {
                pos: (pre.pos + product(v)) as usize,
                size: (type_size(sym) * product(v)) as usize,
                offset: ((pre.offset + type_size(pre) * product(v)) / 8 * 8) as usize,
                ..sym
            },
            StructureView::Pointer => SymbolView {
                pos: (pre.pos + 1) as usize,
                size: type_size(sym) as usize,
                offset: ((pre.offset + type_size(pre)) / 8 * 8) as usize,
                ..sym
            },
            _ => SymbolView {
                pos: (pre.pos + 1) as usize,
                size: type_size(sym) as usize,
                offset: ((pre.offset + type_size(pre)) / 8 * 8 + 8) as usize,
                ..sym
            },
        },
    }
}

pub open spec fn in_usize(x: int) -> bool {
    0 <= x <= usize::MAX
}

/// Every partial product of the dimensions fits in `usize`.
pub open spec fn product_fits(v: Seq<usize>) -> bool {
    forall|k: int| 0 <= k <= v.len() ==> #[trigger] in_usize(product(v.subrange(0, k)))
}

/// The layout of `placed` can be computed in `usize`.
pub open spec fn placeable(t: Seq<SymbolView>, sym: SymbolView) -> bool {
    &&& size_computable(sym)
    &&& match last_in(t, sym.scope) {
        None => match sym.strt {
            StructureView::Array(v) => product_fits(v) && in_usize(type_size(sym) * product(v)),
            _ => true,
        },
        Some(pre) => {
            &&& size_computable(pre)
            &&& match pre.strt {
                StructureView::Array(v) => {
                    &&& product_fits(v)
                    &&& in_usize(pre.pos + product(v))
                    &&& in_usize(type_size(sym) * product(v))
                    &&& in_usize(type_size(pre) * product(v))
                    &&& in_usize(pre.offset + type_size(pre) * product(v))
                },
                StructureView::Pointer => in_usize(pre.pos + 1) && in_usize(
                    pre.offset + type_size(pre),
                ),
                _ => in_usize(pre.pos + 1) && in_usize(pre.offset + type_size(pre) + 8),
            }
        },
    }
}

/// What registering a symbol does to a table: nothing when a symbol of the
/// same scope and name exists; a function is added at position 1 with size
/// 8; a variable is added as `placed` says.
pub open spec fn registered(t: Seq<SymbolView>, sym: SymbolView) -> Seq<SymbolView> {
    if find(t, sym.scope, sym.var) is Some {
        t
    } else if sym.scope == ScopeView::Func {
        t.push(SymbolView { pos: 1, offset: 0, size: 8, ..sym })
    } else {
        t.push(placed(t, sym))
    }
}

/// Registering can be done without overflow.
pub open spec fn registrable(t: Seq<SymbolView>, sym: SymbolView) -> bool {
    find(t, sym.scope, sym.var) is None && sym.scope != ScopeView::Func ==> placeable(t, sym)
}

/// The table after an attempt to register `sym`: unchanged when a symbol
/// of the same scope and name exists; `None` when the table is full or the
/// new symbol's layout does not fit in `usize`.
pub open spec fn try_registered(t: Seq<SymbolView>, sym: SymbolView) -> Option<Seq<SymbolView>> {
    if find(t, sym.scope, sym.var) is Some {
        Some(t)
    } else if t.len() < usize::MAX && (sym.scope == ScopeView::Func || placeable(t, sym)) {
        Some(registered(t, sym))
    } else {
        None
    }
}

/// Product of the dimensions, or `None` when a partial product does not
/// fit in `usize`.
fn checked_product(v: &Vec<usize>) -> (r: Option<usize>)
    ensures
        r matches Some(p) ==> product_fits(v@) && p == product(v@),
        r is None ==> !product_fits(v@),
{
    let mut r: usize = 1;
    let mut i: usize = 0;
    assert(in_usize(product(v@.subrange(0, 0))));
    while i < v.len()
        invariant
            i <= v.len(),
            r == product(v@.subrange(0, i as int)),
            forall|k: int| 0 <= k <= i ==> #[trigger] in_usize(product(v@.subrange(0, k))),
        decreases v.len() - i,
    {
        assert(v@.subrange(0, i + 1).drop_last() == v@.subrange(0, i as int));
        let d = v[i];
        match r.checked_mul(d) {
            Some(x) => {
                assert(r * d >= 0) by (nonlinear_arith)
                    requires r >= 0, d >= 0;
                r = x;
            },
            None => {
                assert(!in_usize(product(v@.subrange(0, i + 1))));
                return None;
            },
        }
        i = i + 1;
    }
    assert(v@.subrange(0, v.len() as int) == v@);
    Some(r)
}

/// Product of the dimensions, computed in `usize`.
fn dims_product(v: &Vec<usize>) -> (r: usize)
    requires
        product_fits(v@),
    ensures
        r == product(v@),
{
    let mut r: usize = 1;
    let mut i: usize = 0;
    while i < v.len()
        invariant
            i <= v.len(),
            r == product(v@.subrange(0, i as int)),
            product_fits(v@),
        decreases v.len() - i,
    {
        proof {
            assert(v@.subrange(0, i + 1).drop_last() == v@.subrange(0, i as int));
            assert(in_usize(product(v@.subrange(0, i + 1))));
        }
        r = r * v[i];
        i = i + 1;
    }
    assert(v@.subrange(0, v.len() as int) == v@);
    r
}

impl SymbolTable {
    pub fn new() -> (t: SymbolTable)
        ensures
            t@ == Seq::<SymbolView>::empty(),
    {
        let t = SymbolTable { table: vec![] };
        assert(t@ =~= Seq::<SymbolView>::empty());
        t
    }

    proof fn lemma_view_push(old_t: Seq<Symbol>, s: Symbol)
        ensures
            old_t.push(s).map_values(|x: Symbol| x@) == old_t.map_values(|x: Symbol| x@).push(s@),
    {
        assert(old_t.push(s).map_values(|x: Symbol| x@) =~= old_t.map_values(|x: Symbol| x@).push(s@));
    }

    /// Adds a symbol unless one of the same scope and name exists.
    pub fn register_sym(&mut self, sym: Symbol)
        requires
            registrable(old(self)@, sym@),
            old(self).table@.len() < usize::MAX,
        ensures
            final(self)@ == registered(old(self)@, sym@),
    {
        if self.search(&sym.scope, &sym.var).is_none() {
            match sym.scope {
                Scope::Func => self.register_func(sym),
                _ => self.register_variable(sym),
            }
        }
    }

    fn register_func(&mut self, sym: Symbol)
        ensures
            final(self)@ == old(self)@.push(SymbolView { pos: 1, offset: 0, size: 8, ..sym@ }),
    {
        let mut reg = sym;
        reg.pos = 1;
        reg.offset = 0;
        reg.size = 8;
        proof {
            Self::lemma_view_push(self.table@, reg);
            assert(reg@ == SymbolView { pos: 1, offset: 0, size: 8, ..sym@ });
        }
        self.table.push(reg);
    }

    /// Index of the last symbol of a scope.
    fn last_index(&self, sc: &Scope) -> (r: Option<usize>)
        ensures
            match r {
                Some(i) => i < self.table@.len() && last_in(self@, sc@) == Some(self@[i as int]),
                None => last_in(self@, sc@) is None,
            },
    {
        let mut i: usize = self.table.len();
        assert(self@.subrange(0, i as int) == self@);
        while i > 0
            invariant
                i <= self.table@.len(),
                last_in(self@, sc@) == last_in(self@.subrange(0, i as int), sc@),
            decreases i,
        {
            let ghost pre = self@.subrange(0, i as int);
            assert(pre.drop_last() == self@.subrange(0, i - 1));
            assert(pre.last() == self@[i - 1]);
            assert(self@[i - 1] == self.table@[i - 1]@);
            if self.table[i - 1].scope.same(sc) {
                return Some(i - 1);
            }
            i = i - 1;
        }
        None
    }

    fn register_variable(&mut self, sym: Symbol)
        requires
            placeable(old(self)@, sym@),
            old(self).table@.len() < usize::MAX,
        ensures
            final(self)@ == old(self)@.push(placed(old(self)@, sym@)),
    {
        let mut reg = sym.duplicate();
        let last = self.last_index(&sym.scope);
        match last {
            None => {
                let size = match sym.strt {
                    Structure::Array(ref v) => {
                        let p = dims_product(v);
                        sym.type_size() * p
                    },
                    _ => sym.type_size(),
                };
                reg.pos = 1;
                reg.offset = 0;
                reg.size = size;
            },
            Some(idx) => {
                let pre_sym = &self.table[idx];
                assert(pre_sym@ == self@[idx as int]);
                match pre_sym.strt {
                    Structure::Array(ref v) => {
                        let count: usize = dims_product(v);
                        reg.pos = pre_sym.pos + count;
                        reg.size = sym.type_size() * count;
                        reg.offset = pre_sym.offset + pre_sym.type_size() * count;
                        reg.offset = (reg.offset / 8) * 8;
                    },
                    Structure::Pointer => {
                        reg.pos = pre_sym.pos + 1;
                        reg.size = sym.type_size();
                        reg.offset = pre_sym.offset + pre_sym.type_size();
                        reg.offset = (reg.offset / 8) * 8;
                    },
                    _ => {
                        reg.pos = pre_sym.pos + 1;
                        reg.size = sym.type_size();
                        reg.offset = pre_sym.offset + pre_sym.type_size();
                        reg.offset = (reg.offset / 8) * 8 + 8;
                    },
                }
            },
        }
        proof {
            Self::lemma_view_push(self.table@, reg);
            assert(reg@ == placed(old(self)@, sym@));
        }
        self.table.push(reg);
    }

    /// Whether the layout of `sym` after the table's symbols can be
    /// computed in `usize`.
    fn placeable_exec(&self, sym: &Symbol) -> (r: bool)
        requires
            size_computable(sym@),
            forall|i: int| 0 <= i < self@.len() ==> size_computable(#[trigger] self@[i]),
        ensures
            r == placeable(self@, sym@),
    {
        let ts = sym.type_size();
        proof {
            lemma_type_size_nonneg(sym@);
        }
        match self.last_index(&sym.scope) {
            None => match sym.strt {
                Structure::Array(ref v) => match checked_product(v) {
                    Some(p) => {
                        assert(ts * p >= 0) by (nonlinear_arith)
                            requires ts >= 0, p >= 0;
                        ts.checked_mul(p).is_some()
                    },
                    None => false,
                },
                _ => true,
            },
            Some(idx) => {
                let pre = &self.table[idx];
                assert(pre@ == self@[idx as int]);
                let pts = pre.type_size();
                proof {
                    lemma_type_size_nonneg(pre@);
                }
                match pre.strt {
                    Structure::Array(ref v) => match checked_product(v) {
                        Some(p) => {
                            assert(ts * p >= 0 && pts * p >= 0) by (nonlinear_arith)
                                requires ts >= 0, pts >= 0, p >= 0;
                            let a = pre.pos.checked_add(p).is_some();
                            let b = ts.checked_mul(p).is_some();
                            let c = match pts.checked_mul(p) {
                                Some(q) => pre.offset.checked_add(q).is_some(),
                                None => false,
                            };
                            a && b && c
                        },
                        None => false,
                    },
                    Structure::Pointer => pre.pos.checked_add(1).is_some() && pre.offset.checked_add(pts).is_some(),
                    _ => {
                        let a = pre.pos.checked_add(1).is_some();
                        let b = match pre.offset.checked_add(pts) {
                            Some(x) => x.checked_add(8).is_some(),
                            None => false,
                        };
                        a && b
                    },
                }
            },
        }
    }

    /// Registers `sym` as `register_sym` does when the table has room and
    /// the layout fits in `usize`; reports whether it could (a symbol of the
    /// same scope and name already there counts as done).
    pub fn try_register_sym(&mut self, sym: Symbol) -> (ok: bool)
        requires
            size_computable(sym@),
            forall|i: int| 0 <= i < old(self)@.len() ==> size_computable(#[trigger] old(self)@[i]),
        ensures
            ok == try_registered(old(self)@, sym@) is Some,
            ok ==> final(self)@ == try_registered(old(self)@, sym@)->0,
            !ok ==> final(self)@ == old(self)@,
    {
        if self.search(&sym.scope, &sym.var).is_some() {
            return true;
        }
        if self.table.len() == usize::MAX {
            return false;
        }
        let fits = match sym.scope {
            Scope::Func => true,
            _ => self.placeable_exec(&sym),
        };
        if fits {
            self.register_sym(sym);
            true
        } else {
            false
        }
    }

    /// A copy of the first symbol of the given scope and name.
    pub fn search(&self, scope: &Scope, var: &str) -> (r: Option<Symbol>)
        ensures
            match r {
                Some(s) => find(self@, scope@, var@) == Some(s@),
                None => find(self@, scope@, var@) is None,
            },
    {
        let v = String::from_str(var);
        let mut i: usize = 0;
        while i < self.table.len()
            invariant
                i <= self.table@.len(),
                v@ == var@,
                find(self@.subrange(0, i as int), scope@, var@) is None,
            decreases self.table.len() - i,
        {
            let ghost pre = self@.subrange(0, i + 1);
            assert(pre.drop_last() == self@.subrange(0, i as int));
            assert(pre.last() == self.table@[i as int]@);
            if self.table[i].scope.same(scope) && str_eq(&self.table[i].var, &v) {
                proof {
                    lemma_find_prefix(self@, scope@, var@, i + 1);
                }
                return Some(self.table[i].duplicate());
            }
            i = i + 1;
        }
        assert(self@.subrange(0, self.table@.len() as int) == self@);
        None
    }

    /// Number of symbols.
    pub fn count_all(&self) -> (r: usize)
        ensures
            r == self@.len(),
    {
        self.table.len()
    }

    /// Number of symbols of a scope.
    pub fn count(&self, scope: &Scope) -> (r: usize)
        ensures
            r == count_in(self@, scope@),
    {
        let mut c: usize = 0;
        let mut i: usize = 0;
        while i < self.table.len()
            invariant
                i <= self.table@.len(),
                c == count_in(self@.subrange(0, i as int), scope@),
                c <= i,
            decreases self.table.len() - i,
        {
            let ghost pre = self@.subrange(0, i + 1);
            assert(pre.drop_last() == self@.subrange(0, i as int));
            assert(pre.last() == self.table@[i as int]@);
            if self.table[i].scope.same(scope) {
                c = c + 1;
            }
            i = i + 1;
        }
        assert(self@.subrange(0, self.table@.len() as int) == self@);
        c
    }

    /// Total size of the symbols of a scope.
    pub fn size(&self, scope: &Scope) -> (r: usize)
        requires
            size_in_computable(self@, scope@),
        ensures
            r == size_in(self@, scope@),
    {
        let mut acc: usize = 0;
        let mut i: usize = 0;
        while i < self.table.len()
            invariant
                i <= self.table@.len(),
                size_in_computable(self@, scope@),
                acc == size_in(self@.subrange(0, i as int), scope@),
            decreases self.table.len() - i,
        {
            let ghost pre = self@.subrange(0, i + 1);
            assert(pre.drop_last() == self@.subrange(0, i as int));
            assert(pre.last() == self.table@[i as int]@);
            assert(size_in(pre, scope@) <= usize::MAX);
            let sym = &self.table[i];
            if sym.scope.same(scope) {
                proof {
                    lemma_type_size_nonneg(sym@);
                    lemma_size_in_nonneg(self@.subrange(0, i as int), scope@);
                }
                match sym.strt {
                    Structure::Pointer => {
                        acc = acc + 8;
                    },
                    Structure::Identifier => {
                        acc = acc + sym.type_size();
                    },
                    Structure::Array(ref items) => {
                        let ts = sym.type_size();
                        let mut acc2: usize = 0;
                        let mut j: usize = 0;
                        while j < items.len()
                            invariant
                                j <= items@.len(),
                                acc2 == dims_size(items@.subrange(0, j as int), ts as int),
                                acc + dims_size(items@, ts as int) <= usize::MAX,
                                acc >= 0,
                                ts >= 0,
                            decreases items.len() - j,
                        {
                            proof {
                                assert(items@.subrange(0, j + 1).drop_last() == items@.subrange(0, j as int));
                                lemma_dims_size_prefix(items@, ts as int, j + 1);
                            }
                            acc2 = acc2 + items[j] * ts;
                            j = j + 1;
                        }
                        assert(items@.subrange(0, items@.len() as int) == items@);
                        acc = acc + acc2;
                    },
                    _ => {},
                }
            }
            i = i + 1;
        }
        assert(self@.subrange(0, self.table@.len() as int) == self@);
        acc
    }
}

proof fn lemma_find_prefix(t: Seq<SymbolView>, sc: ScopeView, v: Seq<char>, k: int)
    requires
        0 <= k <= t.len(),
        find(t.subrange(0, k), sc, v) is Some,
    ensures
        find(t, sc, v) == find(t.subrange(0, k), sc, v),
    decreases t.len() - k,
{
    if k < t.len() {
        let b = t.subrange(0, k + 1);
        assert(b.drop_last() == t.subrange(0, k));
        lemma_find_prefix(t, sc, v, k + 1);
    } else {
        assert(t.subrange(0, k) == t);
    }
}

proof fn lemma_size_in_nonneg(t: Seq<SymbolView>, sc: ScopeView)
    requires
        forall|i: int| 0 <= i < t.len() && t[i].scope == sc ==> size_computable(#[trigger] t[i]),
    ensures
        size_in(t, sc) >= 0,
    decreases t.len(),
{
    if t.len() > 0 {
        lemma_size_in_nonneg(t.drop_last(), sc);
        if t.last().scope == sc {
            lemma_type_size_nonneg(t.last());
            lemma_dims_nonneg(t.last());
        }
    }
}

proof fn lemma_dims_nonneg(s: SymbolView)
    requires
        type_size(s) >= 0,
    ensures
        size_share(s) >= 0,
{
    if let StructureView::Array(items) = s.strt {
        lemma_dims_size_prefix(items, type_size(s), items.len() as int);
    }
}

proof fn lemma_dims_size_prefix(items: Seq<usize>, ts: int, k: int)
    requires
        0 <= k <= items.len(),
        ts >= 0,
    ensures
        0 <= dims_size(items.subrange(0, k), ts) <= dims_size(items, ts),
    decreases items.len() - k,
{
    if k < items.len() {
        lemma_dims_size_prefix(items, ts, k + 1);
        lemma_dims_size_nonneg(items.subrange(0, k), ts);
        let b = items.subrange(0, k + 1);
        assert(b.drop_last() == items.subrange(0, k));
        assert(items[k] * ts >= 0) by (nonlinear_arith)
            requires ts >= 0;
    } else {
        assert(items.subrange(0, k) == items);
        lemma_dims_size_nonneg(items, ts);
    }
}

proof fn lemma_dims_size_nonneg(items: Seq<usize>, ts: int)
    requires
        ts >= 0,
    ensures
        dims_size(items, ts) >= 0,
    decreases items.len(),
{
    if items.len() > 0 {
        lemma_dims_size_nonneg(items.drop_last(), ts);
        assert(items.last() * ts >= 0) by (nonlinear_arith)
            requires ts >= 0;
    }
}


// ---------------------------------------------------------------------------
// Laws of registration.

/// Looking up in a table with one more symbol: what was found before, or
/// else the new symbol if its scope and name match.
proof fn lemma_find_push(t: Seq<SymbolView>, x: SymbolView, sc: ScopeView, v: Seq<char>)
    ensures
        find(t.push(x), sc, v) == match find(t, sc, v) {
            Some(s) => Some(s),
            None => if x.scope == sc && x.var == v { Some(x) } else { None },
        },
{
    assert(t.push(x).drop_last() =~= t);
}

/// After registering a symbol, a lookup of its scope and name finds a
/// symbol of that scope and name: the one already there, else the new one
/// with the type and structure registered.
pub proof fn law_register_then_find(t: Seq<SymbolView>, sym: SymbolView)
    ensures
        find(t, sym.scope, sym.var) is Some ==> registered(t, sym) == t,
        find(t, sym.scope, sym.var) is Some ==> find(registered(t, sym), sym.scope, sym.var) == find(t, sym.scope, sym.var),
        find(t, sym.scope, sym.var) is None ==> find(registered(t, sym), sym.scope, sym.var) == Some(
            registered(t, sym).last(),
        ),
        find(t, sym.scope, sym.var) is None ==> registered(t, sym).last().scope == sym.scope
            && registered(t, sym).last().var == sym.var && registered(t, sym).last().t == sym.t
            && registered(t, sym).last().strt == sym.strt,
{
    if find(t, sym.scope, sym.var) is None {
        let x = registered(t, sym).last();
        assert(registered(t, sym) == t.push(x));
        lemma_find_push(t, x, sym.scope, sym.var);
    }
}

/// Registering a symbol whose scope and name are new adds exactly one
/// symbol, at the end, to the whole table and to its scope; the symbol
/// added keeps the scope, name, type, structure and members registered.
pub proof fn law_register_new(t: Seq<SymbolView>, sym: SymbolView)
    requires
        find(t, sym.scope, sym.var) is None,
    ensures
        registered(t, sym).len() == t.len() + 1,
        registered(t, sym).drop_last() == t,
        count_in(registered(t, sym), sym.scope) == count_in(t, sym.scope) + 1,
        forall|sc: ScopeView| sc != sym.scope ==> #[trigger] count_in(registered(t, sym), sc) == count_in(t, sc),
        registered(t, sym).last().scope == sym.scope,
        registered(t, sym).last().var == sym.var,
        registered(t, sym).last().t == sym.t,
        registered(t, sym).last().strt == sym.strt,
        registered(t, sym).last().members == sym.members,
{
    let x = registered(t, sym).last();
    assert(registered(t, sym) == t.push(x));
    assert(t.push(x).drop_last() =~= t);
}

/// Registering leaves every other scope and name as it was found before.
pub proof fn law_register_keeps_others(t: Seq<SymbolView>, sym: SymbolView, sc: ScopeView, v: Seq<char>)
    requires
        sc != sym.scope || v != sym.var,
    ensures
        find(registered(t, sym), sc, v) == find(t, sc, v),
{
    if find(t, sym.scope, sym.var) is None {
        let x = registered(t, sym).last();
        assert(registered(t, sym) == t.push(x));
        lemma_find_push(t, x, sc, v);
    }
}

/// No two symbols of the table share both scope and name.
pub open spec fn unique_names(t: Seq<SymbolView>) -> bool {
    forall|i: int, j: int|
        0 <= i < j < t.len() ==> !(#[trigger] t[i].scope == #[trigger] t[j].scope && t[i].var == t[j].var)
}

/// Where a lookup finds nothing, no symbol has that scope and name.
proof fn lemma_find_none(t: Seq<SymbolView>, sc: ScopeView, v: Seq<char>)
    ensures
        find(t, sc, v) is None ==> forall|i: int| 0 <= i < t.len() ==> !(#[trigger] t[i].scope == sc && t[i].var == v),
    decreases t.len(),
{
    if t.len() > 0 {
        lemma_find_none(t.drop_last(), sc, v);
        if find(t, sc, v) is None {
            assert forall|i: int| 0 <= i < t.len() implies !(#[trigger] t[i].scope == sc && t[i].var == v) by {
                if i < t.len() - 1 {
                    assert(t.drop_last()[i] == t[i]);
                }
            }
        }
    }
}

/// Registration keeps the names of a table unique.
pub proof fn law_register_keeps_names_unique(t: Seq<SymbolView>, sym: SymbolView)
    requires
        unique_names(t),
    ensures
        unique_names(registered(t, sym)),
{
    if find(t, sym.scope, sym.var) is None {
        lemma_find_none(t, sym.scope, sym.var);
        let r = registered(t, sym);
        assert(r.last().scope == sym.scope && r.last().var == sym.var);
        assert forall|i: int, j: int| 0 <= i < j < r.len() implies !(#[trigger] r[i].scope == #[trigger] r[j].scope && r[i].var == r[j].var) by {
            assert(r[i] == t[i]);
            if j < t.len() {
                assert(r[j] == t[j]);
            }
        }
    }
}

/// Registering the same symbol twice is registering it once.
pub proof fn law_register_idempotent(t: Seq<SymbolView>, sym: SymbolView)
    ensures
        registered(registered(t, sym), sym) == registered(t, sym),
{
    law_register_then_find(t, sym);
}

/// A variable registered after others of its scope takes a later position
/// than the last of them (an array before it with a zero dimension takes
/// no position, and is left out), so that variables of one scope never
/// share a position. Registration only adds a variable whose layout fits
/// in `usize` (`try_registered`).
/// Positions are handed out one element at a time and never shared: the
/// first variable of a scope is at position 1, and each later one comes
/// right after all the elements of the one before (one for a plain name or
/// a pointer, the product of the dimensions for an array).
pub proof fn law_positions_follow(t: Seq<SymbolView>, sym: SymbolView)
    requires
        find(t, sym.scope, sym.var) is None,
        sym.scope != ScopeView::Func,
        placeable(t, sym),
    ensures
        last_in(t, sym.scope) is None ==> registered(t, sym).last().pos == 1,
        last_in(t, sym.scope) matches Some(pre) ==> registered(t, sym).last().pos == pre.pos + match pre.strt {
            StructureView::Array(v) => product(v),
            _ => 1,
        },
{
}

pub proof fn law_positions_increase(t: Seq<SymbolView>, sym: SymbolView)
    requires
        find(t, sym.scope, sym.var) is None,
        sym.scope != ScopeView::Func,
        placeable(t, sym),
        last_in(t, sym.scope) is Some,
        last_in(t, sym.scope)->0.strt matches StructureView::Array(v) ==> product(v) > 0,
    ensures
        registered(t, sym).last().pos > last_in(t, sym.scope)->0.pos,
{
}

} // verus!
