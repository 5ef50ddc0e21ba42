//! The types the checker gives names, and the stack of scopes that maps
//! each name to the type of its innermost definition.
use vstd::prelude::*;
use crate::text::str_eq;
use crate::riscv_codegen::register_alloc::{last_key, lemma_last_key, lemma_last_key_push};

verus! {

/// The type of a name in a SysY program.
#[derive(Debug)]
pub enum Type {
    Int,
    Func(Func),
    Void,
    Array(ArrayStruct),
}

impl Type {
    /// True for a function type.
    pub fn is_func(&self) -> (r: bool)
        ensures
            r == (*self is Func),
    {
        match self {
            Type::Func(_) => true,
            _ => false,
        }
    }

    /// True for an array type.
    pub fn is_array(&self) -> (r: bool)
        ensures
            r == (*self is Array),
    {
        match self {
            Type::Array(_) => true,
            _ => false,
        }
    }

    /// True for `int`.
    pub fn is_int(&self) -> (r: bool)
        ensures
            r == (*self is Int),
    {
        match self {
            Type::Int => true,
            _ => false,
        }
    }

    /// True for `void`.
    pub fn is_void(&self) -> (r: bool)
        ensures
            r == (*self is Void),
    {
        match self {
            Type::Void => true,
            _ => false,
        }
    }

    /// True when both types are of the same sort: both `int`, both arrays,
    /// both functions or both `void`.
    pub fn is_same_type(&self, other: &Self) -> (r: bool)
        ensures
            r == ((*self is Int && *other is Int) || (*self is Array && *other is Array)
                || (*self is Func && *other is Func) || (*self is Void && *other is Void)),
    {
        (self.is_int() && other.is_int()) || (self.is_array() && other.is_array())
            || (self.is_func() && other.is_func()) || (self.is_void() && other.is_void())
    }
}

/// What a type stands for: its sort, with the parameter types and return
/// type of a function, and what an array holds.
pub enum TypeView {
    Int,
    Func(Seq<TypeView>, Box<TypeView>),
    Void,
    Array(ArrayView),
}

/// What an array type stands for: its element type, the number of each
/// dimension, the number and size of each dimension, how many dimensions
/// it has, and the number the next dimension will get.
pub struct ArrayView {
    pub item: Box<TypeView>,
    pub dim_nos: Seq<usize>,
    pub tpl_size: Seq<(usize, usize)>,
    pub array_dims: nat,
    pub crr_no: nat,
}

/// The view of a type.
pub open spec fn type_view(t: Type) -> TypeView
    decreases t, 0int,
{
    match t {
        Type::Int => TypeView::Int,
        Type::Func(f) => TypeView::Func(types_view(f.params@), Box::new(type_view(*f.return_type))),
        Type::Void => TypeView::Void,
        Type::Array(a) => TypeView::Array(ArrayView {
            item: Box::new(type_view(*a.item_type)),
            dim_nos: a.dim_nos@,
            tpl_size: a.tpl_size@,
            array_dims: a.array_dims as nat,
            crr_no: a.crr_no as nat,
        }),
    }
}

/// The views of a list of types.
pub open spec fn types_view(ts: Seq<Type>) -> Seq<TypeView>
    decreases ts, 1int,
{
    if ts.len() == 0 {
        Seq::empty()
    } else {
        types_view(ts.drop_last()).push(type_view(ts.last()))
    }
}

impl View for Type {
    type V = TypeView;

    open spec fn view(&self) -> TypeView {
        type_view(*self)
    }
}

/// A type's view keeps its sort, and holds the views of its parts.
pub proof fn lemma_type_view(t: Type)
    ensures
        (t@ is Int) == (t is Int),
        (t@ is Void) == (t is Void),
        (t@ is Func) == (t is Func),
        (t@ is Array) == (t is Array),
        t is Func ==> t@ == TypeView::Func(types_view(t->Func_0.params@), Box::new((*t->Func_0.return_type)@)),
        t is Array ==> t@ == TypeView::Array(ArrayView {
            item: Box::new((*t->Array_0.item_type)@),
            dim_nos: t->Array_0.dim_nos@,
            tpl_size: t->Array_0.tpl_size@,
            array_dims: t->Array_0.array_dims as nat,
            crr_no: t->Array_0.crr_no as nat,
        }),
{
}

/// The views of a list of types are as many as the types, one for each.
pub proof fn lemma_types_view(ts: Seq<Type>)
    ensures
        types_view(ts).len() == ts.len(),
        forall|i: int| 0 <= i < ts.len() ==> #[trigger] types_view(ts)[i] == ts[i]@,
    decreases ts.len(),
{
    if ts.len() > 0 {
        lemma_types_view(ts.drop_last());
    }
}

impl Type {
    /// A copy of the type.
    pub fn duplicate(&self) -> (r: Type)
        ensures
            r@ == self@,
        decreases self, 0int,
    {
        match self {
            Type::Int => Type::Int,
            Type::Void => Type::Void,
            Type::Func(f) => {
                let params = duplicate_types(&f.params);
                let ret = f.return_type.duplicate();
                Type::Func(Func { params, return_type: Box::new(ret) })
            },
            Type::Array(a) => {
                let item = a.item_type.duplicate();
                Type::Array(ArrayStruct {
                    item_type: Box::new(item),
                    dim_nos: copy_numbers(&a.dim_nos),
                    tpl_size: copy_sizes(&a.tpl_size),
                    array_dims: a.array_dims,
                    crr_no: a.crr_no,
                })
            },
        }
    }
}

/// A copy of a list of numbers.
fn copy_numbers(v: &Vec<usize>) -> (r: Vec<usize>)
    ensures
        r@ == v@,
{
    let mut r: Vec<usize> = Vec::new();
    let mut i: usize = 0;
    while i < v.len()
        invariant
            i <= v@.len(),
            r@ == v@.take(i as int),
        decreases v.len() - i,
    {
        r.push(v[i]);
        assert(v@.take(i + 1) =~= v@.take(i as int).push(v@[i as int]));
        i = i + 1;
    }
    assert(v@.take(v@.len() as int) =~= v@);
    r
}

/// A copy of a list of numbered sizes.
fn copy_sizes(v: &Vec<(usize, usize)>) -> (r: Vec<(usize, usize)>)
    ensures
        r@ == v@,
{
    let mut r: Vec<(usize, usize)> = Vec::new();
    let mut i: usize = 0;
    while i < v.len()
        invariant
            i <= v@.len(),
            r@ == v@.take(i as int),
        decreases v.len() - i,
    {
        r.push(v[i]);
        assert(v@.take(i + 1) =~= v@.take(i as int).push(v@[i as int]));
        i = i + 1;
    }
    assert(v@.take(v@.len() as int) =~= v@);
    r
}

/// A copy of each type of a list.
pub fn duplicate_types(ts: &Vec<Type>) -> (r: Vec<Type>)
    ensures
        types_view(r@) == types_view(ts@),
    decreases ts, 1int,
{
    let mut r: Vec<Type> = Vec::new();
    let mut i: usize = 0;
    assert(ts@.take(0) =~= Seq::<Type>::empty());
    while i < ts.len()
        invariant
            i <= ts@.len(),
            types_view(r@) == types_view(ts@.take(i as int)),
        decreases ts.len() - i,
    {
        let t = ts[i].duplicate();
        let ghost before = r@;
        r.push(t);
        assert(r@.drop_last() =~= before);
        assert(ts@.take(i + 1).drop_last() =~= ts@.take(i as int));
        i = i + 1;
    }
    assert(ts@.take(ts@.len() as int) =~= ts@);
    r
}

/// A function type: the types of its parameters and its return type.
#[derive(Debug)]
pub struct Func {
    pub params: Vec<Type>,
    pub return_type: Box<Type>,
}

impl Func {
    /// A function type with the given parameters and return type.
    pub fn new(params: Vec<Type>, return_type: Type) -> (r: Self)
        ensures
            r.params == params,
            *r.return_type == return_type,
    {
        Self { params, return_type: Box::new(return_type) }
    }
}

/// An array type: its element type and the size of each dimension, each
/// dimension numbered in the order it was added.
#[derive(Debug)]
pub struct ArrayStruct {
    pub item_type: Box<Type>,
    pub dim_nos: Vec<usize>,
    pub tpl_size: Vec<(usize, usize)>,
    pub array_dims: usize,
    pub crr_no: usize,
}

impl ArrayStruct {
    /// An array type of no dimension yet.
    pub fn new(item_type: Type) -> (r: Self)
        ensures
            *r.item_type == item_type,
            r.dim_nos@ == Seq::<usize>::empty(),
            r.tpl_size@ == Seq::<(usize, usize)>::empty(),
            r.array_dims == 0,
            r.crr_no == 0,
    {
        Self { item_type: Box::new(item_type), dim_nos: Vec::new(), tpl_size: Vec::new(), array_dims: 0, crr_no: 0 }
    }

    /// Adds a dimension of the given size, under the next number.
    pub fn insert_dim(&mut self, dim_size: usize)
        requires
            old(self).crr_no < usize::MAX,
            old(self).array_dims < usize::MAX,
        ensures
            final(self).dim_nos@ == old(self).dim_nos@.push(old(self).crr_no),
            final(self).tpl_size@ == old(self).tpl_size@.push((old(self).crr_no, dim_size)),
            final(self).array_dims == old(self).array_dims + 1,
            final(self).crr_no == old(self).crr_no + 1,
            final(self).item_type == old(self).item_type,
    {
        self.dim_nos.push(self.crr_no);
        self.tpl_size.push((self.crr_no, dim_size));
        self.array_dims = self.array_dims + 1;
        self.crr_no = self.crr_no + 1;
    }

    /// The number of dimensions.
    pub fn get_dim_size(&self) -> (r: usize)
        ensures
            r == self.array_dims,
    {
        self.array_dims
    }

    /// The element type.
    pub fn get_item_type(&self) -> (r: &Type)
        ensures
            *r == *self.item_type,
    {
        &self.item_type
    }
}


/// The key of a scope: the global scope, a function's body, or an inner block.
#[derive(Debug)]
pub enum ScopeKey {
    Global,
    Ident(String),
    InnerBlock,
}

/// What a `ScopeKey` stands for.
pub enum KeyView {
    Global,
    Ident(Seq<char>),
    InnerBlock,
}

impl View for ScopeKey {
    type V = KeyView;

    open spec fn view(&self) -> KeyView {
        match self {
            ScopeKey::Global => KeyView::Global,
            ScopeKey::Ident(n) => KeyView::Ident(n@),
            ScopeKey::InnerBlock => KeyView::InnerBlock,
        }
    }
}

impl ScopeKey {
    /// A copy of the key.
    pub fn duplicate(&self) -> (r: Self)
        ensures
            r@ == self@,
    {
        match self {
            ScopeKey::Global => ScopeKey::Global,
            ScopeKey::Ident(n) => ScopeKey::Ident(n.clone()),
            ScopeKey::InnerBlock => ScopeKey::InnerBlock,
        }
    }

    /// Whether two keys are the same.
    pub fn same(&self, other: &Self) -> (r: bool)
        ensures
            r == (self@ == other@),
    {
        match (self, other) {
            (ScopeKey::Global, ScopeKey::Global) => true,
            (ScopeKey::InnerBlock, ScopeKey::InnerBlock) => true,
            (ScopeKey::Ident(a), ScopeKey::Ident(b)) => str_eq(a.as_str(), b.as_str()),
            _ => false,
        }
    }
}

/// The symbols of one scope; a later entry for a name replaces an earlier one.
#[derive(Debug)]
pub struct Scope {
    pub symbol_table: Vec<(String, Type)>,
}

/// The entries of a symbol table by name.
pub open spec fn table_view(t: Seq<(String, Type)>) -> Seq<(Seq<char>, TypeView)> {
    t.map_values(|e: (String, Type)| (e.0@, e.1@))
}

/// The type a symbol table gives a name: its last entry for it.
pub open spec fn table_lookup(t: Seq<(Seq<char>, TypeView)>, name: Seq<char>) -> Option<TypeView> {
    if last_key(t, name) >= 0 { Some(t[last_key(t, name)].1) } else { None }
}

impl Scope {
    /// The entries of the scope by name.
    pub open spec fn entries(&self) -> Seq<(Seq<char>, TypeView)> {
        table_view(self.symbol_table@)
    }

    /// Defines `key` as `value`, replacing an earlier definition.
    pub fn insert(&mut self, key: String, value: Type)
        ensures
            final(self).entries() == old(self).entries().push((key@, value@)),
    {
        let ghost e0 = self.entries();
        let ghost k = key@;
        let ghost v = value@;
        self.symbol_table.push((key, value));
        assert(self.entries() =~= e0.push((k, v)));
    }

    /// The index of the entry for `key`, if any.
    fn find(&self, key: &str) -> (r: Option<usize>)
        ensures
            match r {
                Some(i) => i as int == last_key(self.entries(), key@) && i < self.symbol_table@.len(),
                None => last_key(self.entries(), key@) < 0,
            },
    {
        let ghost t = self.entries();
        proof { lemma_last_key(t, key@); }
        let mut j = self.symbol_table.len();
        while j > 0
            invariant
                j <= self.symbol_table.len(),
                t == self.entries(),
                forall|q: int| j <= q < t.len() ==> #[trigger] t[q].0 != key@,
            decreases j,
        {
            if str_eq(self.symbol_table[j - 1].0.as_str(), key) {
                assert(t[j - 1].0 == key@);
                proof { lemma_last_key_at(t, key@, j - 1); }
                return Some(j - 1);
            }
            j = j - 1;
        }
        None
    }

    /// Whether `key` is defined here.
    pub fn contains(&self, key: String) -> (r: bool)
        ensures
            r == (table_lookup(self.entries(), key@) is Some),
    {
        self.find(key.as_str()).is_some()
    }

    /// The type of `key` here, if it is defined.
    pub fn get(&self, key: String) -> (r: Option<&Type>)
        ensures
            match r {
                Some(t) => table_lookup(self.entries(), key@) == Some(t@),
                None => table_lookup(self.entries(), key@) is None,
            },
    {
        match self.find(key.as_str()) {
            Some(i) => {
                assert(self.entries()[i as int] == (self.symbol_table@[i as int].0@, self.symbol_table@[i as int].1@));
                Some(&self.symbol_table[i].1)
            }
            None => None,
        }
    }
}

impl Default for Scope {
    fn default() -> (r: Self)
        ensures
            r.entries() == Seq::<(Seq<char>, TypeView)>::empty(),
    {
        let r = Scope { symbol_table: Vec::new() };
        assert(r.entries() =~= Seq::<(Seq<char>, TypeView)>::empty());
        r
    }
}

proof fn lemma_last_key_at<V>(m: Seq<(Seq<char>, V)>, k: Seq<char>, i: int)
    requires
        0 <= i < m.len(),
        m[i].0 == k,
        forall|q: int| i < q < m.len() ==> #[trigger] m[q].0 != k,
    ensures
        last_key(m, k) == i,
    decreases m.len(),
{
    if i < m.len() - 1 {
        let t = m.drop_last();
        assert forall|q: int| i < q < t.len() implies #[trigger] t[q].0 != k by {
            assert(t[q] == m[q]);
        }
        lemma_last_key_at(t, k, i);
    }
}

/// The stack of active scopes, innermost last, and the scope of each key.
#[derive(Debug)]
pub struct ScopeStack {
    stack: Vec<ScopeKey>,
    scopes: Vec<(ScopeKey, Scope)>,
}

/// What a `ScopeStack` stands for: the active keys, innermost last, and the
/// symbol table of each key that has one.
pub struct StackView {
    pub stack: Seq<KeyView>,
    pub scopes: Map<KeyView, Seq<(Seq<char>, TypeView)>>,
}

/// The last index at which a list of keyed scopes holds `k`, or -1.
pub open spec fn key_index(s: Seq<(KeyView, Seq<(Seq<char>, TypeView)>)>, k: KeyView) -> int
    decreases s.len(),
{
    if s.len() == 0 { -1 } else if s.last().0 == k { s.len() - 1 } else { key_index(s.drop_last(), k) }
}

/// The scopes by key.
pub open spec fn scopes_view(s: Seq<(ScopeKey, Scope)>) -> Seq<(KeyView, Seq<(Seq<char>, TypeView)>)> {
    s.map_values(|e: (ScopeKey, Scope)| (e.0@, e.1.entries()))
}

/// The map a list of keyed scopes stands for: a later entry for a key replaces an earlier one.
pub open spec fn scope_map(s: Seq<(KeyView, Seq<(Seq<char>, TypeView)>)>) -> Map<KeyView, Seq<(Seq<char>, TypeView)>> {
    Map::new(|k: KeyView| key_index(s, k) >= 0, |k: KeyView| s[key_index(s, k)].1)
}

impl View for ScopeStack {
    type V = StackView;

    closed spec fn view(&self) -> StackView {
        StackView { stack: self.stack@.map_values(|k: ScopeKey| k@), scopes: scope_map(scopes_view(self.scopes@)) }
    }
}

/// True when every active key has a scope, as every lookup needs.
pub open spec fn stack_ready(v: StackView) -> bool {
    forall|i: int| 0 <= i < v.stack.len() ==> v.scopes.contains_key(#[trigger] v.stack[i])
}

/// What looking a name up through the scopes of `stack[..n]` gives: the
/// type of its definition in the innermost scope that has one.
pub open spec fn lookup_in(v: StackView, n: int, name: Seq<char>) -> Option<TypeView>
    decreases n,
{
    if n <= 0 {
        None
    } else {
        match table_lookup(v.scopes[v.stack[n - 1]], name) {
            Some(t) => Some(t),
            None => lookup_in(v, n - 1, name),
        }
    }
}

/// What looking a name up through all active scopes gives.
pub open spec fn lookup(v: StackView, name: Seq<char>) -> Option<TypeView> {
    lookup_in(v, v.stack.len() as int, name)
}

proof fn lemma_key_index(s: Seq<(KeyView, Seq<(Seq<char>, TypeView)>)>, k: KeyView)
    ensures
        -1 <= key_index(s, k) < s.len(),
        key_index(s, k) >= 0 ==> s[key_index(s, k)].0 == k,
        forall|j: int| key_index(s, k) < j < s.len() ==> #[trigger] s[j].0 != k,
    decreases s.len(),
{
    if s.len() > 0 {
        lemma_key_index(s.drop_last(), k);
        assert(forall|j: int| 0 <= j < s.len() - 1 ==> s.drop_last()[j] == s[j]);
    }
}

proof fn lemma_key_index_push(s: Seq<(KeyView, Seq<(Seq<char>, TypeView)>)>, e: (KeyView, Seq<(Seq<char>, TypeView)>))
    ensures
        scope_map(s.push(e)) == scope_map(s).insert(e.0, e.1),
{
    let t = s.push(e);
    assert(t.drop_last() =~= s);
    assert forall|k: KeyView| #[trigger] scope_map(t).contains_key(k) == scope_map(s).insert(e.0, e.1).contains_key(k)
        && (scope_map(t).contains_key(k) ==> scope_map(t)[k] == scope_map(s).insert(e.0, e.1)[k]) by {
        lemma_key_index(s, k);
        if k != e.0 && key_index(s, k) >= 0 {
            assert(t[key_index(s, k)] == s[key_index(s, k)]);
        }
    }
    assert(scope_map(t) =~= scope_map(s).insert(e.0, e.1));
}

impl ScopeStack {
    /// The index of the last entry for `key` among the scopes.
    fn find_scope(&self, key: &ScopeKey) -> (r: Option<usize>)
        ensures
            match r {
                Some(i) => i as int == key_index(scopes_view(self.scopes@), key@) && i < self.scopes@.len(),
                None => key_index(scopes_view(self.scopes@), key@) < 0,
            },
    {
        let ghost sv = scopes_view(self.scopes@);
        proof { lemma_key_index(sv, key@); }
        let mut j = self.scopes.len();
        while j > 0
            invariant
                j <= self.scopes.len(),
                sv == scopes_view(self.scopes@),
                forall|q: int| j <= q < sv.len() ==> #[trigger] sv[q].0 != key@,
            decreases j,
        {
            if self.scopes[j - 1].0.same(key) {
                assert(sv[j - 1].0 == key@);
                proof { lemma_key_index_at(sv, key@, j - 1); }
                return Some(j - 1);
            }
            j = j - 1;
        }
        None
    }

    /// Opens a scope for `key`, innermost, with an empty symbol table (a
    /// scope the key had is replaced).
    pub fn push(&mut self, key: ScopeKey)
        ensures
            final(self)@.stack == old(self)@.stack.push(key@),
            final(self)@.scopes == old(self)@.scopes.insert(key@, Seq::<(Seq<char>, TypeView)>::empty()),
    {
        let ghost st0 = self@.stack;
        let ghost sv0 = scopes_view(self.scopes@);
        let k2 = key.duplicate();
        self.stack.push(k2);
        assert(self@.stack =~= st0.push(key@));
        let fresh: Scope = Scope::default();
        let ghost e = (key@, fresh.entries());
        self.scopes.push((key, fresh));
        assert(scopes_view(self.scopes@) =~= sv0.push(e));
        proof { lemma_key_index_push(sv0, e); }
    }

    /// Closes the innermost scope; the scope of its key is dropped.
    pub fn pop(&mut self)
        requires
            old(self)@.stack.len() > 0,
        ensures
            final(self)@.stack == old(self)@.stack.drop_last(),
            final(self)@.scopes == old(self)@.scopes.remove(old(self)@.stack.last()),
    {
        let ghost st0 = self@.stack;
        let ghost m0 = self@.scopes;
        let key = self.stack.pop().unwrap();
        assert(self@.stack =~= st0.drop_last());
        assert(key@ == st0.last());
        let mut j = self.scopes.len();
        let ghost sv0 = scopes_view(self.scopes@);
        while j > 0
            invariant
                j <= self.scopes.len(),
                self@.stack == st0.drop_last(),
                forall|q: int| j <= q < scopes_view(self.scopes@).len() ==> #[trigger] scopes_view(self.scopes@)[q].0 != key@,
                scope_map(scopes_view(self.scopes@)).remove(key@) == m0.remove(key@),
            decreases j,
        {
            if self.scopes[j - 1].0.same(&key) {
                let ghost before = scopes_view(self.scopes@);
                self.scopes.remove(j - 1);
                let ghost after = scopes_view(self.scopes@);
                assert(after =~= before.remove(j - 1));
                proof { lemma_scope_map_remove(before, j - 1, key@); }
                assert forall|q: int| j - 1 <= q < after.len() implies #[trigger] after[q].0 != key@ by {
                    assert(after[q] == before[q + 1]);
                }
            }
            j = j - 1;
        }
        let ghost fin = scopes_view(self.scopes@);
        assert(scope_map(fin) =~= scope_map(fin).remove(key@)) by {
            assert forall|k: KeyView| #[trigger] scope_map(fin).contains_key(k) implies k != key@ by {
                lemma_key_index(fin, k);
            }
        }
    }

    /// Replaces the scope of `key`.
    pub fn update(&mut self, key: ScopeKey, scope: Scope)
        ensures
            final(self)@.stack == old(self)@.stack,
            final(self)@.scopes == old(self)@.scopes.insert(key@, scope.entries()),
    {
        let ghost sv0 = scopes_view(self.scopes@);
        let ghost e = (key@, scope.entries());
        self.scopes.push((key, scope));
        assert(scopes_view(self.scopes@) =~= sv0.push(e));
        proof { lemma_key_index_push(sv0, e); }
    }

    /// Adds a definition to the scope of `key`.
    pub(crate) fn define(&mut self, key: &ScopeKey, name: String, ty: Type)
        requires
            old(self)@.scopes.contains_key(key@),
        ensures
            final(self)@.stack == old(self)@.stack,
            final(self)@.scopes == old(self)@.scopes.insert(key@, old(self)@.scopes[key@].push((name@, ty@))),
    {
        let ghost sv0 = scopes_view(self.scopes@);
        let ghost m0 = self@.scopes;
        proof { lemma_key_index(sv0, key@); }
        match self.find_scope(key) {
            Some(i) => {
                let (k, mut sc) = self.scopes.remove(i);
                let ghost sv1 = scopes_view(self.scopes@);
                assert(sv1 =~= sv0.remove(i as int));
                proof { lemma_scope_map_remove(sv0, i as int, key@); }
                assert(k@ == key@);
                assert(sc.entries() == m0[key@]);
                sc.insert(name, ty);
                let ghost e = (k@, sc.entries());
                self.scopes.push((k, sc));
                assert(scopes_view(self.scopes@) =~= sv1.push(e));
                proof { lemma_key_index_push(sv1, e); }
                let ghost m1 = scope_map(sv1);
                assert(m1.remove(key@) == m0.remove(key@));
                assert forall|q: KeyView| q != key@ implies (m1.contains_key(q) == m0.contains_key(q)
                    && (m1.contains_key(q) ==> m1[q] == m0[q])) by {
                    assert(m1.remove(key@).contains_key(q) == m1.contains_key(q));
                    assert(m0.remove(key@).contains_key(q) == m0.contains_key(q));
                    if m1.contains_key(q) {
                        assert(m1.remove(key@)[q] == m1[q]);
                        assert(m0.remove(key@)[q] == m0[q]);
                    }
                }
                assert(self@.scopes =~= m0.insert(key@, e.1));
            },
            None => {},
        }
    }

    /// Adds a definition to the innermost scope.
    pub(crate) fn insert_current(&mut self, name: String, ty: Type)
        requires
            old(self)@.stack.len() > 0,
            old(self)@.scopes.contains_key(old(self)@.stack.last()),
        ensures
            final(self)@.stack == old(self)@.stack,
            final(self)@.scopes == old(self)@.scopes.insert(
                old(self)@.stack.last(),
                old(self)@.scopes[old(self)@.stack.last()].push((name@, ty@)),
            ),
    {
        let last = self.stack.len() - 1;
        assert(self@.stack.last() == self.stack@[last as int]@);
        let key = self.stack[last].duplicate();
        self.define(&key, name, ty);
    }

    /// The scope of `key`, if it has one.
    pub fn get_scope(&self, key: &ScopeKey) -> (r: Option<&Scope>)
        ensures
            match r {
                Some(s) => self@.scopes.contains_key(key@) && self@.scopes[key@] == s.entries(),
                None => !self@.scopes.contains_key(key@),
            },
    {
        match self.find_scope(key) {
            Some(i) => {
                assert(scopes_view(self.scopes@)[i as int].1 == self.scopes@[i as int].1.entries());
                Some(&self.scopes[i].1)
            }
            None => None,
        }
    }

    /// The innermost scope, if its key has one.
    pub fn get_current_scope(&self) -> (r: Option<&Scope>)
        requires
            self@.stack.len() > 0,
        ensures
            match r {
                Some(s) => self@.scopes.contains_key(self@.stack.last()) && self@.scopes[self@.stack.last()] == s.entries(),
                None => !self@.scopes.contains_key(self@.stack.last()),
            },
    {
        let last = self.stack.len() - 1;
        assert(self@.stack.last() == self.stack@[last as int]@);
        self.get_scope(&self.stack[last])
    }

    /// The name of the innermost scope when it is a function's body.
    pub fn get_current_scope_key(&self) -> (r: Option<String>)
        ensures
            match r {
                Some(n) => self@.stack.len() > 0 && self@.stack.last() == KeyView::Ident(n@),
                None => self@.stack.len() == 0 || !(self@.stack.last() is Ident),
            },
    {
        if self.stack.len() == 0 {
            return None;
        }
        let last = self.stack.len() - 1;
        assert(self@.stack.last() == self.stack@[last as int]@);
        match &self.stack[last] {
            ScopeKey::Ident(name) => Some(name.clone()),
            _ => None,
        }
    }

    /// Whether `name` is defined in an active scope.
    pub fn contains(&self, name: &str) -> (r: bool)
        requires
            stack_ready(self@),
        ensures
            r == (lookup(self@, name@) is Some),
    {
        let mut i = self.stack.len();
        while i > 0
            invariant
                i <= self.stack.len(),
                stack_ready(self@),
                lookup(self@, name@) == lookup_in(self@, i as int, name@),
            decreases i,
        {
            assert(self@.stack[i - 1] == self.stack@[i - 1]@);
            let scope = self.get_scope(&self.stack[i - 1]);
            match scope {
                Some(sc) => {
                    let name_s = String::from_str(name);
                    if sc.contains(name_s) {
                        return true;
                    }
                }
                None => {}
            }
            i = i - 1;
        }
        false
    }

    /// The type of `name` in the innermost active scope that defines it.
    pub fn get(&self, name: &str) -> (r: Option<&Type>)
        requires
            stack_ready(self@),
        ensures
            match r {
                Some(t) => lookup(self@, name@) == Some(t@),
                None => lookup(self@, name@) is None,
            },
    {
        let mut i = self.stack.len();
        while i > 0
            invariant
                i <= self.stack.len(),
                stack_ready(self@),
                lookup(self@, name@) == lookup_in(self@, i as int, name@),
            decreases i,
        {
            assert(self@.stack[i - 1] == self.stack@[i - 1]@);
            let scope = self.get_scope(&self.stack[i - 1]);
            match scope {
                Some(sc) => {
                    match sc.get(String::from_str(name)) {
                        Some(t) => {
                            return Some(t);
                        }
                        None => {}
                    }
                }
                None => {}
            }
            i = i - 1;
        }
        None
    }
}

impl Default for ScopeStack {
    fn default() -> (r: Self)
        ensures
            r@.stack == seq![KeyView::Global],
            r@.scopes == Map::<KeyView, Seq<(Seq<char>, TypeView)>>::empty().insert(KeyView::Global, Seq::empty()),
    {
        let mut r = ScopeStack { stack: Vec::new(), scopes: Vec::new() };
        assert(r@.stack =~= Seq::<KeyView>::empty());
        assert(r@.scopes =~= Map::<KeyView, Seq<(Seq<char>, TypeView)>>::empty());
        r.push(ScopeKey::Global);
        assert(r@.stack =~= seq![KeyView::Global]);
        r
    }
}

proof fn lemma_key_index_at(s: Seq<(KeyView, Seq<(Seq<char>, TypeView)>)>, k: KeyView, i: int)
    requires
        0 <= i < s.len(),
        s[i].0 == k,
        forall|q: int| i < q < s.len() ==> #[trigger] s[q].0 != k,
    ensures
        key_index(s, k) == i,
    decreases s.len(),
{
    if i < s.len() - 1 {
        let t = s.drop_last();
        assert forall|q: int| i < q < t.len() implies #[trigger] t[q].0 != k by {
            assert(t[q] == s[q]);
        }
        lemma_key_index_at(t, k, i);
    }
}

/// Removing an entry for `k` leaves the map without `k` unchanged.
proof fn lemma_scope_map_remove(s: Seq<(KeyView, Seq<(Seq<char>, TypeView)>)>, i: int, k: KeyView)
    requires
        0 <= i < s.len(),
        s[i].0 == k,
    ensures
        scope_map(s.remove(i)).remove(k) == scope_map(s).remove(k),
{
    let t = s.remove(i);
    assert forall|q: KeyView| q != k implies (#[trigger] key_index(t, q) >= 0) == (key_index(s, q) >= 0)
        && (key_index(s, q) >= 0 ==> t[key_index(t, q)].1 == s[key_index(s, q)].1) by {
        lemma_key_index(s, q);
        lemma_key_index(t, q);
        if key_index(s, q) >= 0 {
            let a = key_index(s, q);
            let b = if a < i { a } else { a - 1 };
            assert(t[b] == s[a]);
            assert forall|j: int| b < j < t.len() implies #[trigger] t[j].0 != q by {
                if j < i { assert(t[j] == s[j]); } else { assert(t[j] == s[j + 1]); }
            }
            lemma_key_index_at(t, q, b);
        } else if key_index(t, q) >= 0 {
            let b = key_index(t, q);
            if b < i { assert(t[b] == s[b]); } else { assert(t[b] == s[b + 1]); }
        }
    }
    assert(scope_map(t).remove(k) =~= scope_map(s).remove(k));
}

/// The law of scoping: a name defined in the innermost scope is found there,
/// whatever outer scopes say; a name it does not define is looked up further
/// out.
pub proof fn lemma_lookup_innermost_first(v: StackView, name: Seq<char>)
    requires
        v.stack.len() > 0,
    ensures
        table_lookup(v.scopes[v.stack.last()], name) is Some ==> lookup(v, name) == table_lookup(v.scopes[v.stack.last()], name),
        table_lookup(v.scopes[v.stack.last()], name) is None ==> lookup(v, name) == lookup(StackView { stack: v.stack.drop_last(), scopes: v.scopes }, name),
{
    let w = StackView { stack: v.stack.drop_last(), scopes: v.scopes };
    assert forall|n: int| 0 <= n <= w.stack.len() implies #[trigger] lookup_in(w, n, name) == lookup_in(v, n, name) by {
        lemma_lookup_in_prefix(v, w, n, name);
    }
}

proof fn lemma_lookup_in_prefix(v: StackView, w: StackView, n: int, name: Seq<char>)
    requires
        0 <= n <= w.stack.len(),
        w.stack.len() <= v.stack.len(),
        forall|j: int| 0 <= j < w.stack.len() ==> w.stack[j] == v.stack[j],
        w.scopes == v.scopes,
    ensures
        lookup_in(w, n, name) == lookup_in(v, n, name),
    decreases n,
{
    if n > 0 {
        lemma_lookup_in_prefix(v, w, n - 1, name);
        assert(w.stack[n - 1] == v.stack[n - 1]);
    }
}

/// Opening a fresh scope and closing it again leaves every lookup as it was.
pub proof fn lemma_push_pop_restores(v: StackView, k: KeyView, name: Seq<char>)
    requires
        !v.scopes.contains_key(k),
    ensures
        ({
            let pushed = StackView { stack: v.stack.push(k), scopes: v.scopes.insert(k, Seq::empty()) };
            let popped = StackView { stack: pushed.stack.drop_last(), scopes: pushed.scopes.remove(pushed.stack.last()) };
            popped.stack == v.stack && popped.scopes == v.scopes && lookup(popped, name) == lookup(v, name)
        }),
{
    let pushed = StackView { stack: v.stack.push(k), scopes: v.scopes.insert(k, Seq::empty()) };
    assert(pushed.stack.drop_last() =~= v.stack);
    assert(pushed.scopes.remove(k) =~= v.scopes);
}


} // verus!
