//! What the code generator knows while it emits one function: where each
//! value lives, which names are globals, which are `alloca` slots, and how
//! large the frame is.
use vstd::prelude::*;
use crate::riscv_codegen::register_alloc::{Location, Loc, last_key, lemma_last_key, pairs_view};
use crate::text::{ends_with, parse_i32, parse_i32_text, str_ends_with, str_eq, trim_end_all, trim_suffix_all};

verus! {

/// The suffix of a stack location's text: `(sp)`.
pub open spec fn sp_suffix() -> Seq<char> {
    seq!['(', 's', 'p', ')']
}

/// True when a location text can be read: a stack location `offset(sp)`
/// must carry an offset that fits an `i32`.
pub open spec fn location_text_ok(text: Seq<char>) -> bool {
    ends_with(text, sp_suffix()) ==> parse_i32_text(trim_suffix_all(text, sp_suffix())) is Some
}

/// The location a text names: `offset(sp)` is a stack slot, anything else a register.
pub open spec fn parse_location(text: Seq<char>) -> Loc {
    if ends_with(text, sp_suffix()) {
        Loc::Stack(parse_i32_text(trim_suffix_all(text, sp_suffix()))->0 as i32)
    } else {
        Loc::Reg(text)
    }
}

/// The locations after recording an allocation over `m`: a global keeps its
/// place; any other name given a place takes the last place given to it.
pub open spec fn recorded(m: Map<Seq<char>, Loc>, a: Seq<(Seq<char>, Seq<char>)>) -> Map<Seq<char>, Loc> {
    Map::new(
        |k: Seq<char>| m.contains_key(k) || last_key(a, k) >= 0,
        |k: Seq<char>|
            if m.contains_key(k) && m[k] is Global {
                m[k]
            } else if last_key(a, k) >= 0 {
                parse_location(a[last_key(a, k)].1)
            } else {
                m[k]
            },
    )
}

/// The names of a list of strings.
pub open spec fn texts(s: Seq<String>) -> Seq<Seq<char>> {
    s.map_values(|e: String| e@)
}

/// The names of `s`, each once, in order of first occurrence.
pub open spec fn without_repeats(s: Seq<Seq<char>>) -> Seq<Seq<char>>
    decreases s.len(),
{
    if s.len() == 0 {
        Seq::empty()
    } else {
        let d = without_repeats(s.drop_last());
        if d.contains(s.last()) { d } else { d.push(s.last()) }
    }
}

/// Leaving out repeats keeps every name and repeats none: the `alloca`
/// names a context holds never repeat.
pub proof fn lemma_without_repeats(s: Seq<Seq<char>>)
    ensures
        without_repeats(s).no_duplicates(),
        forall|x: Seq<char>| without_repeats(s).contains(x) <==> s.contains(x),
    decreases s.len(),
{
    if s.len() > 0 {
        lemma_without_repeats(s.drop_last());
        let d = without_repeats(s.drop_last());
        let x = s.last();
        assert forall|y: Seq<char>| s.contains(y) <==> (s.drop_last().contains(y) || y == x) by {
            if s.contains(y) {
                let i = choose|i: int| 0 <= i < s.len() && s[i] == y;
                if i < s.len() - 1 { assert(s.drop_last()[i] == y); }
            }
            if s.drop_last().contains(y) {
                let i = choose|i: int| 0 <= i < s.len() - 1 && s.drop_last()[i] == y;
                assert(s[i] == y);
            }
            if y == x { assert(s[s.len() - 1] == y); }
        }
        if !d.contains(x) {
            assert forall|y: Seq<char>| d.push(x).contains(y) <==> (d.contains(y) || y == x) by {
                if d.push(x).contains(y) {
                    let i = choose|i: int| 0 <= i < d.len() + 1 && d.push(x)[i] == y;
                    if i < d.len() { assert(d[i] == y); }
                }
                if d.contains(y) {
                    let i = choose|i: int| 0 <= i < d.len() && d[i] == y;
                    assert(d.push(x)[i] == y);
                }
                if y == x { assert(d.push(x)[d.len() as int] == y); }
            }
            assert forall|i: int, j: int| 0 <= i < d.len() + 1 && 0 <= j < d.len() + 1 && i != j
                implies d.push(x)[i] != d.push(x)[j] by {
                if i == d.len() as int { assert(d[j] == d.push(x)[j]); }
                else if j == d.len() as int { assert(d[i] == d.push(x)[i]); }
            }
        }
    }
}

/// A list without repeats is its own list of first occurrences.
pub proof fn lemma_without_repeats_same(s: Seq<Seq<char>>)
    requires
        s.no_duplicates(),
    ensures
        without_repeats(s) == s,
    decreases s.len(),
{
    if s.len() > 0 {
        let t = s.drop_last();
        assert(t.no_duplicates()) by {
            assert forall|i: int, j: int| 0 <= i < t.len() && 0 <= j < t.len() && i != j implies t[i] != t[j] by {
                assert(t[i] == s[i] && t[j] == s[j]);
            }
        }
        lemma_without_repeats_same(t);
        assert(!t.contains(s.last())) by {
            if t.contains(s.last()) {
                let i = choose|i: int| 0 <= i < t.len() && t[i] == s.last();
                assert(s[i] == s[s.len() - 1]);
            }
        }
        assert(t.push(s.last()) =~= s);
    }
}

/// Whether `n` is one of the texts in `v`.
pub fn contains_text(v: &Vec<String>, n: &str) -> (r: bool)
    ensures
        r == texts(v@).contains(n@),
{
    let mut i: usize = 0;
    while i < v.len()
        invariant
            i <= v.len(),
            forall|j: int| 0 <= j < i ==> v@[j]@ != n@,
        decreases v.len() - i,
    {
        if str_eq(v[i].as_str(), n) {
            assert(texts(v@)[i as int] == n@);
            return true;
        }
        i = i + 1;
    }
    assert(!texts(v@).contains(n@)) by {
        if texts(v@).contains(n@) {
            let j = choose|j: int| 0 <= j < texts(v@).len() && texts(v@)[j] == n@;
            assert(v@[j]@ == n@);
        }
    }
    false
}

/// The map an association list stands for, when its keys are distinct.
pub open spec fn loc_map(s: Seq<(String, Location)>) -> Map<Seq<char>, Loc> {
    Map::new(
        |k: Seq<char>| exists|i: int| 0 <= i < s.len() && s[i].0@ == k,
        |k: Seq<char>| s[choose|i: int| 0 <= i < s.len() && s[i].0@ == k].1@,
    )
}

/// True when no two entries of an association list share a key.
pub open spec fn keys_unique(s: Seq<(String, Location)>) -> bool {
    forall|i: int, j: int| 0 <= i < j < s.len() ==> s[i].0@ != s[j].0@
}

/// What a `GenContext` stands for.
pub struct CtxView {
    /// The place of each located value.
    pub locations: Map<Seq<char>, Loc>,
    /// The frame size the allocator asked for, in bytes.
    pub stack_size: usize,
    /// The names of the module's globals.
    pub globals: Seq<Seq<char>>,
    /// The names of the function's `alloca` slots.
    pub allocated: Seq<Seq<char>>,
    /// True when every value is kept on the stack.
    pub pure_stack_mode: bool,
}

/// A call that changes a context.
pub enum CtxCall {
    /// `add_global` with the name.
    AddGlobal(Seq<char>),
    /// `record_alloc_vars` with the locations and the frame size.
    RecordAlloc(Seq<(Seq<char>, Seq<char>)>, usize),
    /// `set_pure_stack_mode` with the flag.
    SetPureStack(bool),
    /// `set_allocated_vals` with the names.
    SetAllocated(Seq<Seq<char>>),
}

/// What a context stands for after one call.
pub open spec fn ctx_after(c: CtxView, call: CtxCall) -> CtxView {
    match call {
        CtxCall::AddGlobal(n) => CtxView {
            locations: c.locations.insert(n, Loc::Global(n)),
            globals: c.globals.push(n),
            ..c
        },
        CtxCall::RecordAlloc(a, size) => CtxView { locations: recorded(c.locations, a), stack_size: size, ..c },
        CtxCall::SetPureStack(b) => CtxView { pure_stack_mode: b, ..c },
        CtxCall::SetAllocated(ns) => CtxView { allocated: without_repeats(ns), ..c },
    }
}

/// What a context stands for after the calls, in order.
pub open spec fn ctx_after_all(c: CtxView, calls: Seq<CtxCall>) -> CtxView
    decreases calls.len(),
{
    if calls.len() == 0 { c } else { ctx_after(ctx_after_all(c, calls.drop_last()), calls.last()) }
}

/// The names that the calls add as globals, in order.
pub open spec fn added_globals(calls: Seq<CtxCall>) -> Seq<Seq<char>>
    decreases calls.len(),
{
    if calls.len() == 0 {
        Seq::empty()
    } else {
        added_globals(calls.drop_last()) + match calls.last() {
            CtxCall::AddGlobal(n) => seq![n],
            _ => Seq::empty(),
        }
    }
}

/// The frame size after the calls: that of the last `record_alloc_vars`, or
/// the one before when there is none.
pub open spec fn last_frame(size: usize, calls: Seq<CtxCall>) -> usize
    decreases calls.len(),
{
    if calls.len() == 0 {
        size
    } else {
        match calls.last() {
            CtxCall::RecordAlloc(_, z) => z,
            _ => last_frame(size, calls.drop_last()),
        }
    }
}

/// Over any sequence of calls, the globals are those there were and those
/// `add_global` added, in order, and no other call makes or unmakes one; the
/// frame size is the one of the last `record_alloc_vars`, no other call
/// changing it.
pub proof fn lemma_ctx_calls(c: CtxView, calls: Seq<CtxCall>)
    ensures
        ctx_after_all(c, calls).globals == c.globals + added_globals(calls),
        ctx_after_all(c, calls).stack_size == last_frame(c.stack_size, calls),
    decreases calls.len(),
{
    if calls.len() > 0 {
        lemma_ctx_calls(c, calls.drop_last());
        match calls.last() {
            CtxCall::AddGlobal(n) => {
                assert(c.globals + added_globals(calls) =~= (c.globals + added_globals(calls.drop_last())).push(n));
            },
            _ => {
                assert(c.globals + added_globals(calls) =~= c.globals + added_globals(calls.drop_last()));
            },
        }
    } else {
        assert(c.globals + added_globals(calls) =~= c.globals);
    }
}

/// The code generation context of one function.
pub struct GenContext {
    var_locations: Vec<(String, Location)>,
    stack_size: usize,
    global_names: Vec<String>,
    temp_val_num: usize,
    allocated_vals: Vec<String>,
    pure_stack_mode: bool,
}

impl View for GenContext {
    type V = CtxView;

    closed spec fn view(&self) -> CtxView {
        CtxView {
            locations: loc_map(self.var_locations@),
            stack_size: self.stack_size,
            globals: texts(self.global_names@),
            allocated: texts(self.allocated_vals@),
            pure_stack_mode: self.pure_stack_mode,
        }
    }
}

proof fn lemma_loc_map_at(s: Seq<(String, Location)>, i: int)
    requires
        keys_unique(s),
        0 <= i < s.len(),
    ensures
        loc_map(s).contains_key(s[i].0@),
        loc_map(s)[s[i].0@] == s[i].1@,
{
    let k = s[i].0@;
    assert(exists|j: int| 0 <= j < s.len() && s[j].0@ == k);
    let c = choose|j: int| 0 <= j < s.len() && s[j].0@ == k;
    if c != i {
        if c < i { assert(s[c].0@ != s[i].0@); } else { assert(s[i].0@ != s[c].0@); }
    }
}

impl GenContext {
    /// The context's invariant: each name has at most one entry.
    #[verifier::type_invariant]
    spec fn wf(&self) -> bool {
        keys_unique(self.var_locations@)
    }

    /// The names of the `alloca` slots.
    pub fn get_allocated_vals(&self) -> (r: &Vec<String>)
        ensures
            texts(r@) == self@.allocated,
    {
        &self.allocated_vals
    }

    /// A context with nothing located, no globals, no slots and an empty frame.
    pub fn new() -> (r: Self)
        ensures
            r@.locations == Map::<Seq<char>, Loc>::empty(),
            r@.stack_size == 0,
            r@.globals == Seq::<Seq<char>>::empty(),
            r@.allocated == Seq::<Seq<char>>::empty(),
            !r@.pure_stack_mode,
    {
        let r = Self {
            var_locations: Vec::new(),
            stack_size: 0,
            global_names: Vec::new(),
            temp_val_num: 0,
            allocated_vals: Vec::new(),
            pure_stack_mode: false,
        };
        assert(loc_map(r.var_locations@) =~= Map::<Seq<char>, Loc>::empty());
        assert(texts(r.global_names@) =~= Seq::<Seq<char>>::empty());
        assert(texts(r.allocated_vals@) =~= Seq::<Seq<char>>::empty());
        r
    }

    /// Turns keeping every value on the stack on or off.
    pub fn set_pure_stack_mode(&mut self, enabled: bool)
        ensures
            final(self)@ == (CtxView { pure_stack_mode: enabled, ..old(self)@ }),
            final(self)@ == ctx_after(old(self)@, CtxCall::SetPureStack(enabled)),
    {
        proof { use_type_invariant(&*self); }
        self.pure_stack_mode = enabled;
    }

    /// True when every value is kept on the stack.
    pub fn is_pure_stack_mode(&self) -> (r: bool)
        ensures
            r == self@.pure_stack_mode,
    {
        self.pure_stack_mode
    }

    /// Replaces the names of the `alloca` slots (a name given twice is kept once).
    pub fn set_allocated_vals(&mut self, allocated_vals: Vec<String>)
        ensures
            final(self)@ == (CtxView { allocated: without_repeats(texts(allocated_vals@)), ..old(self)@ }),
            final(self)@ == ctx_after(old(self)@, CtxCall::SetAllocated(texts(allocated_vals@))),
    {
        let ghost all = texts(allocated_vals@);
        let mut kept: Vec<String> = Vec::new();
        let mut i: usize = 0;
        assert(all.take(0) =~= Seq::<Seq<char>>::empty());
        while i < allocated_vals.len()
            invariant
                i <= allocated_vals.len(),
                all == texts(allocated_vals@),
                texts(kept@) == without_repeats(all.take(i as int)),
            decreases allocated_vals.len() - i,
        {
            assert(all.take(i + 1).drop_last() =~= all.take(i as int));
            assert(all.take(i + 1).last() == allocated_vals@[i as int]@);
            if !contains_text(&kept, allocated_vals[i].as_str()) {
                let ghost k0 = texts(kept@);
                kept.push(allocated_vals[i].clone());
                assert(texts(kept@) =~= k0.push(allocated_vals@[i as int]@));
            }
            i = i + 1;
        }
        assert(all.take(allocated_vals.len() as int) =~= all);
        proof { use_type_invariant(&*self); }
        self.allocated_vals = kept;
    }

    /// True when `name` is an `alloca` slot; always false when every value
    /// is kept on the stack.
    pub fn is_alloc(&self, name: &str) -> (r: bool)
        ensures
            r == (!self@.pure_stack_mode && self@.allocated.contains(name@)),
    {
        if self.pure_stack_mode {
            return false;
        }
        let mut i: usize = 0;
        while i < self.allocated_vals.len()
            invariant
                i <= self.allocated_vals.len(),
                !self.pure_stack_mode,
                forall|j: int| 0 <= j < i ==> self.allocated_vals@[j]@ != name@,
            decreases self.allocated_vals.len() - i,
        {
            if str_eq(self.allocated_vals[i].as_str(), name) {
                assert(texts(self.allocated_vals@)[i as int] == name@);
                assert(texts(self.allocated_vals@).contains(name@));
                return true;
            }
            i = i + 1;
        }
        assert(!texts(self.allocated_vals@).contains(name@)) by {
            if texts(self.allocated_vals@).contains(name@) {
                let j = choose|j: int| 0 <= j < texts(self.allocated_vals@).len() && texts(self.allocated_vals@)[j] == name@;
                assert(self.allocated_vals@[j]@ == name@);
            }
        }
        false
    }

    /// The index of the entry for `name`, if there is one.
    fn find_location(&self, name: &str) -> (r: Option<usize>)
        ensures
            match r {
                Some(i) => i < self.var_locations@.len() && self.var_locations@[i as int].0@ == name@,
                None => forall|i: int| 0 <= i < self.var_locations@.len() ==> self.var_locations@[i].0@ != name@,
            },
    {
        let mut i: usize = 0;
        while i < self.var_locations.len()
            invariant
                i <= self.var_locations.len(),
                forall|j: int| 0 <= j < i ==> self.var_locations@[j].0@ != name@,
            decreases self.var_locations.len() - i,
        {
            if str_eq(self.var_locations[i].0.as_str(), name) {
                return Some(i);
            }
            i = i + 1;
        }
        None
    }

    /// Sets the place of `name`, replacing the one it had.
    fn put_location(&mut self, name: String, loc: Location)
        ensures
            final(self)@ == (CtxView { locations: old(self)@.locations.insert(name@, loc@), ..old(self)@ }),
    {
        proof { use_type_invariant(&*self); }
        let ghost old_s = self.var_locations@;
        let ghost nm = name@;
        let ghost lv = loc@;
        let found = self.find_location(name.as_str());
        let mut v: Vec<(String, Location)> = Vec::new();
        std::mem::swap(&mut v, &mut self.var_locations);
        match found {
            Some(i) => {
                v.set(i, (name, loc));
                let ghost s = v@;
                assert(s =~= old_s.update(i as int, s[i as int]));
                assert(keys_unique(s)) by {
                    assert forall|a: int, b: int| 0 <= a < b < s.len() implies s[a].0@ != s[b].0@ by {
                        if a != i && b != i {
                            assert(s[a] == old_s[a] && s[b] == old_s[b]);
                        } else if a == i {
                            assert(s[b] == old_s[b]);
                        } else {
                            assert(s[a] == old_s[a]);
                        }
                    }
                }
                assert(loc_map(s) =~= loc_map(old_s).insert(nm, lv)) by {
                    lemma_loc_map_at(s, i as int);
                    assert forall|k: Seq<char>| #[trigger] loc_map(s).contains_key(k) == loc_map(old_s).insert(nm, lv).contains_key(k) by {
                        if loc_map(old_s).contains_key(k) {
                            let j = choose|j: int| 0 <= j < old_s.len() && old_s[j].0@ == k;
                            if j != i { assert(s[j] == old_s[j]); }
                        }
                        if loc_map(s).contains_key(k) {
                            let j = choose|j: int| 0 <= j < s.len() && s[j].0@ == k;
                            if j != i { assert(s[j] == old_s[j]); }
                        }
                    }
                    assert forall|k: Seq<char>| loc_map(s).contains_key(k) implies #[trigger] loc_map(s)[k] == loc_map(old_s).insert(nm, lv)[k] by {
                        if k != nm {
                            let j = choose|j: int| 0 <= j < s.len() && s[j].0@ == k;
                            assert(j != i);
                            assert(s[j] == old_s[j]);
                            lemma_loc_map_at(s, j);
                            lemma_loc_map_at(old_s, j);
                        }
                    }
                }
                self.var_locations = v;
            }
            None => {
                v.push((name, loc));
                let ghost s = v@;
                assert(s =~= old_s.push((s[old_s.len() as int].0, s[old_s.len() as int].1)));
                assert(keys_unique(s)) by {
                    assert forall|a: int, b: int| 0 <= a < b < s.len() implies s[a].0@ != s[b].0@ by {
                        if b < old_s.len() {
                            assert(s[a] == old_s[a] && s[b] == old_s[b]);
                        } else {
                            assert(s[a] == old_s[a]);
                        }
                    }
                }
                assert(loc_map(s) =~= loc_map(old_s).insert(nm, lv)) by {
                    lemma_loc_map_at(s, old_s.len() as int);
                    assert forall|k: Seq<char>| #[trigger] loc_map(s).contains_key(k) == loc_map(old_s).insert(nm, lv).contains_key(k) by {
                        if loc_map(old_s).contains_key(k) {
                            let j = choose|j: int| 0 <= j < old_s.len() && old_s[j].0@ == k;
                            assert(s[j] == old_s[j]);
                        }
                        if loc_map(s).contains_key(k) && k != nm {
                            let j = choose|j: int| 0 <= j < s.len() && s[j].0@ == k;
                            assert(s[j] == old_s[j]);
                        }
                    }
                    assert forall|k: Seq<char>| loc_map(s).contains_key(k) implies #[trigger] loc_map(s)[k] == loc_map(old_s).insert(nm, lv)[k] by {
                        if k != nm {
                            let j = choose|j: int| 0 <= j < s.len() && s[j].0@ == k;
                            assert(s[j] == old_s[j]);
                            lemma_loc_map_at(s, j);
                            lemma_loc_map_at(old_s, j);
                        }
                    }
                }
                self.var_locations = v;
            }
        }
    }

    /// Registers a global: it lives at its own label.
    pub fn add_global(&mut self, name: String)
        ensures
            final(self)@ == (CtxView {
                locations: old(self)@.locations.insert(name@, Loc::Global(name@)),
                globals: old(self)@.globals.push(name@),
                ..old(self)@
            }),
            final(self)@ == ctx_after(old(self)@, CtxCall::AddGlobal(name@)),
    {
        let n2 = name.clone();
        let n3 = name.clone();
        self.put_location(n2, Location::Global(n3));
        proof { use_type_invariant(&*self); }
        let ghost g = self.global_names@;
        let mut v: Vec<String> = Vec::new();
        std::mem::swap(&mut v, &mut self.global_names);
        v.push(name);
        self.global_names = v;
        assert(texts(self.global_names@) =~= texts(g).push(name@));
    }

    /// The place of `name`, if it has one.
    pub fn get_location(&self, name: &str) -> (r: Option<&Location>)
        ensures
            match r {
                Some(l) => self@.locations.contains_key(name@) && self@.locations[name@] == l@,
                None => !self@.locations.contains_key(name@),
            },
    {
        proof { use_type_invariant(self); }
        match self.find_location(name) {
            Some(i) => {
                proof { lemma_loc_map_at(self.var_locations@, i as int); }
                Some(&self.var_locations[i].1)
            }
            None => {
                assert(!loc_map(self.var_locations@).contains_key(name@));
                None
            }
        }
    }

    /// Records what an allocator returned: the frame size, and each value's
    /// place, read from its text (`offset(sp)` for a stack slot, a register
    /// name otherwise). Globals keep their place.
    pub fn record_alloc_vars(&mut self, allocation: Vec<(String, String)>, stack_size: usize)
        requires
            forall|i: int| 0 <= i < allocation@.len() ==> location_text_ok(#[trigger] allocation@[i].1@),
        ensures
            final(self)@ == (CtxView {
                locations: recorded(old(self)@.locations, pairs_view(allocation@)),
                stack_size,
                ..old(self)@
            }),
            final(self)@ == ctx_after(old(self)@, CtxCall::RecordAlloc(pairs_view(allocation@), stack_size)),
    {
        proof { use_type_invariant(&*self); }
        self.stack_size = stack_size;
        let ghost a = pairs_view(allocation@);
        let ghost m0 = old(self)@.locations;
        assert(recorded(m0, a.take(0)) =~= m0);
        let mut i: usize = 0;
        while i < allocation.len()
            invariant
                i <= allocation.len(),
                a == pairs_view(allocation@),
                forall|j: int| 0 <= j < allocation@.len() ==> location_text_ok(#[trigger] allocation@[j].1@),
                self@ == (CtxView { locations: recorded(m0, a.take(i as int)), stack_size, ..old(self)@ }),
            decreases allocation.len() - i,
        {
            let var = &allocation[i].0;
            let loc_str = &allocation[i].1;
            let ghost pre = self@.locations;
            let ghost next = a.take(i + 1);
            assert(next.drop_last() =~= a.take(i as int));
            assert(next.last() == (var@, loc_str@));
            proof {
                lemma_recorded_push(m0, a.take(i as int), var@, loc_str@);
                assert(next =~= a.take(i as int).push((var@, loc_str@)));
            }
            let is_global = match self.get_location(var.as_str()) {
                Some(Location::Global(_)) => true,
                _ => false,
            };
            if !is_global {
                proof { reveal_strlit("(sp)"); }
                assert("(sp)"@ =~= sp_suffix());
                let location = if str_ends_with(loc_str.as_str(), "(sp)") {
                    let offset_str = trim_end_all(loc_str.as_str(), "(sp)");
                    let offset = parse_i32(offset_str);
                    match offset {
                        Some(o) => Location::Stack(o),
                        None => {
                            assert(location_text_ok(allocation@[i as int].1@));
                            Location::Stack(0)
                        }
                    }
                } else {
                    Location::Reg(loc_str.clone())
                };
                assert(location@ == parse_location(loc_str@));
                self.put_location(var.clone(), location);
            }
            i = i + 1;
        }
        assert(a.take(allocation.len() as int) =~= a);
    }

    /// The frame size the allocator asked for.
    pub fn get_stack_size(&self) -> (r: usize)
        ensures
            r == self@.stack_size,
    {
        self.stack_size
    }

    /// True when `name` is a global.
    pub fn is_global(&self, name: &str) -> (r: bool)
        ensures
            r == self@.globals.contains(name@),
    {
        let mut i: usize = 0;
        while i < self.global_names.len()
            invariant
                i <= self.global_names.len(),
                forall|j: int| 0 <= j < i ==> self.global_names@[j]@ != name@,
            decreases self.global_names.len() - i,
        {
            if str_eq(self.global_names[i].as_str(), name) {
                assert(texts(self.global_names@)[i as int] == name@);
                assert(texts(self.global_names@).contains(name@));
                return true;
            }
            i = i + 1;
        }
        assert(!texts(self.global_names@).contains(name@)) by {
            if texts(self.global_names@).contains(name@) {
                let j = choose|j: int| 0 <= j < texts(self.global_names@).len() && texts(self.global_names@)[j] == name@;
                assert(self.global_names@[j]@ == name@);
            }
        }
        false
    }
}

/// Recording one more entry: a global keeps its place, anything else takes the new one.
proof fn lemma_recorded_push(m: Map<Seq<char>, Loc>, a: Seq<(Seq<char>, Seq<char>)>, k: Seq<char>, t: Seq<char>)
    ensures
        recorded(m, a.push((k, t))) == if recorded(m, a).contains_key(k) && recorded(m, a)[k] is Global {
            recorded(m, a)
        } else {
            recorded(m, a).insert(k, parse_location(t))
        },
{
    let b = a.push((k, t));
    let r = recorded(m, a);
    assert forall|q: Seq<char>| #[trigger] last_key(b, q) == if q == k { a.len() as int } else { last_key(a, q) } by {
        assert(b.drop_last() =~= a);
    }
    // a name recorded as a global was a global before recording
    assert(r.contains_key(k) && r[k] is Global ==> m.contains_key(k) && m[k] is Global) by {
        if r.contains_key(k) && r[k] is Global && !(m.contains_key(k) && m[k] is Global) {
            if last_key(a, k) >= 0 {
                assert(parse_location(a[last_key(a, k)].1) !is Global);
            }
        }
    }
    let expected = if r.contains_key(k) && r[k] is Global { r } else { r.insert(k, parse_location(t)) };
    assert forall|q: Seq<char>| #[trigger] recorded(m, b).contains_key(q) == expected.contains_key(q)
        && (recorded(m, b).contains_key(q) ==> recorded(m, b)[q] == expected[q]) by {
        lemma_last_key(a, q);
        if q != k {
            if last_key(a, q) >= 0 {
                assert(b[last_key(a, q)] == a[last_key(a, q)]);
            }
        } else {
            assert(b[a.len() as int] == (k, t));
        }
    }
    assert(recorded(m, b) =~= expected);
}

} // verus!
