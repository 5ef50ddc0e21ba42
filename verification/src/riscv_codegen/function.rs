//! The first pass over a function: which instructions define and use which
//! names, which values are `alloca` slots, where each block starts, whether
//! some branch goes back (a loop), and from that the live interval of every
//! value.
use vstd::prelude::*;
use crate::riscv_codegen::asm_builder::{AsmBuilder, op0_line, op1_line, op3_line, label_line};
use crate::riscv_codegen::context::{texts, lemma_without_repeats_same, contains_text, CtxView, GenContext, location_text_ok, recorded, sp_suffix};
use crate::riscv_codegen::ir::{IrBlock, IrFunction, IrGlobal, IrModule, Instr, is_terminator, result_name, uses_of, operand_uses};
use crate::riscv_codegen::register_alloc::{AllocatedInnerVar, InnerVar, Interval, Loc, Place, views, last_key,
    lemma_last_key, lemma_last_key_push, names_distinct, initial_scan, scan_run, sort_by_start, spec_linear_scan_from,
    render_place, reg_name, stack_text, lemma_linear_scan_places_in_range};
use crate::riscv_codegen::{instr_text, aligned_frame, align_frame, generate_instruction, reg_sp};
use crate::text::{str_eq, dec_digits, int_text, ends_with, trim_suffix_all, parse_i32_text, lemma_parse_int_text};

verus! {

/// A recorded instruction: its index, the name it defines, the names it uses.
pub type RecordedView = (usize, Seq<char>, Seq<Seq<char>>);

/// What a `FunctionState` stands for.
pub struct StateView {
    /// The instructions recorded, in order: index, defined name (empty for
    /// none), used names.
    pub instructions: Seq<RecordedView>,
    /// The names of the `alloca` slots.
    pub allocated: Seq<Seq<char>>,
    /// The index at which each labelled block starts.
    pub block_starts: Map<Seq<char>, usize>,
    /// True once a branch back to an earlier block was seen.
    pub loop_branch: bool,
    /// The index of the instruction being read.
    pub idx: usize,
}

/// A call that changes a `FunctionState`.
pub enum StateCall {
    /// `record_instruction` with the index, the defined name and the used names.
    Instruction(usize, Seq<char>, Seq<Seq<char>>),
    /// `record_allocated_val` with the name.
    Allocated(Seq<char>),
    /// `record_block_start` with the block name and the index.
    BlockStart(Seq<char>, usize),
    /// `mark_loop`.
    MarkLoop,
}

/// What a state stands for after one call.
pub open spec fn state_after(s: StateView, call: StateCall) -> StateView {
    match call {
        StateCall::Instruction(idx, n, uses) => StateView { instructions: s.instructions.push((idx, n, uses)), ..s },
        StateCall::Allocated(n) => StateView {
            allocated: if s.allocated.contains(n) { s.allocated } else { s.allocated.push(n) },
            ..s
        },
        StateCall::BlockStart(n, idx) => StateView { block_starts: s.block_starts.insert(n, idx), ..s },
        StateCall::MarkLoop => StateView { loop_branch: true, ..s },
    }
}

/// What a state stands for after the calls, in order.
pub open spec fn state_after_all(s: StateView, calls: Seq<StateCall>) -> StateView
    decreases calls.len(),
{
    if calls.len() == 0 { s } else { state_after(state_after_all(s, calls.drop_last()), calls.last()) }
}

/// Over any sequence of recording calls, the index being read does not
/// move; the loop flag is set exactly when it was set before or `mark_loop`
/// is among the calls; and the `alloca` names never repeat when they did not
/// before.
pub proof fn lemma_state_calls(s: StateView, calls: Seq<StateCall>)
    ensures
        state_after_all(s, calls).idx == s.idx,
        state_after_all(s, calls).loop_branch
            == (s.loop_branch || exists|i: int| 0 <= i < calls.len() && #[trigger] calls[i] is MarkLoop),
        s.allocated.no_duplicates() ==> state_after_all(s, calls).allocated.no_duplicates(),
    decreases calls.len(),
{
    if calls.len() > 0 {
        let t = calls.drop_last();
        lemma_state_calls(s, t);
        let r = state_after_all(s, t);
        if exists|i: int| 0 <= i < t.len() && #[trigger] t[i] is MarkLoop {
            let i = choose|i: int| 0 <= i < t.len() && #[trigger] t[i] is MarkLoop;
            assert(calls[i] == t[i]);
        }
        if exists|i: int| 0 <= i < calls.len() && #[trigger] calls[i] is MarkLoop {
            let i = choose|i: int| 0 <= i < calls.len() && #[trigger] calls[i] is MarkLoop;
            if i < t.len() { assert(t[i] == calls[i]); }
        }
        if let StateCall::Allocated(n) = calls.last() {
            if r.allocated.no_duplicates() && !r.allocated.contains(n) {
                let a = r.allocated;
                assert forall|i: int, j: int| 0 <= i < a.len() + 1 && 0 <= j < a.len() + 1 && i != j
                    implies a.push(n)[i] != a.push(n)[j] by {
                    if i == a.len() as int { assert(a[j] == a.push(n)[j]); }
                    else if j == a.len() as int { assert(a[i] == a.push(n)[i]); }
                }
            }
        }
    }
}

/// What the first pass over a function gathers.
pub struct FunctionState {
    instructions: Vec<(usize, String, Vec<String>)>,
    allocated_vals: Vec<String>,
    block_start_idxes: Vec<(String, usize)>,
    loop_branch: bool,
    idx: usize,
}

/// A recorded instruction by its view.
pub open spec fn recorded_view(e: (usize, String, Vec<String>)) -> RecordedView {
    (e.0, e.1@, texts(e.2@))
}

/// The map an association list of block starts stands for: a later entry
/// for a name replaces an earlier one.
pub open spec fn start_map(s: Seq<(Seq<char>, usize)>) -> Map<Seq<char>, usize> {
    Map::new(|k: Seq<char>| last_key(s, k) >= 0, |k: Seq<char>| s[last_key(s, k)].1)
}

/// The block-start list by its view.
pub open spec fn starts_view(s: Seq<(String, usize)>) -> Seq<(Seq<char>, usize)> {
    s.map_values(|e: (String, usize)| (e.0@, e.1))
}

impl View for FunctionState {
    type V = StateView;

    closed spec fn view(&self) -> StateView {
        StateView {
            instructions: self.instructions@.map_values(|e: (usize, String, Vec<String>)| recorded_view(e)),
            allocated: texts(self.allocated_vals@),
            block_starts: start_map(starts_view(self.block_start_idxes@)),
            loop_branch: self.loop_branch,
            idx: self.idx,
        }
    }
}

// ---------------------------------------------------------------------------
// Live intervals.
// ---------------------------------------------------------------------------

/// The occurrences of the names in `uses`, each at `idx`; empty names are left out.
pub open spec fn use_occurrences(uses: Seq<Seq<char>>, idx: usize) -> Seq<(Seq<char>, usize)>
    decreases uses.len(),
{
    if uses.len() == 0 {
        Seq::empty()
    } else {
        use_occurrences(uses.drop_last(), idx) + if uses.last().len() > 0 {
            seq![(uses.last(), idx)]
        } else {
            Seq::empty()
        }
    }
}

/// The occurrences in one recorded instruction: the name it defines, then the
/// names it uses, all at its index; empty names are left out.
pub open spec fn instr_occurrences(e: RecordedView) -> Seq<(Seq<char>, usize)> {
    (if e.1.len() > 0 { seq![(e.1, e.0)] } else { Seq::empty() }) + use_occurrences(e.2, e.0)
}

/// The occurrences of names in the recorded instructions, in order.
pub open spec fn occurrences(ins: Seq<RecordedView>) -> Seq<(Seq<char>, usize)>
    decreases ins.len(),
{
    if ins.len() == 0 {
        Seq::empty()
    } else {
        occurrences(ins.drop_last()) + instr_occurrences(ins.last())
    }
}

/// The names that occur, each once, in order of first occurrence.
pub open spec fn first_seen(occ: Seq<(Seq<char>, usize)>) -> Seq<Seq<char>>
    decreases occ.len(),
{
    if occ.len() == 0 {
        Seq::empty()
    } else {
        let d = first_seen(occ.drop_last());
        if d.contains(occ.last().0) { d } else { d.push(occ.last().0) }
    }
}

/// The first index at which `m` holds the key `k`, or -1.
pub open spec fn first_key(m: Seq<(Seq<char>, usize)>, k: Seq<char>) -> int
    decreases m.len(),
{
    if m.len() == 0 {
        -1
    } else {
        let f = first_key(m.drop_last(), k);
        if f >= 0 { f } else if m.last().0 == k { m.len() - 1 } else { -1 }
    }
}

/// The greatest index of a recorded instruction, or 0 when there is none.
pub open spec fn max_position(ins: Seq<RecordedView>) -> usize
    decreases ins.len(),
{
    if ins.len() == 0 {
        0
    } else {
        let m = max_position(ins.drop_last());
        if ins.last().0 > m { ins.last().0 } else { m }
    }
}

/// The live intervals of a function: one per name that occurs, in order of
/// first occurrence, from its first occurrence to its last; an `alloca`
/// slot lives to the end of the function when the function has a loop.
pub open spec fn liveness(st: StateView) -> Seq<Interval> {
    let occ = occurrences(st.instructions);
    let names = first_seen(occ);
    Seq::new(names.len(), |k: int| Interval {
        name: names[k],
        start: occ[first_key(occ, names[k])].1,
        end: if st.loop_branch && st.allocated.contains(names[k]) {
            max_position(st.instructions)
        } else {
            occ[last_key(occ, names[k])].1
        },
    })
}

/// Each name that occurs, with its first and last index so far.
spec fn live_table(occ: Seq<(Seq<char>, usize)>) -> Seq<(Seq<char>, usize, usize)> {
    let names = first_seen(occ);
    Seq::new(names.len(), |k: int| (names[k], occ[first_key(occ, names[k])].1, occ[last_key(occ, names[k])].1))
}

/// The last position of `n` in `s`, or -1.
spec fn position(s: Seq<Seq<char>>, n: Seq<char>) -> int
    decreases s.len(),
{
    if s.len() == 0 {
        -1
    } else if s.last() == n {
        s.len() - 1
    } else {
        position(s.drop_last(), n)
    }
}

/// The names of a table's entries.
spec fn table_names(t: Seq<(Seq<char>, usize, usize)>) -> Seq<Seq<char>> {
    Seq::new(t.len(), |k: int| t[k].0)
}

/// The table after one more occurrence: the entry for the name takes the new
/// last index, or a new entry opens.
spec fn table_step(t: Seq<(Seq<char>, usize, usize)>, n: Seq<char>, i: usize) -> Seq<(Seq<char>, usize, usize)> {
    let k = position(table_names(t), n);
    if k >= 0 { t.update(k, (n, t[k].1, i)) } else { t.push((n, i, i)) }
}

proof fn lemma_position(s: Seq<Seq<char>>, n: Seq<char>)
    ensures
        -1 <= position(s, n) < s.len(),
        position(s, n) >= 0 ==> s[position(s, n)] == n,
        position(s, n) < 0 <==> !s.contains(n),
    decreases s.len(),
{
    if s.len() > 0 {
        lemma_position(s.drop_last(), n);
        if position(s, n) < 0 && s.contains(n) {
            let j = choose|j: int| 0 <= j < s.len() && s[j] == n;
            assert(s.drop_last()[j] == n);
        }
    }
}

proof fn lemma_first_key(m: Seq<(Seq<char>, usize)>, k: Seq<char>)
    ensures
        -1 <= first_key(m, k) < m.len(),
        first_key(m, k) >= 0 ==> m[first_key(m, k)].0 == k,
        first_key(m, k) >= 0 <==> last_key(m, k) >= 0,
        first_key(m, k) >= 0 <==> first_seen(m).contains(k),
    decreases m.len(),
{
    lemma_last_key(m, k);
    if m.len() > 0 {
        let t = m.drop_last();
        lemma_first_key(t, k);
        lemma_last_key(t, k);
        if first_key(t, k) >= 0 {
            assert(m[first_key(t, k)] == t[first_key(t, k)]);
        }
        if last_key(t, k) >= 0 {
            assert(m[last_key(t, k)] == t[last_key(t, k)]);
        }
        let d = first_seen(t);
        if !d.contains(m.last().0) {
            let e = d.push(m.last().0);
            assert(e[d.len() as int] == m.last().0);
            if e.contains(k) && !d.contains(k) {
                let j = choose|j: int| 0 <= j < e.len() && e[j] == k;
                assert(j == d.len());
            }
            if d.contains(k) {
                let j = choose|j: int| 0 <= j < d.len() && d[j] == k;
                assert(e[j] == k);
            }
        }
    }
}

proof fn lemma_first_seen_distinct(occ: Seq<(Seq<char>, usize)>)
    ensures
        forall|a: int, b: int| 0 <= a < b < first_seen(occ).len() ==> first_seen(occ)[a] != first_seen(occ)[b],
        first_seen(occ).len() <= occ.len(),
    decreases occ.len(),
{
    if occ.len() > 0 {
        let t = occ.drop_last();
        lemma_first_seen_distinct(t);
        let d = first_seen(t);
        if !d.contains(occ.last().0) {
            let e = d.push(occ.last().0);
            assert forall|a: int, b: int| 0 <= a < b < e.len() implies e[a] != e[b] by {
                if b == d.len() {
                    assert(e[a] == d[a]);
                } else {
                    assert(e[a] == d[a] && e[b] == d[b]);
                }
            }
        }
    }
}

/// The names of a table are the names first seen, in order.
proof fn lemma_position_in_names(names: Seq<Seq<char>>, n: Seq<char>, k: int)
    requires
        forall|a: int, b: int| 0 <= a < b < names.len() ==> names[a] != names[b],
        0 <= k < names.len(),
        names[k] == n,
    ensures
        position(names, n) == k,
    decreases names.len(),
{
    if k < names.len() - 1 {
        assert(names.last() != n) by {
            assert(names[k] != names[names.len() - 1]);
        }
        let t = names.drop_last();
        assert forall|a: int, b: int| 0 <= a < b < t.len() implies t[a] != t[b] by {
            assert(t[a] == names[a] && t[b] == names[b]);
        }
        assert(t[k] == n);
        lemma_position_in_names(t, n, k);
    }
}

/// One more occurrence updates the table as `table_step` says.
proof fn lemma_live_table_push(occ: Seq<(Seq<char>, usize)>, n: Seq<char>, i: usize)
    ensures
        live_table(occ.push((n, i))) == table_step(live_table(occ), n, i),
{
    let o2 = occ.push((n, i));
    assert(o2.drop_last() =~= occ);
    let t = live_table(occ);
    let names = first_seen(occ);
    lemma_first_seen_distinct(occ);
    assert(table_names(t) =~= names);
    lemma_position(names, n);
    assert forall|q: Seq<char>| #[trigger] last_key(o2, q) == if q == n { occ.len() as int } else { last_key(occ, q) } by {
        lemma_last_key_push(occ, n, i, q);
    }
    assert forall|q: Seq<char>| first_key(occ, q) >= 0 implies #[trigger] o2[first_key(occ, q)] == occ[first_key(occ, q)] by {
        lemma_first_key(occ, q);
    }
    assert forall|q: Seq<char>| last_key(occ, q) >= 0 implies #[trigger] o2[last_key(occ, q)] == occ[last_key(occ, q)] by {
        lemma_last_key(occ, q);
    }
    assert(o2[occ.len() as int] == (n, i));
    let r = live_table(o2);
    let s = table_step(t, n, i);
    if names.contains(n) {
        let k = position(names, n);
        assert(r.len() == s.len());
        assert forall|j: int| 0 <= j < r.len() implies r[j] == s[j] by {
            lemma_first_key(occ, names[j]);
            if j != k {
                assert(names[j] != n);
            }
        }
        assert(r =~= s);
    } else {
        lemma_first_key(occ, n);
        assert(r.len() == s.len());
        assert forall|j: int| 0 <= j < r.len() implies r[j] == s[j] by {
            if j < names.len() {
                lemma_first_key(occ, names[j]);
                assert(first_seen(o2)[j] == names[j]);
                assert(names[j] != n);
            } else {
                assert(first_seen(o2)[j] == n);
            }
        }
        assert(r =~= s);
    }
}

proof fn lemma_use_occurrences_step(uses: Seq<Seq<char>>, j: int, idx: usize)
    requires
        0 <= j < uses.len(),
    ensures
        use_occurrences(uses.take(j + 1), idx) == use_occurrences(uses.take(j), idx) + if uses[j].len() > 0 {
            seq![(uses[j], idx)]
        } else {
            Seq::empty()
        },
{
    assert(uses.take(j + 1).drop_last() =~= uses.take(j));
    assert(uses.take(j + 1).last() == uses[j]);
}

proof fn lemma_occurrences_step(ins: Seq<RecordedView>, i: int)
    requires
        0 <= i < ins.len(),
    ensures
        occurrences(ins.take(i + 1)) == occurrences(ins.take(i)) + instr_occurrences(ins[i]),
{
    assert(ins.take(i + 1).drop_last() =~= ins.take(i));
    assert(ins.take(i + 1).last() == ins[i]);
}

proof fn lemma_max_position_step(ins: Seq<RecordedView>, i: int)
    requires
        0 <= i < ins.len(),
    ensures
        max_position(ins.take(i + 1)) == if ins[i].0 > max_position(ins.take(i)) { ins[i].0 } else { max_position(ins.take(i)) },
{
    assert(ins.take(i + 1).drop_last() =~= ins.take(i));
    assert(ins.take(i + 1).last() == ins[i]);
}

/// The view of a live table of strings.
spec fn table_view(t: Seq<(String, usize, usize)>) -> Seq<(Seq<char>, usize, usize)> {
    t.map_values(|e: (String, usize, usize)| (e.0@, e.1, e.2))
}

/// Notes one occurrence of `name` at `idx` in the table.
fn note_occurrence(table: &mut Vec<(String, usize, usize)>, name: &String, idx: usize)
    ensures
        table_view(final(table)@) == table_step(table_view(old(table)@), name@, idx),
{
    let ghost t = table_view(table@);
    let ghost names = table_names(t);
    proof { lemma_position(names, name@); }
    let mut j = table.len();
    while j > 0
        invariant
            j <= table.len(),
            t == table_view(table@),
            table@ == old(table)@,
            names == table_names(t),
            forall|q: int| j <= q < names.len() ==> names[q] != name@,
        decreases j,
    {
        if str_eq(table[j - 1].0.as_str(), name.as_str()) {
            assert(names[j - 1] == name@);
            assert(position(names, name@) == j - 1) by {
                lemma_position_from_end(names, name@, j - 1);
            }
            let first = table[j - 1].1;
            assert(first == t[j - 1].1);
            table.set(j - 1, (name.clone(), first, idx));
            assert(table_view(table@) =~= t.update(j - 1, (name@, t[j - 1].1, idx)));
            assert(table_step(t, name@, idx) == t.update(j - 1, (name@, t[j - 1].1, idx)));
            return;
        }
        j = j - 1;
    }
    assert(position(names, name@) < 0) by {
        if position(names, name@) >= 0 {
            assert(names[position(names, name@)] == name@);
        }
    }
    table.push((name.clone(), idx, idx));
    assert(table_view(table@) =~= t.push((name@, idx, idx)));
}

proof fn lemma_position_from_end(s: Seq<Seq<char>>, n: Seq<char>, k: int)
    requires
        0 <= k < s.len(),
        s[k] == n,
        forall|q: int| k < q < s.len() ==> s[q] != n,
    ensures
        position(s, n) == k,
    decreases s.len(),
{
    if k < s.len() - 1 {
        let t = s.drop_last();
        assert forall|q: int| k < q < t.len() implies t[q] != n by {
            assert(t[q] == s[q]);
        }
        lemma_position_from_end(t, n, k);
    }
}

impl FunctionState {
    /// A state with nothing recorded, at index 0.
    pub fn new() -> (r: Self)
        ensures
            r@.instructions == Seq::<RecordedView>::empty(),
            r@.allocated == Seq::<Seq<char>>::empty(),
            r@.block_starts == Map::<Seq<char>, usize>::empty(),
            !r@.loop_branch,
            r@.idx == 0,
    {
        let r = Self {
            instructions: Vec::new(),
            allocated_vals: Vec::new(),
            block_start_idxes: Vec::new(),
            loop_branch: false,
            idx: 0,
        };
        assert(r@.instructions =~= Seq::<RecordedView>::empty());
        assert(r@.allocated =~= Seq::<Seq<char>>::empty());
        assert(r@.block_starts =~= Map::<Seq<char>, usize>::empty());
        r
    }

    /// Records an instruction at `idx` that defines `val_name` (empty when it
    /// defines none, as a store) and uses `uses`.
    pub fn record_instruction(&mut self, idx: usize, val_name: String, uses: Vec<String>)
        ensures
            final(self)@ == (StateView {
                instructions: old(self)@.instructions.push((idx, val_name@, texts(uses@))),
                ..old(self)@
            }),
            final(self)@ == state_after(old(self)@, StateCall::Instruction(idx, val_name@, texts(uses@))),
    {
        let ghost e = (idx, val_name, uses);
        self.instructions.push((idx, val_name, uses));
        assert(self@.instructions =~= old(self)@.instructions.push(recorded_view(e)));
    }

    /// Records the name of an `alloca` slot; a name recorded before is not
    /// recorded again, so the names never repeat.
    pub fn record_allocated_val(&mut self, name: String)
        ensures
            final(self)@ == (StateView {
                allocated: if old(self)@.allocated.contains(name@) {
                    old(self)@.allocated
                } else {
                    old(self)@.allocated.push(name@)
                },
                ..old(self)@
            }),
            old(self)@.allocated.no_duplicates() ==> final(self)@.allocated.no_duplicates(),
            final(self)@ == state_after(old(self)@, StateCall::Allocated(name@)),
    {
        if !contains_text(&self.allocated_vals, name.as_str()) {
            let ghost a0 = texts(self.allocated_vals@);
            let ghost nm = name@;
            self.allocated_vals.push(name);
            assert(texts(self.allocated_vals@) =~= a0.push(nm));
            assert(a0.no_duplicates() ==> a0.push(nm).no_duplicates()) by {
                if a0.no_duplicates() {
                    assert forall|i: int, j: int| 0 <= i < a0.len() + 1 && 0 <= j < a0.len() + 1 && i != j
                        implies a0.push(nm)[i] != a0.push(nm)[j] by {
                        if i == a0.len() as int { assert(a0[j] == a0.push(nm)[j]); }
                        else if j == a0.len() as int { assert(a0[i] == a0.push(nm)[i]); }
                    }
                }
            }
        }
    }

    /// Records where a block starts.
    pub fn record_block_start(&mut self, block_name: String, idx: usize)
        ensures
            final(self)@ == (StateView { block_starts: old(self)@.block_starts.insert(block_name@, idx), ..old(self)@ }),
            final(self)@ == state_after(old(self)@, StateCall::BlockStart(block_name@, idx)),
    {
        let ghost s0 = starts_view(self.block_start_idxes@);
        let ghost nm = block_name@;
        self.block_start_idxes.push((block_name, idx));
        let ghost s1 = starts_view(self.block_start_idxes@);
        assert(s1 =~= s0.push((nm, idx)));
        assert forall|q: Seq<char>| #[trigger] last_key(s1, q) == if q == nm { s0.len() as int } else { last_key(s0, q) } by {
            lemma_last_key_push(s0, nm, idx, q);
        }
        assert forall|q: Seq<char>| #[trigger] start_map(s1).contains_key(q) == start_map(s0).insert(nm, idx).contains_key(q)
            && (start_map(s1).contains_key(q) ==> start_map(s1)[q] == start_map(s0).insert(nm, idx)[q]) by {
            lemma_last_key(s0, q);
            if q != nm && last_key(s0, q) >= 0 {
                assert(s1[last_key(s0, q)] == s0[last_key(s0, q)]);
            }
            if q == nm {
                assert(s1[s0.len() as int] == (nm, idx));
            }
        }
        assert(start_map(s1) =~= start_map(s0).insert(nm, idx));
    }

    /// Notes that the function has a loop.
    pub fn mark_loop(&mut self)
        ensures
            final(self)@ == (StateView { loop_branch: true, ..old(self)@ }),
            final(self)@ == state_after(old(self)@, StateCall::MarkLoop),
    {
        self.loop_branch = true;
    }

    /// True once a loop was noted.
    pub fn has_loop(&self) -> (r: bool)
        ensures
            r == self@.loop_branch,
    {
        self.loop_branch
    }

    /// The names of the `alloca` slots.
    pub fn get_allocated_vals(&self) -> (r: &Vec<String>)
        ensures
            texts(r@) == self@.allocated,
    {
        &self.allocated_vals
    }

    /// The index at which the block `block_name` starts, if it was recorded.
    pub fn get_block_idx(&self, block_name: &str) -> (r: Option<usize>)
        ensures
            r == if self@.block_starts.contains_key(block_name@) {
                Some(self@.block_starts[block_name@])
            } else {
                None::<usize>
            },
    {
        let ghost s = starts_view(self.block_start_idxes@);
        proof { lemma_last_key(s, block_name@); }
        let mut j = self.block_start_idxes.len();
        while j > 0
            invariant
                j <= self.block_start_idxes.len(),
                s == starts_view(self.block_start_idxes@),
                forall|q: int| j <= q < s.len() ==> #[trigger] s[q].0 != block_name@,
            decreases j,
        {
            if str_eq(self.block_start_idxes[j - 1].0.as_str(), block_name) {
                assert(s[j - 1].0 == block_name@);
                assert(last_key(s, block_name@) == j - 1) by {
                    lemma_last_key_from_end(s, block_name@, j - 1);
                }
                return Some(self.block_start_idxes[j - 1].1);
            }
            j = j - 1;
        }
        assert(last_key(s, block_name@) < 0) by {
            if last_key(s, block_name@) >= 0 {
                assert(s[last_key(s, block_name@)].0 == block_name@);
            }
        }
        None
    }

    /// The index of the instruction being read.
    pub fn current_idx(&self) -> (r: usize)
        ensures
            r == self@.idx,
    {
        self.idx
    }

    /// The live interval of every name that occurs in the recorded
    /// instructions (see `liveness`).
    #[verifier::spinoff_prover]
    #[verifier::rlimit(50)]
    pub fn compute_liveness(&mut self) -> (r: Vec<InnerVar>)
        ensures
            final(self)@ == old(self)@,
            views(r@) == liveness(old(self)@),
    {
        let ghost st = self@;
        let ghost ins = st.instructions;
        let n = self.instructions.len();
        let mut max_pos: usize = 0;
        let mut i: usize = 0;
        assert(ins.take(0) =~= Seq::<RecordedView>::empty());
        while i < n
            invariant
                i <= n,
                n == self.instructions@.len(),
                st == self@,
                ins == st.instructions,
                max_pos == max_position(ins.take(i as int)),
            decreases n - i,
        {
            proof { lemma_max_position_step(ins, i as int); }
            assert(ins[i as int].0 == self.instructions@[i as int].0);
            if self.instructions[i].0 > max_pos {
                max_pos = self.instructions[i].0;
            }
            i = i + 1;
        }
        assert(ins.take(n as int) =~= ins);
        let mut table: Vec<(String, usize, usize)> = Vec::new();
        i = 0;
        assert(table_view(table@) =~= live_table(occurrences(ins.take(0))));
        while i < n
            invariant
                i <= n,
                n == self.instructions@.len(),
                st == self@,
                ins == st.instructions,
                table_view(table@) == live_table(occurrences(ins.take(i as int))),
            decreases n - i,
        {
            let ghost base = occurrences(ins.take(i as int));
            let ghost e = ins[i as int];
            proof { lemma_occurrences_step(ins, i as int); }
            assert(e == recorded_view(self.instructions@[i as int]));
            let idx = self.instructions[i].0;
            let val_name = &self.instructions[i].1;
            let uses = &self.instructions[i].2;
            let ghost named = base + if e.1.len() > 0 { seq![(e.1, e.0)] } else { Seq::empty() };
            if val_name.as_str().unicode_len() > 0 {
                proof { lemma_live_table_push(base, e.1, e.0); }
                note_occurrence(&mut table, val_name, idx);
                assert(named =~= base.push((e.1, e.0)));
            } else {
                assert(named =~= base);
            }
            let mut j: usize = 0;
            assert(named + use_occurrences(e.2.take(0), idx) =~= named);
            while j < uses.len()
                invariant
                    j <= uses.len(),
                    e.2 == texts(uses@),
                    idx == e.0,
                    table_view(table@) == live_table(named + use_occurrences(e.2.take(j as int), idx)),
                decreases uses.len() - j,
            {
                proof { lemma_use_occurrences_step(e.2, j as int, idx); }
                let ghost prev = named + use_occurrences(e.2.take(j as int), idx);
                assert(e.2[j as int] == uses@[j as int]@);
                if uses[j].as_str().unicode_len() > 0 {
                    proof { lemma_live_table_push(prev, e.2[j as int], idx); }
                    note_occurrence(&mut table, &uses[j], idx);
                    assert(named + use_occurrences(e.2.take(j + 1), idx) =~= prev.push((e.2[j as int], idx)));
                } else {
                    assert(named + use_occurrences(e.2.take(j + 1), idx) =~= prev);
                }
                j = j + 1;
            }
            assert(e.2.take(uses.len() as int) =~= e.2);
            assert(occurrences(ins.take(i + 1)) =~= named + use_occurrences(e.2, idx));
            i = i + 1;
        }
        assert(ins.take(n as int) =~= ins);
        let ghost occ = occurrences(ins);
        let ghost lt = live_table(occ);
        let mut r: Vec<InnerVar> = Vec::new();
        let mut k: usize = 0;
        assert(views(r@) =~= liveness(st).take(0));
        while k < table.len()
            invariant
                k <= table.len(),
                table_view(table@) == lt,
                lt == live_table(occ),
                occ == occurrences(ins),
                st == self@,
                ins == st.instructions,
                max_pos == max_position(ins),
                views(r@) == liveness(st).take(k as int),
            decreases table.len() - k,
        {
            assert(lt[k as int] == table_view(table@)[k as int]);
            assert(liveness(st).len() == lt.len());
            let name = &table[k].0;
            let mut end_idx = table[k].2;
            if self.loop_branch && contains_text(&self.allocated_vals, name.as_str()) {
                end_idx = max_pos;
            }
            let ghost r0 = views(r@);
            r.push(InnerVar::new(name.clone(), table[k].1, end_idx));
            assert(views(r@) =~= r0.push(liveness(st)[k as int]));
            assert(liveness(st).take(k + 1) =~= liveness(st).take(k as int).push(liveness(st)[k as int]));
            k = k + 1;
        }
        assert(liveness(st).take(table.len() as int) =~= liveness(st));
        r
    }
}

proof fn lemma_last_key_from_end(s: Seq<(Seq<char>, usize)>, n: Seq<char>, k: int)
    requires
        0 <= k < s.len(),
        s[k].0 == n,
        forall|q: int| k < q < s.len() ==> #[trigger] s[q].0 != n,
    ensures
        last_key(s, n) == k,
    decreases s.len(),
{
    if k < s.len() - 1 {
        let t = s.drop_last();
        assert forall|q: int| k < q < t.len() implies #[trigger] t[q].0 != n by {
            assert(t[q] == s[q]);
        }
        lemma_last_key_from_end(t, n, k);
    }
}


// ---------------------------------------------------------------------------
// The first pass over a function.
// ---------------------------------------------------------------------------

/// The number of instructions in the blocks.
pub open spec fn instr_count(blocks: Seq<IrBlock>) -> nat
    decreases blocks.len(),
{
    if blocks.len() == 0 { 0 } else { instr_count(blocks.drop_last()) + blocks.last().instrs@.len() }
}

/// The block starts the first pass records: each labelled block with the
/// index of its first instruction.
pub open spec fn block_entries(blocks: Seq<IrBlock>) -> Seq<(Seq<char>, usize)>
    decreases blocks.len(),
{
    if blocks.len() == 0 {
        Seq::empty()
    } else {
        block_entries(blocks.drop_last()) + if blocks.last().name@.len() > 0 {
            seq![(blocks.last().name@, instr_count(blocks.drop_last()) as usize)]
        } else {
            Seq::empty()
        }
    }
}

/// A block's instructions, each paired with the index at which the block starts.
pub open spec fn block_part(start: nat, b: IrBlock) -> Seq<(usize, Instr)> {
    Seq::new(b.instrs@.len(), |i: int| (start as usize, b.instrs@[i]))
}

/// The instructions of the blocks in order, each paired with the index at
/// which its block starts; an instruction's index is its position.
pub open spec fn flat(blocks: Seq<IrBlock>) -> Seq<(usize, Instr)>
    decreases blocks.len(),
{
    if blocks.len() == 0 {
        Seq::empty()
    } else {
        flat(blocks.drop_last()) + block_part(instr_count(blocks.drop_last()), blocks.last())
    }
}

/// True for the instructions the first pass records: those that are not
/// jumps, branches or returns (a store, which defines no name, among them).
pub open spec fn records(i: Instr) -> bool {
    !is_terminator(i)
}

/// The instructions the first pass records, by position.
pub open spec fn pass_instructions(fl: Seq<(usize, Instr)>) -> Seq<RecordedView>
    decreases fl.len(),
{
    if fl.len() == 0 {
        Seq::empty()
    } else {
        let e = fl.last().1;
        pass_instructions(fl.drop_last()) + if records(e) {
            seq![((fl.len() - 1) as usize, result_name(e), uses_of(e))]
        } else {
            Seq::empty()
        }
    }
}

/// The name an instruction gives an `alloca` slot, if it makes one.
pub open spec fn alloca_name(i: Instr) -> Option<Seq<char>> {
    match i {
        Instr::Alloca { result } => if result@.len() > 0 { Some(result@) } else { None },
        _ => None,
    }
}

/// The names of the `alloca` slots, each once, in order of first occurrence.
pub open spec fn pass_allocated(fl: Seq<(usize, Instr)>) -> Seq<Seq<char>>
    decreases fl.len(),
{
    if fl.len() == 0 {
        Seq::empty()
    } else {
        let a = pass_allocated(fl.drop_last());
        match alloca_name(fl.last().1) {
            Some(n) => if a.contains(n) { a } else { a.push(n) },
            None => a,
        }
    }
}

/// The names of the `alloca` slots never repeat.
pub proof fn lemma_pass_allocated_distinct(fl: Seq<(usize, Instr)>)
    ensures
        pass_allocated(fl).no_duplicates(),
    decreases fl.len(),
{
    if fl.len() > 0 {
        lemma_pass_allocated_distinct(fl.drop_last());
        let a = pass_allocated(fl.drop_last());
        if let Some(n) = alloca_name(fl.last().1) {
            if !a.contains(n) {
                assert forall|i: int, j: int| 0 <= i < a.len() + 1 && 0 <= j < a.len() + 1 && i != j
                    implies a.push(n)[i] != a.push(n)[j] by {
                    if i == a.len() as int { assert(a[j] == a.push(n)[j]); }
                    else if j == a.len() as int { assert(a[i] == a.push(n)[i]); }
                }
            }
        }
    }
}

/// True when a jump or branch goes to a block that starts at or before the
/// start of its own block.
pub open spec fn back_branch(e: (usize, Instr), starts: Map<Seq<char>, usize>) -> bool {
    match e.1 {
        Instr::Br { target } => starts.contains_key(target@) && starts[target@] <= e.0,
        Instr::CondBr { true_target, false_target, .. } =>
            (starts.contains_key(true_target@) && starts[true_target@] <= e.0)
            || (starts.contains_key(false_target@) && starts[false_target@] <= e.0),
        _ => false,
    }
}

/// True when some jump or branch goes back.
pub open spec fn pass_loop(fl: Seq<(usize, Instr)>, starts: Map<Seq<char>, usize>) -> bool
    decreases fl.len(),
{
    if fl.len() == 0 { false } else { pass_loop(fl.drop_last(), starts) || back_branch(fl.last(), starts) }
}

/// What the first pass gathers over a function's blocks.
pub open spec fn first_pass(blocks: Seq<IrBlock>) -> StateView {
    let fl = flat(blocks);
    let starts = start_map(block_entries(blocks));
    StateView {
        instructions: pass_instructions(fl),
        allocated: pass_allocated(fl),
        block_starts: starts,
        loop_branch: pass_loop(fl, starts),
        idx: fl.len() as usize,
    }
}

/// The intervals that are not globals, in order: globals are not allocated.
pub open spec fn drop_globals(ivs: Seq<Interval>, globals: Seq<Seq<char>>) -> Seq<Interval>
    decreases ivs.len(),
{
    if ivs.len() == 0 {
        Seq::empty()
    } else {
        drop_globals(ivs.drop_last(), globals) + if globals.contains(ivs.last().name) {
            Seq::empty()
        } else {
            seq![ivs.last()]
        }
    }
}

/// The live intervals handed to the register allocator.
pub open spec fn local_intervals(blocks: Seq<IrBlock>, globals: Seq<Seq<char>>) -> Seq<Interval> {
    drop_globals(liveness(first_pass(blocks)), globals)
}

/// Where each global lives: at its own label.
pub open spec fn global_locations(globals: Seq<Seq<char>>) -> Map<Seq<char>, Loc> {
    Map::new(|k: Seq<char>| globals.contains(k), |k: Seq<char>| Loc::Global(k))
}

/// The context in which a function's instructions are lowered: globals at
/// their labels, every other value where the linear scan put it.
pub open spec fn function_ctx(blocks: Seq<IrBlock>, globals: Seq<Seq<char>>) -> CtxView {
    let alloc = spec_linear_scan_from(initial_scan(), local_intervals(blocks, globals));
    CtxView {
        locations: recorded(global_locations(globals), alloc.0),
        stack_size: alloc.1 as usize,
        globals,
        allocated: first_pass(blocks).allocated,
        pure_stack_mode: false,
    }
}

/// The lines of a list of instructions.
pub open spec fn instrs_text(is: Seq<Instr>, c: CtxView) -> Seq<char>
    decreases is.len(),
{
    if is.len() == 0 { Seq::empty() } else { instrs_text(is.drop_last(), c) + instr_text(is.last(), c) }
}

/// The lines of a block: its label, when it has a name, then its instructions.
pub open spec fn block_text(b: IrBlock, c: CtxView) -> Seq<char> {
    (if b.name@.len() > 0 { label_line(b.name@) } else { Seq::empty() }) + instrs_text(b.instrs@, c)
}

/// The lines of a list of blocks.
pub open spec fn blocks_text(bs: Seq<IrBlock>, c: CtxView) -> Seq<char>
    decreases bs.len(),
{
    if bs.len() == 0 { Seq::empty() } else { blocks_text(bs.drop_last(), c) + block_text(bs.last(), c) }
}

/// The text of a function: the text section, the function's global symbol
/// and label, the frame reservation, then its blocks.
pub open spec fn function_text(f: IrFunction, globals: Seq<Seq<char>>) -> Seq<char> {
    let c = function_ctx(f.blocks@, globals);
    op0_line(seq!['.', 't', 'e', 'x', 't']) + op1_line(seq!['.', 'g', 'l', 'o', 'b', 'l', ' '], f.name@)
        + label_line(f.name@)
        + op3_line(seq!['a', 'd', 'd', 'i'], reg_sp(), reg_sp(), seq!['-'] + dec_digits(aligned_frame(c.stack_size as nat)))
        + blocks_text(f.blocks@, c)
}

/// The text of a global: in the data section, its label and its initial
/// word (zero when it has none).
pub open spec fn global_text(g: IrGlobal) -> Seq<char> {
    op0_line(seq!['.', 'd', 'a', 't', 'a']) + label_line(g.name@)
        + op1_line(seq!['.', 'w', 'o', 'r', 'd'], int_text(match g.init { Some(v) => (v as i32) as int, None => 0 }))
        + seq!['\n']
}

/// The names of the globals.
pub open spec fn global_names_of(gs: Seq<IrGlobal>) -> Seq<Seq<char>> {
    gs.map_values(|g: IrGlobal| g.name@)
}

/// The text of the globals.
pub open spec fn globals_text(gs: Seq<IrGlobal>) -> Seq<char>
    decreases gs.len(),
{
    if gs.len() == 0 { Seq::empty() } else { globals_text(gs.drop_last()) + global_text(gs.last()) }
}

/// The text of the functions, each lowered with the module's globals.
pub open spec fn functions_text(fs: Seq<IrFunction>, globals: Seq<Seq<char>>) -> Seq<char>
    decreases fs.len(),
{
    if fs.len() == 0 { Seq::empty() } else { functions_text(fs.drop_last(), globals) + function_text(fs.last(), globals) }
}

/// The assembly of a module: its globals, then its functions.
pub open spec fn module_text(m: IrModule) -> Seq<char> {
    globals_text(m.globals@) + functions_text(m.functions@, global_names_of(m.globals@))
}

/// True when every function of the module is small enough to lower.
pub open spec fn module_fits(m: IrModule) -> bool {
    forall|i: int| 0 <= i < m.functions@.len() ==> instr_count(#[trigger] m.functions@[i].blocks@) < 0x0500_0000
}


proof fn lemma_blocks_take(blocks: Seq<IrBlock>, b: int)
    requires
        0 <= b < blocks.len(),
    ensures
        instr_count(blocks.take(b + 1)) == instr_count(blocks.take(b)) + blocks[b].instrs@.len(),
        flat(blocks.take(b + 1)) == flat(blocks.take(b)) + block_part(instr_count(blocks.take(b)), blocks[b]),
        block_entries(blocks.take(b + 1)) == block_entries(blocks.take(b)) + if blocks[b].name@.len() > 0 {
            seq![(blocks[b].name@, instr_count(blocks.take(b)) as usize)]
        } else {
            Seq::empty()
        },
{
    assert(blocks.take(b + 1).drop_last() =~= blocks.take(b));
    assert(blocks.take(b + 1).last() == blocks[b]);
}

proof fn lemma_flat_len(blocks: Seq<IrBlock>)
    ensures
        flat(blocks).len() == instr_count(blocks),
    decreases blocks.len(),
{
    if blocks.len() > 0 {
        lemma_flat_len(blocks.drop_last());
    }
}

proof fn lemma_instr_count_take(blocks: Seq<IrBlock>, b: int)
    requires
        0 <= b <= blocks.len(),
    ensures
        instr_count(blocks.take(b)) <= instr_count(blocks),
    decreases blocks.len(),
{
    if b < blocks.len() {
        let t = blocks.drop_last();
        assert(t.take(b) =~= blocks.take(b));
        lemma_instr_count_take(t, b);
    } else {
        assert(blocks.take(b) =~= blocks);
    }
}

proof fn lemma_pass_push(fl: Seq<(usize, Instr)>, e: (usize, Instr), starts: Map<Seq<char>, usize>)
    ensures
        pass_instructions(fl.push(e)) == pass_instructions(fl) + if records(e.1) {
            seq![(fl.len() as usize, result_name(e.1), uses_of(e.1))]
        } else {
            Seq::empty()
        },
        pass_allocated(fl.push(e)) == match alloca_name(e.1) {
            Some(n) => if pass_allocated(fl).contains(n) { pass_allocated(fl) } else { pass_allocated(fl).push(n) },
            None => pass_allocated(fl),
        },
        pass_loop(fl.push(e), starts) == (pass_loop(fl, starts) || back_branch(e, starts)),
{
    assert(fl.push(e).drop_last() =~= fl);
}

proof fn lemma_pass_sizes(fl: Seq<(usize, Instr)>)
    ensures
        pass_instructions(fl).len() <= fl.len(),
        forall|k: int| 0 <= k < pass_instructions(fl).len() ==> (#[trigger] pass_instructions(fl)[k]).2.len() <= 2,
    decreases fl.len(),
{
    if fl.len() > 0 {
        let t = fl.drop_last();
        lemma_pass_sizes(t);
        let e = fl.last().1;
        assert(uses_of(e).len() <= 2);
        let p = pass_instructions(fl);
        assert forall|k: int| 0 <= k < p.len() implies (#[trigger] p[k]).2.len() <= 2 by {
            if k < pass_instructions(t).len() {
                assert(p[k] == pass_instructions(t)[k]);
            }
        }
    }
}

proof fn lemma_use_occurrences_len(uses: Seq<Seq<char>>, idx: usize)
    ensures
        use_occurrences(uses, idx).len() <= uses.len(),
    decreases uses.len(),
{
    if uses.len() > 0 {
        lemma_use_occurrences_len(uses.drop_last(), idx);
    }
}

proof fn lemma_occurrences_len(ins: Seq<RecordedView>)
    requires
        forall|k: int| 0 <= k < ins.len() ==> (#[trigger] ins[k]).2.len() <= 2,
    ensures
        occurrences(ins).len() <= 3 * ins.len(),
    decreases ins.len(),
{
    if ins.len() > 0 {
        let t = ins.drop_last();
        assert forall|k: int| 0 <= k < t.len() implies (#[trigger] t[k]).2.len() <= 2 by {
            assert(t[k] == ins[k]);
        }
        lemma_occurrences_len(t);
        lemma_use_occurrences_len(ins.last().2, ins.last().0);
        assert(ins[ins.len() - 1] == ins.last());
    }
}

proof fn lemma_drop_globals(ivs: Seq<Interval>, globals: Seq<Seq<char>>)
    ensures
        drop_globals(ivs, globals).len() <= ivs.len(),
        forall|k: int| 0 <= k < drop_globals(ivs, globals).len() ==> ivs.contains(#[trigger] drop_globals(ivs, globals)[k]),
        forall|k: int| 0 <= k < drop_globals(ivs, globals).len() ==> !globals.contains(#[trigger] drop_globals(ivs, globals)[k].name),
        names_distinct(ivs) ==> names_distinct(drop_globals(ivs, globals)),
    decreases ivs.len(),
{
    if ivs.len() > 0 {
        let t = ivs.drop_last();
        lemma_drop_globals(t, globals);
        let d = drop_globals(t, globals);
        let r = drop_globals(ivs, globals);
        assert forall|k: int| 0 <= k < r.len() implies ivs.contains(#[trigger] r[k]) by {
            if k < d.len() {
                assert(r[k] == d[k]);
                let w = choose|w: int| 0 <= w < t.len() && t[w] == d[k];
                assert(ivs[w] == t[w]);
            } else {
                assert(r[k] == ivs[ivs.len() - 1]);
            }
        }
        assert forall|k: int| 0 <= k < r.len() implies !globals.contains(#[trigger] r[k].name) by {
            if k < d.len() {
                assert(r[k] == d[k]);
            }
        }
        if names_distinct(ivs) {
            assert(names_distinct(t)) by {
                assert forall|a: int, b: int| 0 <= a < b < t.len() implies t[a].name != t[b].name by {
                    assert(t[a] == ivs[a] && t[b] == ivs[b]);
                }
            }
            assert forall|a: int, b: int| 0 <= a < b < r.len() implies r[a].name != r[b].name by {
                if b < d.len() {
                    assert(r[a] == d[a] && r[b] == d[b]);
                } else {
                    assert(r[a] == d[a]);
                    let w = choose|w: int| 0 <= w < t.len() && t[w] == d[a];
                    assert(ivs[w] == t[w]);
                    assert(ivs[w].name != ivs[ivs.len() - 1].name);
                }
            }
        }
    }
}

proof fn lemma_drop_globals_take(ivs: Seq<Interval>, globals: Seq<Seq<char>>, k: int)
    requires
        0 <= k < ivs.len(),
    ensures
        drop_globals(ivs.take(k + 1), globals) == drop_globals(ivs.take(k), globals) + if globals.contains(ivs[k].name) {
            Seq::empty()
        } else {
            seq![ivs[k]]
        },
{
    assert(ivs.take(k + 1).drop_last() =~= ivs.take(k));
    assert(ivs.take(k + 1).last() == ivs[k]);
}

/// The intervals handed to the allocator have distinct names and are few
/// enough for it.
proof fn lemma_local_intervals(blocks: Seq<IrBlock>, globals: Seq<Seq<char>>)
    requires
        instr_count(blocks) < 0x0500_0000,
    ensures
        names_distinct(local_intervals(blocks, globals)),
        local_intervals(blocks, globals).len() < 0x1000_0000,
{
    let st = first_pass(blocks);
    let fl = flat(blocks);
    lemma_flat_len(blocks);
    lemma_pass_sizes(fl);
    lemma_occurrences_len(st.instructions);
    let occ = occurrences(st.instructions);
    lemma_first_seen_distinct(occ);
    let lv = liveness(st);
    assert(names_distinct(lv)) by {
        assert forall|a: int, b: int| 0 <= a < b < lv.len() implies lv[a].name != lv[b].name by {
            assert(lv[a].name == first_seen(occ)[a] && lv[b].name == first_seen(occ)[b]);
        }
    }
    lemma_drop_globals(lv, globals);
}

proof fn lemma_dec_digits_short(n: nat)
    requires
        n < 100,
    ensures
        dec_digits(n).len() <= 2,
{
    if n >= 10 {
        assert(dec_digits(n / 10).len() == 1);
    }
}

proof fn lemma_dec_digits_last(n: nat)
    ensures
        dec_digits(n).len() >= 1,
        dec_digits(n).last() != ')',
    decreases n,
{
    if n >= 10 {
        lemma_dec_digits_last(n / 10);
    }
}

/// Every place the linear scan reports can be read back: registers have
/// short names, and stack slots carry an offset inside the frame.
proof fn lemma_scan_texts_ok(vars: Seq<Interval>)
    requires
        names_distinct(vars),
        vars.len() < 0x1000_0000,
    ensures
        forall|i: int| 0 <= i < spec_linear_scan_from(initial_scan(), vars).0.len()
            ==> location_text_ok(#[trigger] spec_linear_scan_from(initial_scan(), vars).0[i].1),
        spec_linear_scan_from(initial_scan(), vars).1 < 0x4000_0000,
{
    lemma_linear_scan_places_in_range(vars);
    let fin = scan_run(initial_scan(), sort_by_start(vars));
    let frame = spec_linear_scan_from(initial_scan(), vars).1;
    let out = spec_linear_scan_from(initial_scan(), vars).0;
    assert forall|i: int| 0 <= i < out.len() implies location_text_ok(#[trigger] out[i].1) by {
        assert(out[i].1 == render_place(fin.map[i].1, frame as int));
        match fin.map[i].1 {
            Place::Reg(r) => {
                assert(r < 22);
                if r < 4 {
                    lemma_dec_digits_short((r + 3) as nat);
                } else if r < 16 {
                    lemma_dec_digits_short((r - 4) as nat);
                } else {
                    lemma_dec_digits_short((r - 14) as nat);
                }
                assert(reg_name(r).len() <= 3);
                assert(!ends_with(out[i].1, sp_suffix()));
            }
            Place::Stack(o) => {
                let x = frame + o;
                assert(0 <= x <= frame - 4);
                let t = out[i].1;
                assert(t == int_text(x) + sp_suffix());
                assert(ends_with(t, sp_suffix())) by {
                    assert(t.subrange(t.len() - 4, t.len() as int) =~= sp_suffix());
                }
                assert(t.subrange(0, t.len() - 4) =~= int_text(x));
                lemma_dec_digits_last(x as nat);
                assert(!ends_with(int_text(x), sp_suffix())) by {
                    let d = int_text(x);
                    if ends_with(d, sp_suffix()) {
                        assert(d.subrange(d.len() - 4, d.len() as int)[3] == d.last());
                    }
                }
                assert(trim_suffix_all(int_text(x), sp_suffix()) == int_text(x));
                assert(trim_suffix_all(t, sp_suffix()) == int_text(x));
                lemma_parse_int_text(x);
            }
        }
    }
}

/// Whether a jump goes back to a block that starts at or before `current_idx`.
fn check_single_branch(target: &String, current_idx: &usize, state: &FunctionState) -> (r: bool)
    ensures
        r == (state@.block_starts.contains_key(target@) && state@.block_starts[target@] <= *current_idx),
{
    match state.get_block_idx(target.as_str()) {
        Some(target_idx) => target_idx <= *current_idx,
        None => false,
    }
}

/// Whether either target of a conditional branch goes back.
fn check_conditional_branch(true_target: &String, false_target: &String, current_idx: &usize, state: &FunctionState) -> (r: bool)
    ensures
        r == ((state@.block_starts.contains_key(true_target@) && state@.block_starts[true_target@] <= *current_idx)
            || (state@.block_starts.contains_key(false_target@) && state@.block_starts[false_target@] <= *current_idx)),
{
    check_single_branch(true_target, current_idx, state) || check_single_branch(false_target, current_idx, state)
}

/// Whether a jump or branch of the block starting at `current_idx` goes back
/// to a block that starts at or before it: the sign of a loop.
pub fn check_loop_branch(instruction: &Instr, current_idx: &usize, state: &FunctionState) -> (r: bool)
    ensures
        r == back_branch((*current_idx, *instruction), state@.block_starts),
{
    match instruction {
        Instr::Br { target } => check_single_branch(target, current_idx, state),
        Instr::CondBr { true_target, false_target, .. } => check_conditional_branch(true_target, false_target, current_idx, state),
        _ => false,
    }
}

/// The name an instruction defines: empty for one that defines none.
pub fn get_value_name(instruction: &Instr) -> (r: String)
    ensures
        r@ == result_name(*instruction),
{
    match instruction {
        Instr::Alloca { result } => result.clone(),
        Instr::Load { result, .. } => result.clone(),
        Instr::Binary { result, .. } => result.clone(),
        Instr::ICmp { result, .. } => result.clone(),
        Instr::ZExt { result, .. } => result.clone(),
        Instr::Other { result } => result.clone(),
        _ => String::new(),
    }
}

fn push_operand_use(uses: &mut Vec<String>, v: &crate::riscv_codegen::ir::IrValue)
    ensures
        texts(final(uses)@) == texts(old(uses)@) + operand_uses(*v),
{
    let ghost u0 = texts(uses@);
    match v {
        crate::riscv_codegen::ir::IrValue::Const(_) => {
            assert(texts(uses@) =~= u0 + operand_uses(*v));
        }
        crate::riscv_codegen::ir::IrValue::Named(n) => {
            uses.push(n.clone());
            assert(texts(uses@) =~= u0 + operand_uses(*v));
        }
    }
}

/// The names of the non-constant operands an instruction reads.
pub fn collect_uses(instruction: &Instr) -> (r: Vec<String>)
    ensures
        texts(r@) == uses_of(*instruction),
{
    let mut uses: Vec<String> = Vec::new();
    assert(texts(uses@) =~= Seq::<Seq<char>>::empty());
    match instruction {
        Instr::Store { value, ptr } => {
            push_operand_use(&mut uses, value);
            push_operand_use(&mut uses, ptr);
        }
        Instr::Binary { lhs, rhs, .. } => {
            push_operand_use(&mut uses, lhs);
            push_operand_use(&mut uses, rhs);
        }
        Instr::ICmp { lhs, rhs, .. } => {
            push_operand_use(&mut uses, lhs);
            push_operand_use(&mut uses, rhs);
        }
        Instr::Load { ptr, .. } => {
            push_operand_use(&mut uses, ptr);
        }
        Instr::CondBr { cond, .. } => {
            push_operand_use(&mut uses, cond);
        }
        Instr::ZExt { value, .. } => {
            push_operand_use(&mut uses, value);
        }
        _ => {}
    }
    uses
}

/// A copy of a list of names.
fn copy_texts(v: &Vec<String>) -> (r: Vec<String>)
    ensures
        texts(r@) == texts(v@),
{
    let mut r: Vec<String> = Vec::new();
    let mut i: usize = 0;
    while i < v.len()
        invariant
            i <= v.len(),
            texts(r@) == texts(v@).take(i as int),
        decreases v.len() - i,
    {
        let ghost r0 = texts(r@);
        r.push(v[i].clone());
        assert(texts(r@) =~= r0.push(v@[i as int]@));
        assert(texts(v@).take(i + 1) =~= texts(v@).take(i as int).push(v@[i as int]@));
        i = i + 1;
    }
    assert(texts(v@).take(v.len() as int) =~= texts(v@));
    r
}


proof fn lemma_instrs_take(is: Seq<Instr>, c: CtxView, i: int)
    requires
        0 <= i < is.len(),
    ensures
        instrs_text(is.take(i + 1), c) == instrs_text(is.take(i), c) + instr_text(is[i], c),
{
    assert(is.take(i + 1).drop_last() =~= is.take(i));
    assert(is.take(i + 1).last() == is[i]);
}

proof fn lemma_blocks_text_take(bs: Seq<IrBlock>, c: CtxView, b: int)
    requires
        0 <= b < bs.len(),
    ensures
        blocks_text(bs.take(b + 1), c) == blocks_text(bs.take(b), c) + block_text(bs[b], c),
{
    assert(bs.take(b + 1).drop_last() =~= bs.take(b));
    assert(bs.take(b + 1).last() == bs[b]);
}

/// Lowers a function: a first pass gathers the live intervals, the linear
/// scan places the values that are not globals, then each block is emitted
/// after the frame reservation.
#[verifier::spinoff_prover]
#[verifier::rlimit(50)]
pub fn build_function(function: &IrFunction, asm_builder: &mut AsmBuilder, global_names: &Vec<String>)
    requires
        instr_count(function.blocks@) < 0x0500_0000,
    ensures
        final(asm_builder)@ == old(asm_builder)@ + function_text(*function, texts(global_names@)),
{
    let ghost blocks = function.blocks@;
    let ghost globals = texts(global_names@);
    let function_name = &function.name;
    let mut ctx = GenContext::new();
    let mut g: usize = 0;
    assert(globals.take(0) =~= Seq::<Seq<char>>::empty());
    assert(global_locations(globals.take(0)) =~= Map::<Seq<char>, Loc>::empty());
    while g < global_names.len()
        invariant
            g <= global_names.len(),
            globals == texts(global_names@),
            ctx@ == (CtxView {
                locations: global_locations(globals.take(g as int)),
                stack_size: 0,
                globals: globals.take(g as int),
                allocated: Seq::<Seq<char>>::empty(),
                pure_stack_mode: false,
            }),
        decreases global_names.len() - g,
    {
        let ghost before = globals.take(g as int);
        ctx.add_global(global_names[g].clone());
        assert(globals.take(g + 1) =~= before.push(global_names@[g as int]@));
        proof { lemma_global_locations_push(before, global_names@[g as int]@); }
        g = g + 1;
    }
    assert(globals.take(global_names.len() as int) =~= globals);

    // The first pass: where each block starts.
    let mut state = FunctionState::new();
    let nb = function.blocks.len();
    let mut temp_idx: usize = 0;
    let mut b: usize = 0;
    assert(blocks.take(0) =~= Seq::<IrBlock>::empty());
    assert(start_map(block_entries(blocks.take(0))) =~= Map::<Seq<char>, usize>::empty());
    while b < nb
        invariant
            b <= nb,
            nb == blocks.len(),
            blocks == function.blocks@,
            instr_count(blocks) < 0x0500_0000,
            temp_idx == instr_count(blocks.take(b as int)),
            state@ == (StateView {
                instructions: Seq::empty(),
                allocated: Seq::empty(),
                block_starts: start_map(block_entries(blocks.take(b as int))),
                loop_branch: false,
                idx: 0,
            }),
        decreases nb - b,
    {
        proof {
            lemma_blocks_take(blocks, b as int);
            lemma_instr_count_take(blocks, b + 1);
        }
        let block = &function.blocks[b];
        let ghost e0 = block_entries(blocks.take(b as int));
        if block.name.as_str().unicode_len() > 0 {
            state.record_block_start(block.name.clone(), temp_idx);
            proof { lemma_start_map_push(e0, block.name@, temp_idx); }
            assert(block_entries(blocks.take(b + 1)) =~= e0.push((block.name@, temp_idx)));
        } else {
            assert(block_entries(blocks.take(b + 1)) =~= e0);
        }
        temp_idx = temp_idx + block.instrs.len();
        b = b + 1;
    }
    assert(blocks.take(nb as int) =~= blocks);
    let ghost starts = start_map(block_entries(blocks));

    // The first pass: what each instruction defines and uses.
    b = 0;
    proof { lemma_flat_len(blocks); }
    assert(flat(blocks.take(0)) =~= Seq::<(usize, Instr)>::empty());
    while b < nb
        invariant
            b <= nb,
            nb == blocks.len(),
            blocks == function.blocks@,
            instr_count(blocks) < 0x0500_0000,
            flat(blocks).len() == instr_count(blocks),
            starts == start_map(block_entries(blocks)),
            ({
                let fl = flat(blocks.take(b as int));
                state@ == (StateView {
                    instructions: pass_instructions(fl),
                    allocated: pass_allocated(fl),
                    block_starts: starts,
                    loop_branch: pass_loop(fl, starts),
                    idx: fl.len() as usize,
                })
            }),
        decreases nb - b,
    {
        proof {
            lemma_blocks_take(blocks, b as int);
            lemma_instr_count_take(blocks, b + 1);
            lemma_flat_len(blocks.take(b + 1));
            lemma_flat_len(blocks.take(b as int));
        }
        let block = &function.blocks[b];
        let ghost base = flat(blocks.take(b as int));
        let ghost part = block_part(instr_count(blocks.take(b as int)), blocks[b as int]);
        let block_start_idx = state.current_idx();
        let ni = block.instrs.len();
        let mut i: usize = 0;
        assert(base + part.take(0) =~= base);
        while i < ni
            invariant
                i <= ni,
                ni == block.instrs@.len(),
                b < nb,
                nb == blocks.len(),
                blocks == function.blocks@,
                instr_count(blocks) < 0x0500_0000,
                starts == start_map(block_entries(blocks)),
                block == function.blocks@[b as int],
                part == block_part(instr_count(blocks.take(b as int)), blocks[b as int]),
                block_start_idx == instr_count(blocks.take(b as int)),
                (base + part).len() <= instr_count(blocks),
                base.len() == instr_count(blocks.take(b as int)),
                ({
                    let fl = base + part.take(i as int);
                    state@ == (StateView {
                        instructions: pass_instructions(fl),
                        allocated: pass_allocated(fl),
                        block_starts: starts,
                        loop_branch: pass_loop(fl, starts),
                        idx: fl.len() as usize,
                    })
                }),
            decreases ni - i,
        {
            let instruction = &block.instrs[i];
            let ghost fl0 = base + part.take(i as int);
            let ghost e = part[i as int];
            assert(e == (block_start_idx, *instruction));
            assert(base + part.take(i + 1) =~= fl0.push(e));
            proof { lemma_pass_push(fl0, e, starts); }
            assert(fl0.len() < (base + part).len());
            let idx = state.current_idx();
            if let Instr::Alloca { result } = instruction {
                if result.as_str().unicode_len() > 0 {
                    state.record_allocated_val(result.clone());
                }
            }
            if instruction.is_branch() {
                if check_loop_branch(instruction, &block_start_idx, &state) {
                    state.mark_loop();
                }
            }
            if instruction.is_block_end() {
                state.idx = state.idx + 1;
            } else {
                let val_name = get_value_name(instruction);
                let uses = collect_uses(instruction);
                state.record_instruction(idx, val_name, uses);
                state.idx = idx + 1;
            }
            let ghost fl1 = base + part.take(i + 1);
            assert(state@.instructions == pass_instructions(fl1));
            assert(state@.allocated == pass_allocated(fl1));
            assert(state@.block_starts == starts);
            assert(state@.loop_branch == pass_loop(fl1, starts));
            assert(state@.idx == fl1.len() as usize);
            i = i + 1;
        }
        assert(part.take(ni as int) =~= part);
        b = b + 1;
    }
    assert(blocks.take(nb as int) =~= blocks);
    assert(state@ == first_pass(blocks));

    // Live intervals, without the globals, then allocation.
    let all_vars = state.compute_liveness();
    let mut inner_vars: Vec<InnerVar> = Vec::new();
    let mut k: usize = 0;
    assert(views(inner_vars@) =~= drop_globals(views(all_vars@).take(0), globals));
    while k < all_vars.len()
        invariant
            k <= all_vars.len(),
            globals == texts(global_names@),
            ctx@.globals == globals,
            views(inner_vars@) == drop_globals(views(all_vars@).take(k as int), globals),
        decreases all_vars.len() - k,
    {
        proof { lemma_drop_globals_take(views(all_vars@), globals, k as int); }
        let ghost before = views(inner_vars@);
        assert(views(all_vars@)[k as int] == all_vars@[k as int]@);
        if !ctx.is_global(all_vars[k].get_name().as_str()) {
            inner_vars.push(all_vars[k].duplicate());
            assert(views(inner_vars@) =~= before.push(all_vars@[k as int]@));
        } else {
            assert(views(inner_vars@) =~= before);
        }
        k = k + 1;
    }
    assert(views(all_vars@).take(all_vars.len() as int) =~= views(all_vars@));
    assert(views(inner_vars@) == local_intervals(blocks, globals));
    proof {
        lemma_local_intervals(blocks, globals);
        lemma_scan_texts_ok(local_intervals(blocks, globals));
    }
    let alloc = AllocatedInnerVar;
    let pure = ctx.is_pure_stack_mode();
    let (allocations, stack_size) = alloc.allocate(inner_vars, pure);
    assert forall|j: int| 0 <= j < allocations@.len() implies location_text_ok(#[trigger] allocations@[j].1@) by {
        let out = spec_linear_scan_from(initial_scan(), local_intervals(blocks, globals)).0;
        assert(crate::riscv_codegen::register_alloc::pairs_view(allocations@)[j] == (allocations@[j].0@, allocations@[j].1@));
        assert(out[j].1 == allocations@[j].1@);
    }
    ctx.record_alloc_vars(allocations, stack_size);
    ctx.set_allocated_vals(copy_texts(state.get_allocated_vals()));
    proof {
        lemma_pass_allocated_distinct(flat(blocks));
        lemma_without_repeats_same(first_pass(blocks).allocated);
    }
    let ghost c = function_ctx(blocks, globals);
    assert(ctx@.locations =~= c.locations);
    assert(ctx@ == c);

    // Emission.
    asm_builder.emit_text_section();
    asm_builder.emit_global_symbol(function_name.as_str());
    asm_builder.emit_label(function_name.as_str());
    let aligned_stack_size = align_frame(ctx.get_stack_size());
    asm_builder.emit_function_prologue(aligned_stack_size);
    let ghost header = asm_builder@;
    b = 0;
    assert(blocks_text(blocks.take(0), c) =~= Seq::<char>::empty());
    while b < nb
        invariant
            b <= nb,
            nb == blocks.len(),
            blocks == function.blocks@,
            ctx@ == c,
            c.stack_size < 0x4000_0000,
            asm_builder@ == header + blocks_text(blocks.take(b as int), c),
        decreases nb - b,
    {
        proof { lemma_blocks_text_take(blocks, c, b as int); }
        let block = &function.blocks[b];
        let ghost before = asm_builder@;
        if block.name.as_str().unicode_len() > 0 {
            asm_builder.emit_label(block.name.as_str());
        }
        let ghost labelled = asm_builder@;
        let ni = block.instrs.len();
        let mut i: usize = 0;
        assert(instrs_text(block.instrs@.take(0), c) =~= Seq::<char>::empty());
        while i < ni
            invariant
                i <= ni,
                ni == block.instrs@.len(),
                ctx@ == c,
                c.stack_size < 0x4000_0000,
                asm_builder@ == labelled + instrs_text(block.instrs@.take(i as int), c),
            decreases ni - i,
        {
            proof { lemma_instrs_take(block.instrs@, c, i as int); }
            generate_instruction(&block.instrs[i], asm_builder, &ctx);
            i = i + 1;
        }
        assert(block.instrs@.take(ni as int) =~= block.instrs@);
        assert(asm_builder@ =~= before + block_text(blocks[b as int], c));
        b = b + 1;
    }
    assert(blocks.take(nb as int) =~= blocks);
    assert(asm_builder@ =~= old(asm_builder)@ + function_text(*function, globals));
}

proof fn lemma_start_map_push(s: Seq<(Seq<char>, usize)>, k: Seq<char>, v: usize)
    ensures
        start_map(s.push((k, v))) == start_map(s).insert(k, v),
{
    let s1 = s.push((k, v));
    assert forall|q: Seq<char>| #[trigger] start_map(s1).contains_key(q) == start_map(s).insert(k, v).contains_key(q)
        && (start_map(s1).contains_key(q) ==> start_map(s1)[q] == start_map(s).insert(k, v)[q]) by {
        lemma_last_key_push(s, k, v, q);
        lemma_last_key(s, q);
        if q != k && last_key(s, q) >= 0 {
            assert(s1[last_key(s, q)] == s[last_key(s, q)]);
        }
        if q == k {
            assert(s1[s.len() as int] == (k, v));
        }
    }
    assert(start_map(s1) =~= start_map(s).insert(k, v));
}

/// Lowers a global: in the data section, its label and its initial word.
pub fn build_global_variable(global_variable: &IrGlobal, asm_builder: &mut AsmBuilder)
    ensures
        final(asm_builder)@ == old(asm_builder)@ + global_text(*global_variable),
{
    asm_builder.emit_data_section();
    asm_builder.emit_label(global_variable.name.as_str());
    match global_variable.init {
        Some(val) => asm_builder.emit_word(val as i32),
        None => asm_builder.emit_word(0),
    }
    asm_builder.emit_empty_line();
    assert(asm_builder@ =~= old(asm_builder)@ + global_text(*global_variable));
}

/// Lowers a module to assembly text: its globals, then its functions, each
/// with every global registered.
#[verifier::spinoff_prover]
#[verifier::rlimit(50)]
pub fn lower_module(module: &IrModule) -> (r: String)
    requires
        module_fits(*module),
    ensures
        r@ == module_text(*module),
{
    let mut asm_builder = AsmBuilder::new();
    let mut global_names: Vec<String> = Vec::new();
    let ghost gs = module.globals@;
    let mut i: usize = 0;
    assert(globals_text(gs.take(0)) =~= Seq::<char>::empty());
    assert(texts(global_names@) =~= global_names_of(gs.take(0)));
    while i < module.globals.len()
        invariant
            i <= module.globals.len(),
            gs == module.globals@,
            asm_builder@ == globals_text(gs.take(i as int)),
            texts(global_names@) == global_names_of(gs.take(i as int)),
        decreases module.globals.len() - i,
    {
        let global = &module.globals[i];
        assert(gs.take(i + 1).drop_last() =~= gs.take(i as int));
        assert(gs.take(i + 1).last() == *global);
        let ghost n0 = texts(global_names@);
        global_names.push(global.name.clone());
        assert(texts(global_names@) =~= n0.push(global.name@));
        assert(global_names_of(gs.take(i + 1)) =~= global_names_of(gs.take(i as int)).push(global.name@));
        build_global_variable(global, &mut asm_builder);
        i = i + 1;
    }
    assert(gs.take(module.globals.len() as int) =~= gs);
    let ghost head = asm_builder@;
    let ghost fs = module.functions@;
    let ghost names = global_names_of(gs);
    let mut j: usize = 0;
    assert(functions_text(fs.take(0), names) =~= Seq::<char>::empty());
    while j < module.functions.len()
        invariant
            j <= module.functions.len(),
            fs == module.functions@,
            module_fits(*module),
            texts(global_names@) == names,
            asm_builder@ == head + functions_text(fs.take(j as int), names),
        decreases module.functions.len() - j,
    {
        assert(fs.take(j + 1).drop_last() =~= fs.take(j as int));
        assert(fs.take(j + 1).last() == fs[j as int]);
        assert(instr_count(fs[j as int].blocks@) < 0x0500_0000);
        build_function(&module.functions[j], &mut asm_builder, &global_names);
        j = j + 1;
    }
    assert(fs.take(module.functions.len() as int) =~= fs);
    asm_builder.emit()
}


proof fn lemma_global_locations_push(s: Seq<Seq<char>>, x: Seq<char>)
    ensures
        global_locations(s.push(x)) == global_locations(s).insert(x, Loc::Global(x)),
{
    let t = s.push(x);
    assert forall|k: Seq<char>| #[trigger] t.contains(k) == (s.contains(k) || k == x) by {
        if s.contains(k) {
            let j = choose|j: int| 0 <= j < s.len() && s[j] == k;
            assert(t[j] == k);
        }
        if k == x {
            assert(t[s.len() as int] == x);
        }
        if t.contains(k) && k != x {
            let j = choose|j: int| 0 <= j < t.len() && t[j] == k;
            assert(j < s.len());
            assert(s[j] == k);
        }
    }
    assert(global_locations(t) =~= global_locations(s).insert(x, Loc::Global(x)));
}


// ---------------------------------------------------------------------------
// Laws of the first pass and of a function's context.
// ---------------------------------------------------------------------------

/// In the context a function is lowered in, every global lives at its own
/// label, and no global is among the intervals handed to the allocator.
pub proof fn lemma_globals_stay_global(blocks: Seq<IrBlock>, globals: Seq<Seq<char>>)
    ensures
        forall|g: Seq<char>| #[trigger] globals.contains(g) ==> function_ctx(blocks, globals).locations.contains_key(g)
            && function_ctx(blocks, globals).locations[g] == Loc::Global(g),
        forall|k: int| 0 <= k < local_intervals(blocks, globals).len()
            ==> !globals.contains(#[trigger] local_intervals(blocks, globals)[k].name),
{
    lemma_drop_globals(liveness(first_pass(blocks)), globals);
}

/// True when the recorded indices never decrease.
pub open spec fn indices_ordered(ins: Seq<RecordedView>) -> bool {
    forall|a: int, b: int| 0 <= a < b < ins.len() ==> ins[a].0 <= ins[b].0
}

proof fn lemma_use_occurrences_at(uses: Seq<Seq<char>>, idx: usize)
    ensures
        forall|a: int| 0 <= a < use_occurrences(uses, idx).len() ==> (#[trigger] use_occurrences(uses, idx)[a]).1 == idx,
    decreases uses.len(),
{
    if uses.len() > 0 {
        lemma_use_occurrences_at(uses.drop_last(), idx);
        let u = use_occurrences(uses, idx);
        let p = use_occurrences(uses.drop_last(), idx);
        assert forall|a: int| 0 <= a < u.len() implies (#[trigger] u[a]).1 == idx by {
            if a < p.len() {
                assert(u[a] == p[a]);
            }
        }
    }
}

proof fn lemma_max_position(ins: Seq<RecordedView>)
    ensures
        forall|j: int| 0 <= j < ins.len() ==> (#[trigger] ins[j]).0 <= max_position(ins),
    decreases ins.len(),
{
    if ins.len() > 0 {
        let t = ins.drop_last();
        lemma_max_position(t);
        assert forall|j: int| 0 <= j < ins.len() implies (#[trigger] ins[j]).0 <= max_position(ins) by {
            if j < t.len() {
                assert(ins[j] == t[j]);
            }
        }
    }
}

/// Occurrences come at the indices of their instructions, in order when the
/// instructions are.
proof fn lemma_occurrences_ordered(ins: Seq<RecordedView>)
    requires
        indices_ordered(ins),
    ensures
        forall|a: int, b: int| 0 <= a < b < occurrences(ins).len() ==> occurrences(ins)[a].1 <= occurrences(ins)[b].1,
        forall|a: int| 0 <= a < occurrences(ins).len() ==> (#[trigger] occurrences(ins)[a]).1 <= max_position(ins),
    decreases ins.len(),
{
    lemma_max_position(ins);
    if ins.len() > 0 {
        let t = ins.drop_last();
        let e = ins.last();
        assert(indices_ordered(t)) by {
            assert forall|a: int, b: int| 0 <= a < b < t.len() implies t[a].0 <= t[b].0 by {
                assert(t[a] == ins[a] && t[b] == ins[b]);
            }
        }
        lemma_occurrences_ordered(t);
        lemma_max_position(t);
        lemma_use_occurrences_at(e.2, e.0);
        let p = occurrences(t);
        let q = instr_occurrences(e);
        let o = occurrences(ins);
        assert(o == p + q);
        assert forall|a: int| 0 <= a < q.len() implies (#[trigger] q[a]).1 == e.0 by {
            let named = if e.1.len() > 0 { seq![(e.1, e.0)] } else { Seq::<(Seq<char>, usize)>::empty() };
            if a >= named.len() {
                assert(q[a] == use_occurrences(e.2, e.0)[a - named.len()]);
            }
        }
        assert(max_position(t) <= e.0) by {
            if t.len() > 0 {
                lemma_max_position_attained(t);
                let j = choose|j: int| 0 <= j < t.len() && t[j].0 == max_position(t);
                assert(ins[j] == t[j]);
                assert(ins[j].0 <= ins[ins.len() - 1].0);
            }
        }
        assert forall|a: int, b: int| 0 <= a < b < o.len() implies o[a].1 <= o[b].1 by {
            if b < p.len() {
                assert(o[a] == p[a] && o[b] == p[b]);
            } else if a < p.len() {
                assert(o[a] == p[a] && o[b] == q[b - p.len()]);
            } else {
                assert(o[a] == q[a - p.len()] && o[b] == q[b - p.len()]);
            }
        }
        assert forall|a: int| 0 <= a < o.len() implies (#[trigger] o[a]).1 <= max_position(ins) by {
            if a < p.len() {
                assert(o[a] == p[a]);
            } else {
                assert(o[a] == q[a - p.len()]);
                assert(ins[ins.len() - 1] == e);
            }
        }
    }
}

proof fn lemma_max_position_attained(ins: Seq<RecordedView>)
    requires
        ins.len() > 0,
    ensures
        exists|j: int| 0 <= j < ins.len() && ins[j].0 == max_position(ins),
    decreases ins.len(),
{
    let t = ins.drop_last();
    if t.len() == 0 {
        assert(max_position(t) == 0);
        assert(ins.last() == ins[0]);
        assert(ins[0].0 == max_position(ins));
    } else {
        lemma_max_position_attained(t);
        let j = choose|j: int| 0 <= j < t.len() && t[j].0 == max_position(t);
        assert(ins[j] == t[j]);
        if ins.last().0 > max_position(t) {
            assert(ins[ins.len() - 1].0 == max_position(ins));
        } else {
            assert(ins[j].0 == max_position(ins));
        }
    }
}

/// When the recorded indices never decrease, every live interval starts no
/// later than it ends, and ends no later than the last recorded instruction.
pub proof fn lemma_liveness_ordered(st: StateView)
    requires
        indices_ordered(st.instructions),
    ensures
        forall|k: int| 0 <= k < liveness(st).len() ==> (#[trigger] liveness(st)[k]).start <= liveness(st)[k].end
            && liveness(st)[k].end <= max_position(st.instructions),
{
    let occ = occurrences(st.instructions);
    lemma_occurrences_ordered(st.instructions);
    let lv = liveness(st);
    assert forall|k: int| 0 <= k < lv.len() implies (#[trigger] lv[k]).start <= lv[k].end
        && lv[k].end <= max_position(st.instructions) by {
        let n = first_seen(occ)[k];
        assert(first_seen(occ).contains(n));
        lemma_first_key(occ, n);
        lemma_last_key(occ, n);
        let f = first_key(occ, n);
        let l = last_key(occ, n);
        assert(f <= l) by {
            if f > l {
                assert(occ[f].0 == n);
            }
        }
        if f < l {
            assert(occ[f].1 <= occ[l].1);
        }
    }
}

/// True when the non-empty name `n` is defined or used by a recorded
/// instruction at index `x`.
pub open spec fn occurs_at(ins: Seq<RecordedView>, n: Seq<char>, x: int) -> bool {
    n.len() > 0 && exists|j: int| #![trigger ins[j]] 0 <= j < ins.len() && ins[j].0 == x && (ins[j].1 == n || ins[j].2.contains(n))
}

proof fn lemma_use_occurrences_are(uses: Seq<Seq<char>>, idx: usize)
    ensures
        forall|a: int| 0 <= a < use_occurrences(uses, idx).len() ==> (#[trigger] use_occurrences(uses, idx)[a]).1 == idx
            && use_occurrences(uses, idx)[a].0.len() > 0 && uses.contains(use_occurrences(uses, idx)[a].0),
        forall|n: Seq<char>| n.len() > 0 && uses.contains(n) ==> use_occurrences(uses, idx).contains((n, idx)),
    decreases uses.len(),
{
    if uses.len() > 0 {
        let t = uses.drop_last();
        lemma_use_occurrences_are(t, idx);
        let u = use_occurrences(uses, idx);
        let p = use_occurrences(t, idx);
        assert forall|a: int| 0 <= a < u.len() implies (#[trigger] u[a]).1 == idx && u[a].0.len() > 0 && uses.contains(u[a].0) by {
            if a < p.len() {
                assert(u[a] == p[a]);
                let w = choose|w: int| 0 <= w < t.len() && t[w] == p[a].0;
                assert(uses[w] == t[w]);
            } else {
                assert(u[a] == (uses.last(), idx));
                assert(uses[uses.len() - 1] == uses.last());
            }
        }
        assert forall|n: Seq<char>| n.len() > 0 && uses.contains(n) implies u.contains((n, idx)) by {
            let w = choose|w: int| 0 <= w < uses.len() && uses[w] == n;
            if w < uses.len() - 1 {
                assert(t[w] == n);
                assert(t.contains(n));
                assert(p.contains((n, idx)));
                let a = choose|a: int| 0 <= a < p.len() && p[a] == (n, idx);
                assert(u[a] == p[a]);
            } else {
                assert(u[p.len() as int] == (n, idx));
            }
        }
    }
}

/// The occurrences are exactly the pairs of a non-empty name and an index at
/// which it is defined or used.
proof fn lemma_occurrences_are(ins: Seq<RecordedView>)
    ensures
        forall|a: int| 0 <= a < occurrences(ins).len() ==> occurs_at(ins, (#[trigger] occurrences(ins)[a]).0, occurrences(ins)[a].1 as int),
        forall|n: Seq<char>, x: int| occurs_at(ins, n, x) ==> exists|a: int| 0 <= a < occurrences(ins).len()
            && #[trigger] occurrences(ins)[a] == (n, x as usize) && 0 <= x,
    decreases ins.len(),
{
    if ins.len() > 0 {
        let t = ins.drop_last();
        let e = ins.last();
        lemma_occurrences_are(t);
        lemma_use_occurrences_are(e.2, e.0);
        let o = occurrences(ins);
        let p = occurrences(t);
        let d: Seq<(Seq<char>, usize)> = if e.1.len() > 0 { seq![(e.1, e.0)] } else { Seq::empty() };
        let u = use_occurrences(e.2, e.0);
        assert(o == p + (d + u));
        assert(e == ins[ins.len() - 1]);
        assert forall|a: int| 0 <= a < o.len() implies occurs_at(ins, (#[trigger] o[a]).0, o[a].1 as int) by {
            if a < p.len() {
                assert(o[a] == p[a]);
                assert(occurs_at(t, p[a].0, p[a].1 as int));
                lemma_occurs_prefix(ins, p[a].0, p[a].1 as int);
            } else if a < p.len() + d.len() {
                assert(o[a] == (e.1, e.0));
            } else {
                assert(o[a] == u[a - p.len() - d.len()]);
            }
        }
        assert forall|n: Seq<char>, x: int| occurs_at(ins, n, x) implies exists|a: int| 0 <= a < o.len()
            && #[trigger] o[a] == (n, x as usize) && 0 <= x by {
            let j = choose|j: int| #![trigger ins[j]] 0 <= j < ins.len() && ins[j].0 == x && (ins[j].1 == n || ins[j].2.contains(n));
            if j < t.len() {
                assert(t[j] == ins[j]);
                assert(occurs_at(t, n, x));
                let a = choose|a: int| 0 <= a < p.len() && #[trigger] p[a] == (n, x as usize) && 0 <= x;
                assert(o[a] == p[a]);
            } else if e.1 == n {
                assert(o[p.len() as int] == (n, x as usize));
            } else {
                let b = choose|b: int| 0 <= b < u.len() && u[b] == (n, e.0);
                assert(o[p.len() + d.len() + b] == u[b]);
            }
        }
    }
}

proof fn lemma_occurs_prefix(ins: Seq<RecordedView>, n: Seq<char>, x: int)
    requires
        ins.len() > 0,
        occurs_at(ins.drop_last(), n, x),
    ensures
        occurs_at(ins, n, x),
{
    let t = ins.drop_last();
    let j = choose|j: int| #![trigger t[j]] 0 <= j < t.len() && t[j].0 == x && (t[j].1 == n || t[j].2.contains(n));
    assert(ins[j] == t[j]);
    assert(ins[j].0 == x && (ins[j].1 == n || ins[j].2.contains(n)));
}

/// No entry before the first one of a key has that key.
proof fn lemma_first_key_first(m: Seq<(Seq<char>, usize)>, k: Seq<char>)
    ensures
        forall|a: int| 0 <= a < m.len() && (first_key(m, k) < 0 || a < first_key(m, k)) ==> (#[trigger] m[a]).0 != k,
    decreases m.len(),
{
    if m.len() > 0 {
        let t = m.drop_last();
        lemma_first_key_first(t, k);
        let ft = first_key(t, k);
        assert(first_key(m, k) == if ft >= 0 { ft } else if m.last().0 == k { m.len() - 1 } else { -1 });
        lemma_first_key(t, k);
        assert forall|a: int| 0 <= a < m.len() && (first_key(m, k) < 0 || a < first_key(m, k)) implies (#[trigger] m[a]).0 != k by {
            if a < t.len() {
                assert(m[a] == t[a]);
            }
        }
    }
}

/// The live intervals, one per name: every non-empty name that is defined or
/// used has exactly one interval and no other name has one; the interval
/// starts at the least index where the name occurs and ends at the greatest,
/// or, for an `alloca` slot of a function with a loop, at the greatest index
/// recorded.
pub proof fn lemma_liveness_shape(st: StateView)
    requires
        indices_ordered(st.instructions),
    ensures
        ({
            let lv = liveness(st);
            let ins = st.instructions;
            &&& forall|a: int, b: int| 0 <= a < b < lv.len() ==> (#[trigger] lv[a]).name != (#[trigger] lv[b]).name
            &&& forall|n: Seq<char>, x: int| occurs_at(ins, n, x) ==> exists|k: int| 0 <= k < lv.len() && (#[trigger] lv[k]).name == n
            &&& forall|k: int| 0 <= k < lv.len() ==> {
                &&& occurs_at(ins, (#[trigger] lv[k]).name, lv[k].start as int)
                &&& forall|x: int| occurs_at(ins, lv[k].name, x) ==> lv[k].start <= x
                &&& if st.loop_branch && st.allocated.contains(lv[k].name) {
                    lv[k].end == max_position(ins)
                } else {
                    &&& occurs_at(ins, lv[k].name, lv[k].end as int)
                    &&& forall|x: int| occurs_at(ins, lv[k].name, x) ==> x <= lv[k].end
                }
            }
        }),
{
    let ins = st.instructions;
    let occ = occurrences(ins);
    let lv = liveness(st);
    let names = first_seen(occ);
    lemma_occurrences_ordered(ins);
    lemma_occurrences_are(ins);
    lemma_first_seen_distinct(occ);
    assert forall|a: int, b: int| 0 <= a < b < lv.len() implies (#[trigger] lv[a]).name != (#[trigger] lv[b]).name by {
        assert(lv[a].name == names[a] && lv[b].name == names[b]);
    }
    assert forall|n: Seq<char>, x: int| occurs_at(ins, n, x) implies exists|k: int| 0 <= k < lv.len() && (#[trigger] lv[k]).name == n by {
        let a = choose|a: int| 0 <= a < occ.len() && #[trigger] occ[a] == (n, x as usize) && 0 <= x;
        lemma_last_key(occ, n);
        lemma_first_key(occ, n);
        assert(last_key(occ, n) >= 0);
        assert(names.contains(n));
        let k = choose|k: int| 0 <= k < names.len() && names[k] == n;
        assert(lv[k].name == n);
    }
    assert forall|k: int| 0 <= k < lv.len() implies {
        &&& occurs_at(ins, (#[trigger] lv[k]).name, lv[k].start as int)
        &&& forall|x: int| occurs_at(ins, lv[k].name, x) ==> lv[k].start <= x
        &&& if st.loop_branch && st.allocated.contains(lv[k].name) {
            lv[k].end == max_position(ins)
        } else {
            &&& occurs_at(ins, lv[k].name, lv[k].end as int)
            &&& forall|x: int| occurs_at(ins, lv[k].name, x) ==> x <= lv[k].end
        }
    } by {
        let n = names[k];
        assert(lv[k].name == n);
        assert(names.contains(n));
        lemma_first_key(occ, n);
        lemma_last_key(occ, n);
        lemma_first_key_first(occ, n);
        let f = first_key(occ, n);
        let l = last_key(occ, n);
        assert(occ[f].0 == n && occ[l].0 == n);
        assert(occurs_at(ins, occ[f].0, occ[f].1 as int));
        assert(occurs_at(ins, occ[l].0, occ[l].1 as int));
        assert forall|x: int| occurs_at(ins, n, x) implies occ[f].1 <= x && x <= occ[l].1 by {
            let a = choose|a: int| 0 <= a < occ.len() && #[trigger] occ[a] == (n, x as usize) && 0 <= x;
            if a < f { assert(occ[a].0 != n); }
            if a > l { assert(occ[a].0 != n); }
            if f < a { assert(occ[f].1 <= occ[a].1); }
            if a < l { assert(occ[a].1 <= occ[l].1); }
        }
    }
}

proof fn lemma_pass_ordered(fl: Seq<(usize, Instr)>)
    requires
        fl.len() < 0x1_0000_0000,
    ensures
        forall|a: int| 0 <= a < pass_instructions(fl).len() ==> (#[trigger] pass_instructions(fl)[a]).0 < fl.len(),
        indices_ordered(pass_instructions(fl)),
    decreases fl.len(),
{
    if fl.len() > 0 {
        let t = fl.drop_last();
        lemma_pass_ordered(t);
        let p = pass_instructions(t);
        let r = pass_instructions(fl);
        assert forall|a: int| 0 <= a < r.len() implies (#[trigger] r[a]).0 < fl.len() by {
            if a < p.len() {
                assert(r[a] == p[a]);
            }
        }
        assert forall|a: int, b: int| 0 <= a < b < r.len() implies r[a].0 <= r[b].0 by {
            if b < p.len() {
                assert(r[a] == p[a] && r[b] == p[b]);
            } else {
                assert(r[a] == p[a]);
                assert(r[b].0 == fl.len() - 1);
            }
        }
    }
}

/// The first pass records instructions in the order of their indices, so
/// every live interval of a function starts no later than it ends.
pub proof fn lemma_function_intervals_ordered(blocks: Seq<IrBlock>)
    requires
        instr_count(blocks) < 0x0500_0000,
    ensures
        forall|k: int| 0 <= k < liveness(first_pass(blocks)).len()
            ==> (#[trigger] liveness(first_pass(blocks))[k]).start <= liveness(first_pass(blocks))[k].end,
{
    lemma_flat_len(blocks);
    lemma_pass_ordered(flat(blocks));
    lemma_liveness_ordered(first_pass(blocks));
}

} // verus!
