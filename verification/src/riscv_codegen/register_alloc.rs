//! Register allocation over live intervals: a pure-stack allocator that
//! shares slots between intervals that do not overlap, and a linear-scan
//! allocator that spills the interval ending farthest away.
use vstd::prelude::*;
use crate::text::{dec_digits, ends_with, int_text, i64_text, push_nat, owned, str_eq};

verus! {

/// The live interval of a named value, by instruction index.
///
/// The fields are declared end first, so that the derived order is the
/// order of the active set of the linear scan: by end, then start, then name.
#[derive(Clone, Debug, PartialEq, Eq, PartialOrd, Ord)]
pub struct InnerVar {
    end_offset: usize,
    start_offset: usize,
    name: String,
}

/// What an `InnerVar` stands for.
pub struct Interval {
    pub name: Seq<char>,
    pub start: usize,
    pub end: usize,
}

impl View for InnerVar {
    type V = Interval;

    closed spec fn view(&self) -> Interval {
        Interval { name: self.name@, start: self.start_offset, end: self.end_offset }
    }
}

impl InnerVar {
    /// An interval from `start_offset` to `end_offset`, both inclusive.
    pub fn new(name: String, start_offset: usize, end_offset: usize) -> (r: Self)
        ensures
            r@ == (Interval { name: name@, start: start_offset, end: end_offset }),
    {
        Self { name, start_offset, end_offset }
    }

    /// The name of the value.
    pub fn get_name(&self) -> (r: &String)
        ensures
            r@ == self@.name,
    {
        &self.name
    }

    /// The first instruction index at which the value is live.
    pub fn get_start_offset(&self) -> (r: usize)
        ensures
            r == self@.start,
    {
        self.start_offset
    }

    /// The last instruction index at which the value is live.
    pub fn get_end_offset(&self) -> (r: usize)
        ensures
            r == self@.end,
    {
        self.end_offset
    }

    /// A copy of the interval.
    pub fn duplicate(&self) -> (r: Self)
        ensures
            r@ == self@,
    {
        Self { name: self.name.clone(), start_offset: self.start_offset, end_offset: self.end_offset }
    }
}

/// The views of a sequence of intervals.
pub open spec fn views(s: Seq<InnerVar>) -> Seq<Interval> {
    s.map_values(|v: InnerVar| v@)
}

/// Where a value lives at run time.
#[derive(Clone, Debug, PartialEq, Eq)]
pub enum Location {
    Reg(String),
    Stack(i32),
    Global(String),
}

/// What a `Location` stands for.
pub enum Loc {
    Reg(Seq<char>),
    Stack(i32),
    Global(Seq<char>),
}

impl View for Location {
    type V = Loc;

    open spec fn view(&self) -> Loc {
        match self {
            Location::Reg(n) => Loc::Reg(n@),
            Location::Stack(o) => Loc::Stack(*o),
            Location::Global(n) => Loc::Global(n@),
        }
    }
}

impl Location {
    /// The register name, the stack offset in decimal, or the global's label.
    pub fn get_name(&self) -> (r: String)
        ensures
            r@ == match self {
                Location::Reg(n) => n@,
                Location::Stack(o) => int_text(*o as int),
                Location::Global(n) => n@,
            },
    {
        match self {
            Location::Reg(name) => name.clone(),
            Location::Stack(stack_offset) => i64_text(*stack_offset as i64),
            Location::Global(name) => name.clone(),
        }
    }
}

// ---------------------------------------------------------------------------
// Sorting by start, stably.
// ---------------------------------------------------------------------------

/// Inserts `x` after the last element whose start is not after `x`'s start.
pub open spec fn insert_by_start(s: Seq<Interval>, x: Interval) -> Seq<Interval>
    decreases s.len(),
{
    if s.len() == 0 {
        seq![x]
    } else if s.last().start <= x.start {
        s.push(x)
    } else {
        insert_by_start(s.drop_last(), x).push(s.last())
    }
}

/// The intervals ordered by start; intervals with equal starts keep their order.
pub open spec fn sort_by_start(s: Seq<Interval>) -> Seq<Interval>
    decreases s.len(),
{
    if s.len() == 0 {
        Seq::empty()
    } else {
        insert_by_start(sort_by_start(s.drop_last()), s.last())
    }
}

proof fn lemma_insert_by_start(s: Seq<Interval>, x: Interval, p: int)
    requires
        0 <= p <= s.len(),
        forall|j: int| p <= j < s.len() ==> #[trigger] s[j].start > x.start,
        p == 0 || s[p - 1].start <= x.start,
    ensures
        insert_by_start(s, x) == s.take(p) + seq![x] + s.skip(p),
    decreases s.len(),
{
    if s.len() == 0 {
        assert(s.take(p) + seq![x] + s.skip(p) =~= seq![x]);
    } else if p == s.len() {
        assert(s.take(p) + seq![x] + s.skip(p) =~= s.push(x));
    } else {
        let t = s.drop_last();
        assert forall|j: int| p <= j < t.len() implies #[trigger] t[j].start > x.start by {
            assert(t[j] == s[j]);
        }
        lemma_insert_by_start(t, x, p);
        assert(t.take(p) + seq![x] + t.skip(p) + seq![s.last()] =~= s.take(p) + seq![x] + s.skip(p));
    }
}

proof fn lemma_insert_len(s: Seq<Interval>, x: Interval)
    ensures
        insert_by_start(s, x).len() == s.len() + 1,
    decreases s.len(),
{
    if s.len() > 0 && s.last().start > x.start {
        lemma_insert_len(s.drop_last(), x);
    }
}

/// The intervals sorted by start, stably.
pub fn sort_vars_by_start(vars: &Vec<InnerVar>) -> (r: Vec<InnerVar>)
    ensures
        views(r@) == sort_by_start(views(vars@)),
{
    let mut res: Vec<InnerVar> = Vec::new();
    let mut i: usize = 0;
    while i < vars.len()
        invariant
            i <= vars.len(),
            views(res@) == sort_by_start(views(vars@.take(i as int))),
        decreases vars.len() - i,
    {
        let x = vars[i].duplicate();
        let mut p = res.len();
        while p > 0 && res[p - 1].get_start_offset() > x.get_start_offset()
            invariant
                p <= res.len(),
                forall|j: int| p <= j < res.len() ==> #[trigger] res@[j]@.start > x@.start,
            decreases p,
        {
            p = p - 1;
        }
        let ghost before = views(res@);
        res.insert(p, x);
        proof {
            assert forall|j: int| p <= j < before.len() implies #[trigger] before[j].start > x@.start by {
                assert(before[j] == res@[j + 1]@);
            }
            lemma_insert_by_start(before, x@, p as int);
            assert(views(vars@.take(i + 1)).drop_last() =~= views(vars@.take(i as int)));
            assert(views(vars@.take(i + 1)).last() == x@);
            assert(views(res@) =~= before.take(p as int) + seq![x@] + before.skip(p as int));
        }
        i = i + 1;
    }
    assert(vars@.take(vars.len() as int) =~= vars@);
    res
}

// ---------------------------------------------------------------------------
// Register names.
// ---------------------------------------------------------------------------

/// The number of registers the linear scan hands out: `t3`-`t6`, `s0`-`s11`, `a2`-`a7`.
pub open spec fn reg_count() -> nat {
    22
}

/// The name of allocatable register `r`, in priority order:
/// `t3`-`t6`, then `s0`-`s11`, then `a2`-`a7`.
pub open spec fn reg_name(r: u8) -> Seq<char> {
    if r < 4 {
        seq!['t'] + dec_digits((r + 3) as nat)
    } else if r < 16 {
        seq!['s'] + dec_digits((r - 4) as nat)
    } else {
        seq!['a'] + dec_digits((r - 14) as nat)
    }
}

/// The name of an allocatable register.
pub fn reg_string(r: u8) -> (s: String)
    requires
        r < 22,
    ensures
        s@ == reg_name(r),
{
    let mut s;
    let n: u64;
    if r < 4 {
        proof { reveal_strlit("t"); }
        s = String::from_str("t");
        n = (r + 3) as u64;
    } else if r < 16 {
        proof { reveal_strlit("s"); }
        s = String::from_str("s");
        n = (r - 4) as u64;
    } else {
        proof { reveal_strlit("a"); }
        s = String::from_str("a");
        n = (r - 14) as u64;
    }
    push_nat(&mut s, n);
    s
}

// ---------------------------------------------------------------------------
// The pure-stack allocator.
// ---------------------------------------------------------------------------

/// State of the pure-stack allocator: the last end of each slot, and the slot of each value.
pub struct SlotState {
    pub last_ends: Seq<usize>,
    pub slot_of: Seq<(Seq<char>, nat)>,
}

/// The first slot that is free again at `start`, if any.
pub open spec fn first_free_slot(last_ends: Seq<usize>, start: usize) -> int
    decreases last_ends.len(),
{
    if last_ends.len() == 0 {
        -1
    } else {
        let k = first_free_slot(last_ends.drop_last(), start);
        if k >= 0 {
            k
        } else if start > last_ends.last() {
            last_ends.len() - 1
        } else {
            -1
        }
    }
}

/// One step of the pure-stack allocator: reuse the first slot whose last
/// occupant ended before `v` starts, or open a new slot.
pub open spec fn slot_step(st: SlotState, v: Interval) -> SlotState {
    let k = first_free_slot(st.last_ends, v.start);
    if k >= 0 {
        SlotState { last_ends: st.last_ends.update(k, v.end), slot_of: st.slot_of.push((v.name, k as nat)) }
    } else {
        SlotState {
            last_ends: st.last_ends.push(v.end),
            slot_of: st.slot_of.push((v.name, st.last_ends.len())),
        }
    }
}

/// The pure-stack allocator run over intervals in the given order.
pub open spec fn slot_run(vars: Seq<Interval>) -> SlotState
    decreases vars.len(),
{
    if vars.len() == 0 {
        SlotState { last_ends: Seq::empty(), slot_of: Seq::empty() }
    } else {
        slot_step(slot_run(vars.drop_last()), vars.last())
    }
}

/// The offset of slot `k` from the frame base, when there are `n` slots:
/// the first slot opened lies highest.
pub open spec fn slot_offset(n: nat, k: nat) -> int {
    4 * n - 4 * (k + 1)
}

/// The text of a stack location: `offset(sp)`.
pub open spec fn stack_text(offset: int) -> Seq<char> {
    int_text(offset) + seq!['(', 's', 'p', ')']
}

/// The last index at which `m` holds the key `k`, or -1.
pub open spec fn last_key<V>(m: Seq<(Seq<char>, V)>, k: Seq<char>) -> int
    decreases m.len(),
{
    if m.len() == 0 {
        -1
    } else if m.last().0 == k {
        m.len() - 1
    } else {
        last_key(m.drop_last(), k)
    }
}

/// The keys of an association list, deduplicated: a later entry for the
/// same key replaces the earlier one, as inserting into a map does.
pub open spec fn assoc_lookup<V>(m: Seq<(Seq<char>, V)>, k: Seq<char>) -> Option<V> {
    let i = last_key(m, k);
    if i >= 0 { Some(m[i].1) } else { None }
}

/// What the pure-stack allocator returns: each value's slot as `offset(sp)`, and the frame size.
pub open spec fn spec_no_alloc(vars: Seq<Interval>) -> (Seq<(Seq<char>, Seq<char>)>, nat) {
    let st = slot_run(sort_by_start(vars));
    let n = st.last_ends.len();
    (st.slot_of.map_values(|e: (Seq<char>, nat)| (e.0, stack_text(slot_offset(n, e.1)))), 4 * n)
}

proof fn lemma_first_free_slot(last_ends: Seq<usize>, start: usize)
    ensures
        -1 <= first_free_slot(last_ends, start) < last_ends.len(),
        first_free_slot(last_ends, start) >= 0 ==> start > last_ends[first_free_slot(last_ends, start)],
        first_free_slot(last_ends, start) >= 0 ==> forall|j: int|
            0 <= j < first_free_slot(last_ends, start) ==> !(start > #[trigger] last_ends[j]),
        first_free_slot(last_ends, start) < 0 ==> forall|j: int|
            0 <= j < last_ends.len() ==> !(start > #[trigger] last_ends[j]),
    decreases last_ends.len(),
{
    if last_ends.len() > 0 {
        let t = last_ends.drop_last();
        lemma_first_free_slot(t, start);
        assert(forall|j: int| 0 <= j < t.len() ==> t[j] == last_ends[j]);
    }
}

/// Allocates every value to the stack; values whose intervals do not overlap share a slot.
#[derive(Clone, Default, Debug)]
pub struct NoAlloc;

impl NoAlloc {
    fn run(&self, allocation_names: &Vec<InnerVar>) -> (r: (Vec<(String, String)>, usize))
        requires
            allocation_names.len() < 0x1000_0000,
        ensures
            r.0@.map_values(|e: (String, String)| (e.0@, e.1@)) == spec_no_alloc(views(allocation_names@)).0,
            r.1 as nat == spec_no_alloc(views(allocation_names@)).1,
    {
        let sorted = sort_vars_by_start(allocation_names);
        let ghost sv = views(sorted@);
        proof { lemma_sort_len(views(allocation_names@)); }
        let mut last_ends: Vec<usize> = Vec::new();
        let mut slot_of: Vec<(String, usize)> = Vec::new();
        let mut i: usize = 0;
        while i < sorted.len()
            invariant
                i <= sorted.len(),
                sv == views(sorted@),
                sorted.len() < 0x1000_0000,
                last_ends@ == slot_run(sv.take(i as int)).last_ends,
                slot_of@.map_values(|e: (String, usize)| (e.0@, e.1 as nat)) == slot_run(sv.take(i as int)).slot_of,
                last_ends.len() <= i,
                forall|q: int| 0 <= q < slot_of.len() ==> #[trigger] slot_of@[q].1 < last_ends.len(),
            decreases sorted.len() - i,
        {
            let var = &sorted[i];
            let var_start = var.get_start_offset();
            let var_end = var.get_end_offset();
            let ghost st = slot_run(sv.take(i as int));
            proof {
                assert(sv.take(i + 1).drop_last() =~= sv.take(i as int));
                assert(sv.take(i + 1).last() == var@);
                lemma_first_free_slot(last_ends@, var_start);
            }
            let mut k: usize = 0;
            while k < last_ends.len() && !(var_start > last_ends[k])
                invariant
                    k <= last_ends.len(),
                    last_ends@ == st.last_ends,
                    forall|j: int| 0 <= j < k ==> !(var_start > #[trigger] last_ends@[j]),
                decreases last_ends.len() - k,
            {
                k = k + 1;
            }
            let found = k < last_ends.len();
            let ghost ff = first_free_slot(st.last_ends, var_start);
            if found {
                proof {
                    assert(k < last_ends.len() && var_start > last_ends@[k as int]);
                    if ff < k {
                        assert(!(var_start > last_ends@[ff]));
                    }
                    assert(ff == k);
                }
                last_ends.set(k, var_end);
                slot_of.push((var.get_name().clone(), k));
            } else {
                proof {
                    assert(ff < 0);
                }
                let n = last_ends.len();
                last_ends.push(var_end);
                slot_of.push((var.get_name().clone(), n));
            }
            proof {
                let nst = slot_run(sv.take(i + 1));
                assert(nst == slot_step(st, var@));
                assert(slot_of@.map_values(|e: (String, usize)| (e.0@, e.1 as nat)) =~= nst.slot_of);
                assert(last_ends@ =~= nst.last_ends);
            }
            i = i + 1;
        }
        assert(sv.take(sorted.len() as int) =~= sv);
        let n = last_ends.len();
        let stack_size = n * 4;
        let mut out: Vec<(String, String)> = Vec::new();
        let mut j: usize = 0;
        let ghost fin = slot_run(sv);
        while j < slot_of.len()
            invariant
                j <= slot_of.len(),
                n == fin.last_ends.len(),
                n < 0x1000_0000,
                stack_size == 4 * n,
                slot_of@.map_values(|e: (String, usize)| (e.0@, e.1 as nat)) == fin.slot_of,
                forall|q: int| 0 <= q < slot_of.len() ==> #[trigger] slot_of@[q].1 < n,
                out@.map_values(|e: (String, String)| (e.0@, e.1@))
                    == fin.slot_of.take(j as int).map_values(|e: (Seq<char>, nat)| (e.0, stack_text(slot_offset(n as nat, e.1)))),
            decreases slot_of.len() - j,
        {
            let k = slot_of[j].1;
            let off = (stack_size - 4 * (k + 1)) as i64;
            let mut loc = i64_text(off);
            proof { reveal_strlit("(sp)"); }
            loc.append("(sp)");
            let ghost e = fin.slot_of[j as int];
            assert(e.1 == k as nat);
            assert(loc@ =~= stack_text(slot_offset(n as nat, e.1)));
            out.push((slot_of[j].0.clone(), loc));
            assert(fin.slot_of.take(j + 1).map_values(|e: (Seq<char>, nat)| (e.0, stack_text(slot_offset(n as nat, e.1))))
                =~= fin.slot_of.take(j as int).map_values(|e: (Seq<char>, nat)| (e.0, stack_text(slot_offset(n as nat, e.1)))).push(
                    (e.0, stack_text(slot_offset(n as nat, e.1)))));
            assert(out@.map_values(|e: (String, String)| (e.0@, e.1@)) =~= fin.slot_of.take(j + 1).map_values(
                |e: (Seq<char>, nat)| (e.0, stack_text(slot_offset(n as nat, e.1)))));
            j = j + 1;
        }
        assert(fin.slot_of.take(slot_of.len() as int) =~= fin.slot_of);
        (out, stack_size)
    }
}

proof fn lemma_sort_len(s: Seq<Interval>)
    ensures
        sort_by_start(s).len() == s.len(),
    decreases s.len(),
{
    if s.len() > 0 {
        lemma_sort_len(s.drop_last());
        lemma_insert_len(sort_by_start(s.drop_last()), s.last());
    }
}


// ---------------------------------------------------------------------------
// The linear-scan allocator.
// ---------------------------------------------------------------------------

/// Where the linear scan has put a value: an allocatable register, or a
/// stack offset below the frame top (negative, in steps of 4).
#[derive(Clone, Copy, Debug)]
pub enum Place {
    Reg(u8),
    Stack(i32),
}

/// The state of the linear scan.
pub struct ScanState {
    /// The registers not held by a live value.
    pub free: Set<u8>,
    /// The values that hold a register and are still live.
    pub active: Seq<Interval>,
    /// Where each value was put, in the order of first assignment.
    pub map: Seq<(Seq<char>, Place)>,
    /// How many stack slots have been handed out.
    pub spills: nat,
    /// How many registers, in order of priority, have been handed out at
    /// least once: those from `next` on have never been used.
    pub next: nat,
}

/// Names ordered by character code, a proper prefix first.
pub open spec fn name_lt(a: Seq<char>, b: Seq<char>) -> bool
    decreases a.len(),
{
    if a.len() == 0 {
        b.len() > 0
    } else if b.len() == 0 {
        false
    } else if a[0] != b[0] {
        (a[0] as int) < (b[0] as int)
    } else {
        name_lt(a.drop_first(), b.drop_first())
    }
}

/// The order of the active set: by end, then start, then name.
pub open spec fn iv_lt(a: Interval, b: Interval) -> bool {
    a.end < b.end || (a.end == b.end && (a.start < b.start || (a.start == b.start && name_lt(a.name, b.name))))
}

/// The index of the greatest interval in the order of the active set
/// (the first such one, should two be equal).
pub open spec fn max_index(s: Seq<Interval>) -> int
    decreases s.len(),
{
    if s.len() <= 1 {
        0
    } else {
        let m = max_index(s.drop_last());
        if iv_lt(s[m], s.last()) { s.len() - 1 } else { m }
    }
}

/// The intervals still live at `start`: those that do not end before it.
pub open spec fn keep_live(s: Seq<Interval>, start: usize) -> Seq<Interval>
    decreases s.len(),
{
    if s.len() == 0 {
        Seq::empty()
    } else if s.last().end < start {
        keep_live(s.drop_last(), start)
    } else {
        keep_live(s.drop_last(), start).push(s.last())
    }
}

/// The register a value was given, if it is in a register.
pub open spec fn reg_of(map: Seq<(Seq<char>, Place)>, name: Seq<char>) -> Option<u8> {
    match assoc_lookup(map, name) {
        Some(Place::Reg(r)) => Some(r),
        _ => None,
    }
}

/// The registers given back by the intervals that end before `start`.
pub open spec fn released(active: Seq<Interval>, map: Seq<(Seq<char>, Place)>, start: usize) -> Set<u8>
    decreases active.len(),
{
    if active.len() == 0 {
        Set::empty()
    } else {
        let rest = released(active.drop_last(), map, start);
        if active.last().end < start {
            match reg_of(map, active.last().name) {
                Some(r) => rest.insert(r),
                None => rest,
            }
        } else {
            rest
        }
    }
}

/// The register of highest priority in a set: the smallest one.
pub open spec fn set_min(s: Set<u8>) -> u8 {
    choose|r: u8| s.contains(r) && forall|q: u8| s.contains(q) ==> r <= q
}

/// The class of a register: 0 for `t3`..`t6`, 1 for `s0`..`s11`, 2 for `a2`..`a7`.
pub open spec fn reg_class(r: u8) -> u8 {
    if r < 4 { 0 } else if r < 16 { 1 } else { 2 }
}

/// The register a value takes from the free set. Classes are opened in turn:
/// while some register has never been used, the value takes the free register
/// of highest priority in the class of the first such register (a released
/// one of that class before a new one); once every register has been used,
/// the free register of highest priority of any class.
pub open spec fn pick_reg(free: Set<u8>, next: nat) -> u8 {
    if next < 22 {
        set_min(free.filter(|q: u8| reg_class(q) == reg_class(next as u8)))
    } else {
        set_min(free)
    }
}

/// How many registers have been used once `r` is taken.
pub open spec fn next_after(r: u8, next: nat) -> nat {
    if r as nat == next { next + 1 } else { next }
}

/// The stack place handed out as the `(spills + 1)`-th slot.
pub open spec fn spill_place(spills: nat) -> Place {
    Place::Stack((-4 * (spills + 1)) as i32)
}

/// Inserting into a map kept as a list: replace the entry with the key, or append.
pub open spec fn assoc_insert<V>(m: Seq<(Seq<char>, V)>, k: Seq<char>, v: V) -> Seq<(Seq<char>, V)> {
    let i = last_key(m, k);
    if i >= 0 { m.update(i, (k, v)) } else { m.push((k, v)) }
}

/// One step of the linear scan for the value `v`: release the registers of
/// values that ended before `v` starts; then give `v` the register that
/// `pick_reg` chooses, or, with none free, spill whichever of `v` and the live
/// value ending last ends later, `v` taking the other's register.
pub open spec fn scan_step(st: ScanState, v: Interval) -> ScanState {
    let free = st.free.union(released(st.active, st.map, v.start));
    let active = keep_live(st.active, v.start);
    if free == Set::<u8>::empty() {
        if active.len() > 0 && active[max_index(active)].end > v.end {
            let mi = max_index(active);
            let mx = active[mi];
            let held = st.map[last_key(st.map, mx.name)].1;
            ScanState {
                free,
                active: active.remove(mi).push(v),
                map: assoc_insert(assoc_insert(st.map, mx.name, spill_place(st.spills)), v.name, held),
                spills: st.spills + 1,
                next: st.next,
            }
        } else {
            ScanState {
                free,
                active,
                map: assoc_insert(st.map, v.name, spill_place(st.spills)),
                spills: st.spills + 1,
                next: st.next,
            }
        }
    } else {
        let r = pick_reg(free, st.next);
        ScanState {
            free: free.remove(r),
            active: active.push(v),
            map: assoc_insert(st.map, v.name, Place::Reg(r)),
            spills: st.spills,
            next: next_after(r, st.next),
        }
    }
}

/// The linear scan run from `st` over the values in the given order.
pub open spec fn scan_run(st: ScanState, vars: Seq<Interval>) -> ScanState
    decreases vars.len(),
{
    if vars.len() == 0 {
        st
    } else {
        scan_step(scan_run(st, vars.drop_last()), vars.last())
    }
}

/// The state of a fresh allocator: all 22 registers free.
pub open spec fn initial_scan() -> ScanState {
    ScanState { free: Set::new(|r: u8| r < 22), active: Seq::empty(), map: Seq::empty(), spills: 0, next: 0 }
}

/// The text of a place, given the frame size: a register name, or `offset(sp)`
/// with the offset measured up from the frame base.
pub open spec fn render_place(p: Place, stack_size: int) -> Seq<char> {
    match p {
        Place::Reg(r) => reg_name(r),
        Place::Stack(o) => stack_text(if o < 0 { stack_size + o } else { o as int }),
    }
}

/// The rendering of every entry of a scan result.
pub open spec fn render_map(m: Seq<(Seq<char>, Place)>, stack_size: int) -> Seq<(Seq<char>, Seq<char>)> {
    m.map_values(|e: (Seq<char>, Place)| (e.0, render_place(e.1, stack_size)))
}

/// What the linear scan returns when run from `st`: each value's register
/// or stack slot, and the frame size.
pub open spec fn spec_linear_scan_from(st: ScanState, vars: Seq<Interval>) -> (Seq<(Seq<char>, Seq<char>)>, nat) {
    let fin = scan_run(st, sort_by_start(vars));
    (render_map(fin.map, (4 * fin.spills) as int), 4 * fin.spills)
}

/// The register held by the `i`-th active value.
pub open spec fn active_reg(st: ScanState, i: int) -> u8 {
    match st.map[last_key(st.map, st.active[i].name)].1 {
        Place::Reg(r) => r,
        Place::Stack(_) => 0,
    }
}

/// The invariant of the scan state: live values have distinct names, each
/// holds an allocatable register of its own, free registers are not held, and
/// registers never used are free.
pub open spec fn scan_wf(st: ScanState) -> bool {
    &&& forall|r: u8| st.free.contains(r) ==> r < 22
    &&& st.next <= 22
    &&& forall|r: u8| st.next <= r < 22 ==> st.free.contains(r)
    &&& forall|i: int, j: int| 0 <= i < j < st.active.len() ==> st.active[i].name != st.active[j].name
    &&& forall|i: int| 0 <= i < st.active.len() ==> {
        &&& last_key(st.map, #[trigger] st.active[i].name) >= 0
        &&& st.map[last_key(st.map, st.active[i].name)].1 is Reg
        &&& active_reg(st, i) < 22
        &&& !st.free.contains(active_reg(st, i))
    }
    &&& forall|i: int, j: int| 0 <= i < j < st.active.len() ==> active_reg(st, i) != active_reg(st, j)
    &&& forall|k: int| 0 <= k < st.map.len() ==> (#[trigger] st.map[k].1 matches Place::Reg(r) ==> r < 22)
}

/// What the scan keeps for any values, names given twice included: free
/// registers are allocatable, registers never used are free, every live
/// value has an entry, and every register in an entry is allocatable.
pub open spec fn scan_ok(st: ScanState) -> bool {
    &&& forall|r: u8| st.free.contains(r) ==> r < 22
    &&& st.next <= 22
    &&& forall|r: u8| st.next <= r < 22 ==> st.free.contains(r)
    &&& forall|i: int| 0 <= i < st.active.len() ==> last_key(st.map, #[trigger] st.active[i].name) >= 0
    &&& forall|k: int| 0 <= k < st.map.len() ==> (#[trigger] st.map[k].1 matches Place::Reg(r) ==> r < 22)
}

/// True when `name` has not been given a place yet.
pub open spec fn fresh(st: ScanState, name: Seq<char>) -> bool {
    last_key(st.map, name) < 0
}



// ---------------------------------------------------------------------------
// Facts about the scan's building blocks.
// ---------------------------------------------------------------------------

pub(crate) proof fn lemma_last_key<V>(m: Seq<(Seq<char>, V)>, k: Seq<char>)
    ensures
        -1 <= last_key(m, k) < m.len(),
        last_key(m, k) >= 0 ==> m[last_key(m, k)].0 == k,
        forall|j: int| last_key(m, k) < j < m.len() ==> #[trigger] m[j].0 != k,
    decreases m.len(),
{
    if m.len() > 0 {
        lemma_last_key(m.drop_last(), k);
        assert(forall|j: int| 0 <= j < m.len() - 1 ==> m.drop_last()[j] == m[j]);
    }
}

pub(crate) proof fn lemma_last_key_push<V>(m: Seq<(Seq<char>, V)>, k: Seq<char>, v: V, q: Seq<char>)
    ensures
        last_key(m.push((k, v)), q) == if q == k { m.len() as int } else { last_key(m, q) },
{
    assert(m.push((k, v)).drop_last() =~= m);
}

proof fn lemma_last_key_update<V>(m: Seq<(Seq<char>, V)>, i: int, k: Seq<char>, v: V, q: Seq<char>)
    requires
        0 <= i < m.len(),
        m[i].0 == k,
    ensures
        last_key(m.update(i, (k, v)), q) == last_key(m, q),
    decreases m.len(),
{
    let u = m.update(i, (k, v));
    if i < m.len() - 1 {
        assert(u.drop_last() =~= m.drop_last().update(i, (k, v)));
        lemma_last_key_update(m.drop_last(), i, k, v, q);
    } else {
        assert(u.drop_last() =~= m.drop_last());
    }
}

/// Inserting a key keeps every other key where it was, and puts the key itself at a valid index.
proof fn lemma_assoc_insert<V>(m: Seq<(Seq<char>, V)>, k: Seq<char>, v: V, q: Seq<char>)
    ensures
        q != k ==> last_key(assoc_insert(m, k, v), q) == last_key(m, q),
        q != k && last_key(m, q) >= 0 ==> assoc_insert(m, k, v)[last_key(m, q)] == m[last_key(m, q)],
        last_key(assoc_insert(m, k, v), k) >= 0,
        assoc_insert(m, k, v)[last_key(assoc_insert(m, k, v), k)] == (k, v),
        last_key(m, k) < 0 ==> assoc_insert(m, k, v) == m.push((k, v)),
        last_key(m, k) >= 0 ==> assoc_insert(m, k, v).len() == m.len(),
        forall|j: int| 0 <= j < assoc_insert(m, k, v).len() ==> #[trigger] assoc_insert(m, k, v)[j] == (k, v)
            || exists|i: int| 0 <= i < m.len() && m[i] == assoc_insert(m, k, v)[j],
{
    lemma_last_key(m, k);
    lemma_last_key(m, q);
    let i = last_key(m, k);
    let r = assoc_insert(m, k, v);
    assert forall|j: int| 0 <= j < r.len() implies #[trigger] r[j] == (k, v) || exists|i: int| 0 <= i < m.len() && m[i] == r[j] by {
        if r[j] != (k, v) {
            assert(m[j] == r[j]);
        }
    }
    if i >= 0 {
        lemma_last_key_update(m, i, k, v, q);
        lemma_last_key_update(m, i, k, v, k);
    } else {
        lemma_last_key_push(m, k, v, q);
        lemma_last_key_push(m, k, v, k);
    }
}

proof fn lemma_keep_live(s: Seq<Interval>, start: usize)
    ensures
        forall|j: int| 0 <= j < keep_live(s, start).len() ==> s.contains(#[trigger] keep_live(s, start)[j]),
        forall|j: int| 0 <= j < keep_live(s, start).len() ==> !(#[trigger] keep_live(s, start)[j].end < start),
        keep_live(s, start).len() <= s.len(),
        (forall|i: int, j: int| 0 <= i < j < s.len() ==> s[i].name != s[j].name) ==> (forall|i: int, j: int|
            0 <= i < j < keep_live(s, start).len() ==> keep_live(s, start)[i].name != keep_live(s, start)[j].name),
    decreases s.len(),
{
    if s.len() > 0 {
        let t = s.drop_last();
        lemma_keep_live(t, start);
        let kt = keep_live(t, start);
        assert forall|j: int| 0 <= j < kt.len() implies s.contains(#[trigger] kt[j]) by {
            let w = choose|w: int| 0 <= w < t.len() && t[w] == kt[j];
            assert(s[w] == kt[j]);
        }
        if !(s.last().end < start) {
            let k = kt.push(s.last());
            assert forall|j: int| 0 <= j < k.len() implies s.contains(#[trigger] k[j]) by {
                if j < kt.len() {
                    assert(k[j] == kt[j]);
                } else {
                    assert(k[j] == s[s.len() - 1]);
                }
            }
            if forall|i: int, j: int| 0 <= i < j < s.len() ==> s[i].name != s[j].name {
                assert forall|i: int, j: int| 0 <= i < j < k.len() implies k[i].name != k[j].name by {
                    if j == k.len() - 1 {
                        let w = choose|w: int| 0 <= w < t.len() && t[w] == kt[i];
                        assert(s[w] == k[i]);
                    } else {
                        assert(k[i] == kt[i] && k[j] == kt[j]);
                        assert(forall|a: int, b: int| 0 <= a < b < t.len() ==> t[a].name != t[b].name) by {
                            assert forall|a: int, b: int| 0 <= a < b < t.len() implies t[a].name != t[b].name by {
                                assert(t[a] == s[a] && t[b] == s[b]);
                            }
                        }
                    }
                }
            }
        } else {
            if forall|i: int, j: int| 0 <= i < j < s.len() ==> s[i].name != s[j].name {
                assert forall|a: int, b: int| 0 <= a < b < t.len() implies t[a].name != t[b].name by {
                    assert(t[a] == s[a] && t[b] == s[b]);
                }
            }
        }
    }
}

proof fn lemma_released(active: Seq<Interval>, map: Seq<(Seq<char>, Place)>, start: usize, r: u8)
    ensures
        released(active, map, start).contains(r) <==> exists|i: int|
            0 <= i < active.len() && #[trigger] active[i].end < start && reg_of(map, active[i].name) == Some(r),
    decreases active.len(),
{
    if active.len() > 0 {
        let t = active.drop_last();
        lemma_released(t, map, start, r);
        if released(active, map, start).contains(r) {
            if released(t, map, start).contains(r) {
                let i = choose|i: int| 0 <= i < t.len() && #[trigger] t[i].end < start && reg_of(map, t[i].name) == Some(r);
                assert(active[i] == t[i]);
            } else {
                let i = active.len() - 1;
                assert(active[i].end < start && reg_of(map, active[i].name) == Some(r));
            }
        }
        if exists|i: int| 0 <= i < active.len() && #[trigger] active[i].end < start && reg_of(map, active[i].name) == Some(r) {
            let i = choose|i: int| 0 <= i < active.len() && #[trigger] active[i].end < start && reg_of(map, active[i].name) == Some(r);
            if i < active.len() - 1 {
                assert(t[i] == active[i]);
            }
        }
    }
}

proof fn lemma_max_index(s: Seq<Interval>)
    requires
        s.len() > 0,
    ensures
        0 <= max_index(s) < s.len(),
    decreases s.len(),
{
    if s.len() > 1 {
        lemma_max_index(s.drop_last());
    }
}

/// One step of the linear scan keeps the state well formed, and gives `v` a place.
#[verifier::spinoff_prover]
#[verifier::rlimit(60)]
pub proof fn lemma_scan_step_wf(st: ScanState, v: Interval)
    requires
        scan_wf(st),
        fresh(st, v.name),
    ensures
        scan_wf(scan_step(st, v)),
        !fresh(scan_step(st, v), v.name),
        forall|q: Seq<char>| q != v.name && fresh(st, q) ==> fresh(scan_step(st, v), q),
        forall|q: Seq<char>| !fresh(st, q) ==> !fresh(scan_step(st, v), q),
{
    let rel = released(st.active, st.map, v.start);
    let free = st.free.union(rel);
    let active = keep_live(st.active, v.start);
    lemma_keep_live(st.active, v.start);
    let ns = scan_step(st, v);
    // v's name is not the name of any live value
    assert forall|i: int| 0 <= i < st.active.len() implies st.active[i].name != v.name by {
        assert(last_key(st.map, st.active[i].name) >= 0);
    }
    // released registers are exactly those of the values that ended
    assert forall|r: u8| free.contains(r) implies r < 22 by {
        if rel.contains(r) {
            lemma_released(st.active, st.map, v.start, r);
            let i = choose|i: int| 0 <= i < st.active.len() && #[trigger] st.active[i].end < v.start && reg_of(st.map, st.active[i].name) == Some(r);
            assert(active_reg(st, i) == r);
        }
    }
    // every value still live holds a register that is not free
    assert forall|j: int| 0 <= j < active.len() implies {
        &&& last_key(st.map, #[trigger] active[j].name) >= 0
        &&& st.map[last_key(st.map, active[j].name)].1 is Reg
        &&& !free.contains(match st.map[last_key(st.map, active[j].name)].1 { Place::Reg(r) => r, Place::Stack(_) => 0u8 })
        &&& (match st.map[last_key(st.map, active[j].name)].1 { Place::Reg(r) => r, Place::Stack(_) => 0u8 }) < 22
    } by {
        let w = choose|w: int| 0 <= w < st.active.len() && st.active[w] == active[j];
        let r = active_reg(st, w);
        if rel.contains(r) {
            lemma_released(st.active, st.map, v.start, r);
            let i = choose|i: int| 0 <= i < st.active.len() && #[trigger] st.active[i].end < v.start && reg_of(st.map, st.active[i].name) == Some(r);
            assert(active_reg(st, i) == r);
            if i != w {
                if i < w { assert(active_reg(st, i) != active_reg(st, w)); } else { assert(active_reg(st, w) != active_reg(st, i)); }
            }
            assert(!(active[j].end < v.start));
        }
    }
    // distinct live values hold distinct registers
    assert forall|a: int, b: int| 0 <= a < b < active.len() implies
        st.map[last_key(st.map, active[a].name)].1 != st.map[last_key(st.map, active[b].name)].1 by {
        let wa = choose|w: int| 0 <= w < st.active.len() && st.active[w] == active[a];
        let wb = choose|w: int| 0 <= w < st.active.len() && st.active[w] == active[b];
        assert(active[a].name != active[b].name);
        assert(wa != wb);
        if wa < wb { assert(active_reg(st, wa) != active_reg(st, wb)); } else { assert(active_reg(st, wb) != active_reg(st, wa)); }
    }
    lemma_assoc_insert(st.map, v.name, spill_place(st.spills), v.name);
    if free == Set::<u8>::empty() {
        if st.next < 22 {
            assert(free.contains(st.next as u8));
        }
        if active.len() > 0 && active[max_index(active)].end > v.end {
            let mi = max_index(active);
            lemma_max_index(active);
            let mx = active[mi];
            let k = last_key(st.map, mx.name);
            let held = st.map[k].1;
            let m1 = assoc_insert(st.map, mx.name, spill_place(st.spills));
            let m2 = assoc_insert(m1, v.name, held);
            lemma_last_key(st.map, mx.name);
            assert(mx.name != v.name);
            assert forall|q: Seq<char>| q != mx.name implies last_key(m1, q) == last_key(st.map, q) by {
                lemma_assoc_insert(st.map, mx.name, spill_place(st.spills), q);
            }
            assert forall|q: Seq<char>| q != v.name implies last_key(m2, q) == last_key(m1, q) by {
                lemma_assoc_insert(m1, v.name, held, q);
            }
            lemma_assoc_insert(st.map, mx.name, spill_place(st.spills), v.name);
            lemma_assoc_insert(m1, v.name, held, v.name);
            lemma_assoc_insert(st.map, mx.name, spill_place(st.spills), mx.name);
            assert(m1 == st.map.update(k, (mx.name, spill_place(st.spills))));
            assert(m2 == m1.push((v.name, held)));
            let na = active.remove(mi).push(v);
            assert forall|j: int| 0 <= j < na.len() - 1 implies #[trigger] na[j] == active[if j < mi { j } else { j + 1 }] by {}
            assert forall|j: int| 0 <= j < na.len() - 1 implies na[j].name != mx.name by {
                let jj = if j < mi { j } else { j + 1 };
                assert(na[j] == active[jj]);
                assert(jj != mi);
                if jj < mi { assert(active[jj].name != active[mi].name); } else { assert(active[mi].name != active[jj].name); }
            }
            assert forall|j: int| 0 <= j < na.len() - 1 implies #[trigger] m2[last_key(m2, na[j].name)] == st.map[last_key(st.map, na[j].name)] by {
                let jj = if j < mi { j } else { j + 1 };
                assert(na[j] == active[jj]);
                assert(na[j].name != v.name) by {
                    let w = choose|w: int| 0 <= w < st.active.len() && st.active[w] == active[jj];
                }
                lemma_assoc_insert(st.map, mx.name, spill_place(st.spills), na[j].name);
                lemma_assoc_insert(m1, v.name, held, na[j].name);
                lemma_last_key(st.map, na[j].name);
                assert(last_key(st.map, na[j].name) != k);
            }
            assert(scan_wf(ns)) by {
                assert forall|i: int, j: int| 0 <= i < j < na.len() implies na[i].name != na[j].name by {
                    if j == na.len() - 1 {
                        let ii = if i < mi { i } else { i + 1 };
                        assert(na[i] == active[ii]);
                        let w = choose|w: int| 0 <= w < st.active.len() && st.active[w] == active[ii];
                    } else {
                        let ii = if i < mi { i } else { i + 1 };
                        let jj = if j < mi { j } else { j + 1 };
                        assert(na[i] == active[ii] && na[j] == active[jj]);
                    }
                }
                assert forall|i: int| 0 <= i < na.len() implies {
                    &&& last_key(m2, #[trigger] na[i].name) >= 0
                    &&& m2[last_key(m2, na[i].name)].1 is Reg
                    &&& active_reg(ns, i) < 22
                    &&& !free.contains(active_reg(ns, i))
                } by {
                    if i == na.len() - 1 {
                        assert(m2[last_key(m2, v.name)] == (v.name, held));
                    } else {
                        let ii = if i < mi { i } else { i + 1 };
                        assert(na[i] == active[ii]);
                    }
                }
                assert forall|i: int, j: int| 0 <= i < j < na.len() implies active_reg(ns, i) != active_reg(ns, j) by {
                    let ii = if i < mi { i } else { i + 1 };
                    assert(na[i] == active[ii]);
                    if j == na.len() - 1 {
                        assert(m2[last_key(m2, v.name)] == (v.name, held));
                        assert(ii != mi);
                        if ii < mi {
                            assert(st.map[last_key(st.map, active[ii].name)].1 != st.map[last_key(st.map, active[mi].name)].1);
                        } else {
                            assert(st.map[last_key(st.map, active[mi].name)].1 != st.map[last_key(st.map, active[ii].name)].1);
                        }
                    } else {
                        let jj = if j < mi { j } else { j + 1 };
                        assert(na[j] == active[jj]);
                        assert(st.map[last_key(st.map, active[ii].name)].1 != st.map[last_key(st.map, active[jj].name)].1);
                    }
                }
            }
            assert forall|q: Seq<char>| q != v.name && fresh(st, q) implies fresh(ns, q) by {
                assert(q != mx.name);
            }
            assert forall|q: Seq<char>| !fresh(st, q) implies !fresh(ns, q) by {
                if q != v.name && q != mx.name {
                } else if q == mx.name {
                    lemma_assoc_insert(m1, v.name, held, mx.name);
                }
            }
        } else {
            let m1 = assoc_insert(st.map, v.name, spill_place(st.spills));
            assert(m1 == st.map.push((v.name, spill_place(st.spills))));
            assert forall|q: Seq<char>| q != v.name implies last_key(m1, q) == last_key(st.map, q) by {
                lemma_last_key_push(st.map, v.name, spill_place(st.spills), q);
            }
            assert forall|i: int| 0 <= i < active.len() implies #[trigger] m1[last_key(m1, active[i].name)] == st.map[last_key(st.map, active[i].name)] by {
                let w = choose|w: int| 0 <= w < st.active.len() && st.active[w] == active[i];
                lemma_last_key(st.map, active[i].name);
            }
        }
    } else {
        let r = pick_reg(free, st.next);
        let m1 = assoc_insert(st.map, v.name, Place::Reg(r));
        lemma_assoc_insert(st.map, v.name, Place::Reg(r), v.name);
        assert(m1 == st.map.push((v.name, Place::Reg(r))));
        assert(free.contains(r) && (st.next < 22 ==> r as nat <= st.next)) by {
            if !exists|x: u8| free.contains(x) {
                assert(free =~= Set::<u8>::empty());
            }
            let x = choose|x: u8| free.contains(x);
            lemma_pick_reg(free, st.next, x);
        }
        assert forall|q: u8| ns.next <= q < 22 implies ns.free.contains(q) by {
            assert(free.contains(q));
        }
        assert forall|q: Seq<char>| q != v.name implies last_key(m1, q) == last_key(st.map, q) by {
            lemma_last_key_push(st.map, v.name, Place::Reg(r), q);
        }
        let na = active.push(v);
        assert forall|i: int| 0 <= i < active.len() implies #[trigger] m1[last_key(m1, active[i].name)] == st.map[last_key(st.map, active[i].name)] by {
            let w = choose|w: int| 0 <= w < st.active.len() && st.active[w] == active[i];
            lemma_last_key(st.map, active[i].name);
        }
        assert(scan_wf(ns)) by {
            assert forall|i: int, j: int| 0 <= i < j < na.len() implies na[i].name != na[j].name by {
                if j == na.len() - 1 {
                    let w = choose|w: int| 0 <= w < st.active.len() && st.active[w] == active[i];
                } else {
                    assert(na[i] == active[i] && na[j] == active[j]);
                }
            }
            assert forall|i: int| 0 <= i < na.len() implies {
                &&& last_key(m1, #[trigger] na[i].name) >= 0
                &&& m1[last_key(m1, na[i].name)].1 is Reg
                &&& active_reg(ns, i) < 22
                &&& !ns.free.contains(active_reg(ns, i))
            } by {
                if i < na.len() - 1 {
                    assert(na[i] == active[i]);
                }
            }
            assert forall|i: int, j: int| 0 <= i < j < na.len() implies active_reg(ns, i) != active_reg(ns, j) by {
                if j < na.len() - 1 {
                    assert(na[i] == active[i] && na[j] == active[j]);
                    assert(st.map[last_key(st.map, active[i].name)].1 != st.map[last_key(st.map, active[j].name)].1);
                } else {
                    assert(na[i] == active[i]);
                }
            }
        }
    }
}

/// One step of the scan keeps `scan_ok`, whatever the value's name.
pub proof fn lemma_scan_step_ok(st: ScanState, v: Interval)
    requires
        scan_ok(st),
    ensures
        scan_ok(scan_step(st, v)),
{
    let rel = released(st.active, st.map, v.start);
    let free = st.free.union(rel);
    let active = keep_live(st.active, v.start);
    lemma_keep_live(st.active, v.start);
    let ns = scan_step(st, v);
    assert forall|r: u8| free.contains(r) implies r < 22 by {
        if rel.contains(r) {
            lemma_released(st.active, st.map, v.start, r);
            let i = choose|i: int| 0 <= i < st.active.len() && #[trigger] st.active[i].end < v.start
                && reg_of(st.map, st.active[i].name) == Some(r);
            let k = last_key(st.map, st.active[i].name);
            lemma_last_key(st.map, st.active[i].name);
            assert(k >= 0);
            assert(st.map[k].1 == Place::Reg(r));
            assert(st.map[k].1 matches Place::Reg(rr) ==> rr < 22);
        }
    }
    assert forall|i: int| 0 <= i < active.len() implies last_key(st.map, #[trigger] active[i].name) >= 0 by {
        let w = choose|w: int| 0 <= w < st.active.len() && st.active[w] == active[i];
    }
    lemma_assoc_insert(st.map, v.name, spill_place(st.spills), v.name);
    if free == Set::<u8>::empty() {
        if st.next < 22 {
            assert(free.contains(st.next as u8));
        }
        if active.len() > 0 && active[max_index(active)].end > v.end {
            let mi = max_index(active);
            lemma_max_index(active);
            let mx = active[mi];
            let k = last_key(st.map, mx.name);
            lemma_last_key(st.map, mx.name);
            let held = st.map[k].1;
            let m1 = assoc_insert(st.map, mx.name, spill_place(st.spills));
            let m2 = assoc_insert(m1, v.name, held);
            lemma_assoc_insert(st.map, mx.name, spill_place(st.spills), mx.name);
            lemma_assoc_insert(m1, v.name, held, v.name);
            assert forall|q: Seq<char>| last_key(st.map, q) >= 0 implies last_key(m2, q) >= 0 by {
                lemma_assoc_insert(st.map, mx.name, spill_place(st.spills), q);
                lemma_assoc_insert(m1, v.name, held, q);
            }
            assert forall|kk: int| 0 <= kk < m1.len() implies (#[trigger] m1[kk].1 matches Place::Reg(r) ==> r < 22) by {
                if m1[kk] != (mx.name, spill_place(st.spills)) {
                    let i = choose|i: int| 0 <= i < st.map.len() && st.map[i] == m1[kk];
                    assert(st.map[i].1 matches Place::Reg(r) ==> r < 22);
                }
            }
            assert forall|kk: int| 0 <= kk < m2.len() implies (#[trigger] m2[kk].1 matches Place::Reg(r) ==> r < 22) by {
                if m2[kk] != (v.name, held) {
                    let i = choose|i: int| 0 <= i < m1.len() && m1[i] == m2[kk];
                    assert(m1[i].1 matches Place::Reg(r) ==> r < 22);
                } else {
                    assert(st.map[k].1 matches Place::Reg(r) ==> r < 22);
                }
            }
            let na = active.remove(mi).push(v);
            assert forall|i: int| 0 <= i < na.len() implies last_key(m2, #[trigger] na[i].name) >= 0 by {
                if i < na.len() - 1 {
                    let ii = if i < mi { i } else { i + 1 };
                    assert(na[i] == active[ii]);
                }
            }
        } else {
            let m1 = assoc_insert(st.map, v.name, spill_place(st.spills));
            assert forall|q: Seq<char>| last_key(st.map, q) >= 0 implies last_key(m1, q) >= 0 by {
                lemma_assoc_insert(st.map, v.name, spill_place(st.spills), q);
            }
            assert forall|kk: int| 0 <= kk < m1.len() implies (#[trigger] m1[kk].1 matches Place::Reg(r) ==> r < 22) by {
                if m1[kk] != (v.name, spill_place(st.spills)) {
                    let i = choose|i: int| 0 <= i < st.map.len() && st.map[i] == m1[kk];
                    assert(st.map[i].1 matches Place::Reg(r) ==> r < 22);
                }
            }
        }
    } else {
        let r = pick_reg(free, st.next);
        assert(free.contains(r) && (st.next < 22 ==> r as nat <= st.next)) by {
            if !exists|x: u8| free.contains(x) {
                assert(free =~= Set::<u8>::empty());
            }
            let x = choose|x: u8| free.contains(x);
            lemma_pick_reg(free, st.next, x);
        }
        let m1 = assoc_insert(st.map, v.name, Place::Reg(r));
        lemma_assoc_insert(st.map, v.name, Place::Reg(r), v.name);
        assert forall|q: Seq<char>| last_key(st.map, q) >= 0 implies last_key(m1, q) >= 0 by {
            lemma_assoc_insert(st.map, v.name, Place::Reg(r), q);
        }
        assert forall|kk: int| 0 <= kk < m1.len() implies (#[trigger] m1[kk].1 matches Place::Reg(rr) ==> rr < 22) by {
            if m1[kk] != (v.name, Place::Reg(r)) {
                let i = choose|i: int| 0 <= i < st.map.len() && st.map[i] == m1[kk];
                assert(st.map[i].1 matches Place::Reg(rr) ==> rr < 22);
            }
        }
        assert forall|q: u8| ns.next <= q < 22 implies ns.free.contains(q) by {
            assert(free.contains(q));
        }
        let na = active.push(v);
        assert forall|i: int| 0 <= i < na.len() implies last_key(m1, #[trigger] na[i].name) >= 0 by {
            if i < active.len() { assert(na[i] == active[i]); }
        }
    }
}

/// A non-empty set of registers has a smallest element.
proof fn lemma_set_min_exists(s: Set<u8>, x: u8)
    requires
        s.contains(x),
    ensures
        s.contains(set_min(s)),
        forall|q: u8| s.contains(q) ==> set_min(s) <= q,
    decreases x,
{
    if exists|y: u8| s.contains(y) && y < x {
        let y = choose|y: u8| s.contains(y) && y < x;
        lemma_set_min_exists(s, y);
    } else {
        assert(s.contains(x) && forall|q: u8| s.contains(q) ==> x <= q);
    }
}

/// The register that `pick_reg` chooses is free, and it is a released one or
/// the first register never used.
proof fn lemma_pick_reg(free: Set<u8>, next: nat, x: u8)
    requires
        free.contains(x),
        next <= 22,
        forall|r: u8| next <= r < 22 ==> free.contains(r),
    ensures
        free.contains(pick_reg(free, next)),
        next < 22 ==> pick_reg(free, next) as nat <= next,
{
    if next < 22 {
        let c = free.filter(|q: u8| reg_class(q) == reg_class(next as u8));
        assert(c.contains(next as u8));
        lemma_set_min_exists(c, next as u8);
    } else {
        lemma_set_min_exists(free, x);
    }
}

proof fn lemma_insert_elems(s: Seq<Interval>, x: Interval)
    ensures
        forall|j: int| 0 <= j < insert_by_start(s, x).len() ==> #[trigger] insert_by_start(s, x)[j] == x
            || s.contains(insert_by_start(s, x)[j]),
        (forall|i: int, j: int| 0 <= i < j < s.len() ==> s[i].name != s[j].name)
            && (forall|i: int| 0 <= i < s.len() ==> s[i].name != x.name)
            ==> forall|i: int, j: int| 0 <= i < j < insert_by_start(s, x).len()
                ==> insert_by_start(s, x)[i].name != insert_by_start(s, x)[j].name,
    decreases s.len(),
{
    lemma_insert_len(s, x);
    if s.len() > 0 && s.last().start > x.start {
        let t = s.drop_last();
        lemma_insert_elems(t, x);
        lemma_insert_len(t, x);
        let it = insert_by_start(t, x);
        let r = it.push(s.last());
        assert forall|j: int| 0 <= j < r.len() implies #[trigger] r[j] == x || s.contains(r[j]) by {
            if j < it.len() {
                assert(r[j] == it[j]);
                if it[j] != x {
                    let w = choose|w: int| 0 <= w < t.len() && t[w] == it[j];
                    assert(s[w] == t[w]);
                }
            } else {
                assert(r[j] == s[s.len() - 1]);
            }
        }
        if (forall|i: int, j: int| 0 <= i < j < s.len() ==> s[i].name != s[j].name)
            && (forall|i: int| 0 <= i < s.len() ==> s[i].name != x.name) {
            assert forall|i: int, j: int| 0 <= i < j < t.len() implies t[i].name != t[j].name by {
                assert(t[i] == s[i] && t[j] == s[j]);
            }
            assert forall|i: int, j: int| 0 <= i < j < r.len() implies r[i].name != r[j].name by {
                if j == r.len() - 1 {
                    assert(r[i] == it[i]);
                    if it[i] == x {
                        assert(s[s.len() - 1].name != x.name);
                    } else {
                        let w = choose|w: int| 0 <= w < t.len() && t[w] == it[i];
                        assert(t[w] == s[w]);
                    }
                } else {
                    assert(r[i] == it[i] && r[j] == it[j]);
                }
            }
        }
    } else if s.len() > 0 {
        let r = s.push(x);
        assert forall|j: int| 0 <= j < r.len() implies #[trigger] r[j] == x || s.contains(r[j]) by {
            if j < s.len() {
                assert(r[j] == s[j]);
            }
        }
    }
}

/// Sorting keeps the elements, and keeps names distinct.
pub proof fn lemma_sort_elems(s: Seq<Interval>)
    ensures
        sort_by_start(s).len() == s.len(),
        forall|j: int| 0 <= j < sort_by_start(s).len() ==> s.contains(#[trigger] sort_by_start(s)[j]),
        (forall|i: int, j: int| 0 <= i < j < s.len() ==> s[i].name != s[j].name) ==> forall|i: int, j: int|
            0 <= i < j < sort_by_start(s).len() ==> sort_by_start(s)[i].name != sort_by_start(s)[j].name,
    decreases s.len(),
{
    lemma_sort_len(s);
    if s.len() > 0 {
        let t = s.drop_last();
        lemma_sort_elems(t);
        let st = sort_by_start(t);
        lemma_insert_elems(st, s.last());
        let r = sort_by_start(s);
        assert forall|j: int| 0 <= j < r.len() implies s.contains(#[trigger] r[j]) by {
            if r[j] == s.last() {
                assert(s[s.len() - 1] == r[j]);
            } else {
                let w = choose|w: int| 0 <= w < st.len() && st[w] == r[j];
                let w2 = choose|w2: int| 0 <= w2 < t.len() && t[w2] == st[w];
                assert(s[w2] == t[w2]);
            }
        }
        if forall|i: int, j: int| 0 <= i < j < s.len() ==> s[i].name != s[j].name {
            assert forall|i: int, j: int| 0 <= i < j < t.len() implies t[i].name != t[j].name by {
                assert(t[i] == s[i] && t[j] == s[j]);
            }
            assert forall|i: int| 0 <= i < st.len() implies st[i].name != s.last().name by {
                let w = choose|w: int| 0 <= w < t.len() && t[w] == st[i];
                assert(t[w] == s[w]);
            }
        }
    }
}

/// Whether a register number is in the list.
fn contains_reg(v: &Vec<u8>, r: u8) -> (b: bool)
    ensures
        b == v@.contains(r),
{
    let mut i: usize = 0;
    while i < v.len()
        invariant
            i <= v.len(),
            forall|j: int| 0 <= j < i ==> v@[j] != r,
        decreases v.len() - i,
    {
        if v[i] == r {
            assert(v@[i as int] == r);
            return true;
        }
        i = i + 1;
    }
    false
}

/// The class of a register number.
fn reg_class_of(r: u8) -> (c: u8)
    ensures
        c == reg_class(r),
{
    if r < 4 { 0 } else if r < 16 { 1 } else { 2 }
}

/// Hands out registers to values by linear scan over their live intervals.
pub struct LinearScan {
    regs: Vec<u8>,
    active_vars: Vec<InnerVar>,
    var_reg_map: Vec<(String, Place)>,
    stack_offset: i32,
    next_fresh: u8,
}

impl View for LinearScan {
    type V = ScanState;

    closed spec fn view(&self) -> ScanState {
        ScanState {
            free: self.regs@.to_set(),
            active: views(self.active_vars@),
            map: self.var_reg_map@.map_values(|e: (String, Place)| (e.0@, e.1)),
            spills: (-(self.stack_offset as int) / 4) as nat,
            next: self.next_fresh as nat,
        }
    }
}

/// True when a list of register numbers is strictly increasing and holds only allocatable registers.
pub open spec fn regs_sorted(r: Seq<u8>) -> bool {
    &&& forall|i: int, j: int| 0 <= i < j < r.len() ==> r[i] < r[j]
    &&& forall|i: int| 0 <= i < r.len() ==> r[i] < 22
}

impl LinearScan {
    /// The allocator's invariant.
    pub closed spec fn inv(&self) -> bool {
        &&& regs_sorted(self.regs@)
        &&& self.stack_offset <= 0
        &&& (self.stack_offset as int) % 4 == 0
        &&& self.stack_offset > -0x4000_0000
        &&& scan_ok(self@)
    }

    /// A fresh allocator: every allocatable register free, nothing live, nothing spilled.
    pub fn new() -> (r: Self)
        ensures
            r.inv(),
            r@ == initial_scan(),
    {
        let mut regs: Vec<u8> = Vec::new();
        let mut i: u8 = 0;
        while i < 22
            invariant
                i <= 22,
                regs@.len() == i,
                forall|j: int| 0 <= j < i ==> regs@[j] == j,
            decreases 22 - i,
        {
            regs.push(i);
            i = i + 1;
        }
        let r = Self { regs, active_vars: Vec::new(), var_reg_map: Vec::new(), stack_offset: 0, next_fresh: 0 };
        assert(r@.free =~= Set::new(|x: u8| x < 22)) by {
            assert forall|x: u8| x < 22 implies r.regs@.contains(x) by {
                assert(r.regs@[x as int] == x);
            }
        }
        assert(r@.active =~= Seq::<Interval>::empty());
        assert(r@.map =~= Seq::<(Seq<char>, Place)>::empty());
        r
    }

    /// Sorts the free registers by priority: `t` registers, then `s`, then `a`,
    /// each by number.
    fn auto_sort_regs(&mut self)
        requires
            forall|i: int, j: int| 0 <= i < j < old(self).regs.len() ==> old(self).regs@[i] != old(self).regs@[j],
            forall|i: int| 0 <= i < old(self).regs.len() ==> old(self).regs@[i] < 22,
        ensures
            regs_sorted(final(self).regs@),
            final(self).regs@.to_set() == old(self).regs@.to_set(),
            final(self).active_vars == old(self).active_vars,
            final(self).var_reg_map == old(self).var_reg_map,
            final(self).stack_offset == old(self).stack_offset,
            final(self).next_fresh == old(self).next_fresh,
    {
        let mut sorted: Vec<u8> = Vec::new();
        let n = self.regs.len();
        let mut i: usize = 0;
        while i < n
            invariant
                n == self.regs.len(),
                i <= n,
                self.regs == old(self).regs,
                forall|a: int, b: int| 0 <= a < b < n ==> self.regs@[a] != self.regs@[b],
                forall|a: int| 0 <= a < n ==> self.regs@[a] < 22,
                regs_sorted(sorted@),
                sorted@.to_set() == self.regs@.take(i as int).to_set(),
            decreases n - i,
        {
            let x = self.regs[i];
            let mut p = sorted.len();
            while p > 0 && sorted[p - 1] > x
                invariant
                    p <= sorted.len(),
                    forall|j: int| p <= j < sorted.len() ==> sorted@[j] > x,
                decreases p,
            {
                p = p - 1;
            }
            assert(!sorted@.contains(x)) by {
                if sorted@.contains(x) {
                    assert(self.regs@.take(i as int).to_set().contains(x));
                    let w = choose|w: int| 0 <= w < i && #[trigger] self.regs@.take(i as int)[w] == x;
                    assert(self.regs@[w] == self.regs@[i as int]);
                }
            }
            let ghost before = sorted@;
            sorted.insert(p, x);
            proof {
                assert forall|a: int, b: int| 0 <= a < b < sorted.len() implies sorted@[a] < sorted@[b] by {
                    if a < p && b < p {
                        assert(sorted@[a] == before[a] && sorted@[b] == before[b]);
                    } else if a < p && b == p {
                        assert(sorted@[a] == before[a]);
                        assert(before[p - 1] <= x);
                        assert(before[a] <= before[p - 1]);
                        assert(before[a] != x);
                    } else if a < p {
                        assert(sorted@[a] == before[a] && sorted@[b] == before[b - 1]);
                    } else if a == p {
                        assert(sorted@[b] == before[b - 1]);
                    } else {
                        assert(sorted@[a] == before[a - 1] && sorted@[b] == before[b - 1]);
                    }
                }
                assert forall|a: int| 0 <= a < sorted.len() implies sorted@[a] < 22 by {
                    if a < p { assert(sorted@[a] == before[a]); } else if a > p { assert(sorted@[a] == before[a - 1]); }
                }
                assert(sorted@.to_set() =~= self.regs@.take(i + 1).to_set()) by {
                    assert(self.regs@.take(i + 1) =~= self.regs@.take(i as int).push(x));
                    assert forall|y: u8| sorted@.contains(y) <==> self.regs@.take(i + 1).contains(y) by {
                        if sorted@.contains(y) {
                            let w = choose|w: int| 0 <= w < sorted.len() && sorted@[w] == y;
                            if w < p {
                                assert(before[w] == y);
                                assert(before.to_set().contains(y));
                            } else if w > p {
                                assert(before[w - 1] == y);
                                assert(before.to_set().contains(y));
                            }
                            if y != x {
                                assert(self.regs@.take(i as int).to_set().contains(y));
                                let w2 = choose|w2: int| 0 <= w2 < i && #[trigger] self.regs@.take(i as int)[w2] == y;
                                assert(self.regs@.take(i + 1)[w2] == y);
                            } else {
                                assert(self.regs@.take(i + 1)[i as int] == y);
                            }
                        }
                        if self.regs@.take(i + 1).contains(y) {
                            let w = choose|w: int| 0 <= w < i + 1 && #[trigger] self.regs@.take(i + 1)[w] == y;
                            if w < i {
                                assert(self.regs@.take(i as int)[w] == y);
                                assert(before.to_set().contains(y));
                                let w2 = choose|w2: int| 0 <= w2 < before.len() && before[w2] == y;
                                if w2 < p { assert(sorted@[w2] == y); } else { assert(sorted@[w2 + 1] == y); }
                            } else {
                                assert(sorted@[p as int] == y);
                            }
                        }
                    }
                }
            }
            i = i + 1;
        }
        assert(self.regs@.take(n as int) =~= self.regs@);
        self.regs = sorted;
    }

    /// Takes the register that `pick_reg` chooses from the free ones, and
    /// counts it as used.
    fn pop_reg(&mut self) -> (r: Option<u8>)
        requires
            regs_sorted(old(self).regs@),
            old(self).next_fresh <= 22,
            old(self).next_fresh < 22 ==> old(self).regs@.contains(old(self).next_fresh),
        ensures
            regs_sorted(final(self).regs@),
            old(self).regs.len() == 0 ==> r is None && final(self).regs == old(self).regs
                && final(self).next_fresh == old(self).next_fresh,
            old(self).regs.len() > 0 ==> r == Some(pick_reg(old(self).regs@.to_set(), old(self).next_fresh as nat))
                && final(self).regs@.to_set() == old(self).regs@.to_set().remove(
                    pick_reg(old(self).regs@.to_set(), old(self).next_fresh as nat))
                && final(self).next_fresh as nat == next_after(
                    pick_reg(old(self).regs@.to_set(), old(self).next_fresh as nat), old(self).next_fresh as nat),
            final(self).active_vars == old(self).active_vars,
            final(self).var_reg_map == old(self).var_reg_map,
            final(self).stack_offset == old(self).stack_offset,
    {
        if self.regs.len() == 0 {
            return None;
        }
        let ghost s = self.regs@.to_set();
        let ghost nx = self.next_fresh as nat;
        let mut i: usize = 0;
        if self.next_fresh < 22 {
            let c = reg_class_of(self.next_fresh);
            while i < self.regs.len() && reg_class_of(self.regs[i]) != c
                invariant
                    i <= self.regs.len(),
                    self.regs == old(self).regs,
                    c == reg_class(self.next_fresh),
                    forall|w: int| 0 <= w < i ==> reg_class(#[trigger] self.regs@[w]) != c,
                decreases self.regs.len() - i,
            {
                i = i + 1;
            }
            proof {
                if i == self.regs.len() {
                    let w = choose|w: int| 0 <= w < self.regs.len() && self.regs@[w] == self.next_fresh;
                    assert(reg_class(self.regs@[w]) != c);
                }
            }
        }
        let ghost old_regs = self.regs@;
        let r = self.regs.remove(i);
        proof {
            assert(s.contains(r));
            if nx < 22 {
                let f = s.filter(|q: u8| reg_class(q) == reg_class(nx as u8));
                assert(reg_class(r) == reg_class(nx as u8));
                assert(f.contains(r));
                assert forall|q: u8| f.contains(q) implies r <= q by {
                    let w = choose|w: int| 0 <= w < old_regs.len() && old_regs[w] == q;
                    if w < i { assert(reg_class(old_regs[w]) != reg_class(nx as u8)); }
                    if w > i { assert(old_regs[i as int] < old_regs[w]); }
                }
                lemma_set_min_exists(f, r);
                let m = set_min(f);
                assert(r <= m && m <= r);
            } else {
                assert(i == 0);
                assert forall|q: u8| s.contains(q) implies r <= q by {
                    let w = choose|w: int| 0 <= w < old_regs.len() && old_regs[w] == q;
                    if w > 0 { assert(old_regs[0] < old_regs[w]); }
                }
                lemma_set_min_exists(s, r);
                let m = set_min(s);
                assert(r <= m && m <= r);
            }
            assert(self.regs@.to_set() =~= s.remove(r)) by {
                assert forall|q: u8| self.regs@.contains(q) <==> s.remove(r).contains(q) by {
                    if self.regs@.contains(q) {
                        let w = choose|w: int| 0 <= w < self.regs.len() && self.regs@[w] == q;
                        if w < i {
                            assert(old_regs[w] == q);
                            assert(old_regs[w] < old_regs[i as int]);
                        } else {
                            assert(old_regs[w + 1] == q);
                            assert(old_regs[i as int] < old_regs[w + 1]);
                        }
                    }
                    if s.remove(r).contains(q) {
                        let w = choose|w: int| 0 <= w < old_regs.len() && old_regs[w] == q;
                        assert(w != i);
                        if w < i { assert(self.regs@[w] == q); } else { assert(self.regs@[w - 1] == q); }
                    }
                }
            }
            assert forall|a: int, b: int| 0 <= a < b < self.regs.len() implies self.regs@[a] < self.regs@[b] by {
                let aa = if a < i { a } else { a + 1 };
                let bb = if b < i { b } else { b + 1 };
                assert(self.regs@[a] == old_regs[aa] && self.regs@[b] == old_regs[bb]);
            }
            assert forall|a: int| 0 <= a < self.regs.len() implies self.regs@[a] < 22 by {
                let aa = if a < i { a } else { a + 1 };
                assert(self.regs@[a] == old_regs[aa]);
            }
        }
        if r == self.next_fresh {
            self.next_fresh = self.next_fresh + 1;
        }
        Some(r)
    }

    /// The index of the entry for `name`, if it has one (the last such entry).
    fn find_key(&self, name: &String) -> (r: Option<usize>)
        ensures
            match r {
                Some(k) => k as int == last_key(self@.map, name@) && k < self.var_reg_map.len(),
                None => last_key(self@.map, name@) < 0,
            },
    {
        let ghost m = self@.map;
        proof { lemma_last_key(m, name@); }
        let mut j = self.var_reg_map.len();
        while j > 0
            invariant
                j <= self.var_reg_map.len(),
                m == self@.map,
                forall|q: int| j <= q < m.len() ==> #[trigger] m[q].0 != name@,
            decreases j,
        {
            if str_eq(self.var_reg_map[j - 1].0.as_str(), name.as_str()) {
                assert(m[j - 1].0 == name@);
                proof { lemma_last_key(m, name@); }
                return Some(j - 1);
            }
            j = j - 1;
        }
        proof { lemma_last_key(m, name@); }
        None
    }

    /// Records `name`'s place, replacing an earlier one.
    fn map_insert(&mut self, name: String, p: Place)
        ensures
            final(self)@.map == assoc_insert(old(self)@.map, name@, p),
            final(self).regs == old(self).regs,
            final(self).active_vars == old(self).active_vars,
            final(self).stack_offset == old(self).stack_offset,
            final(self).next_fresh == old(self).next_fresh,
    {
        let k = self.find_key(&name);
        let ghost nm = name@;
        match k {
            Some(k) => {
                self.var_reg_map.set(k, (name, p));
                assert(self@.map =~= old(self)@.map.update(k as int, (nm, p)));
            }
            None => {
                self.var_reg_map.push((name, p));
                assert(self@.map =~= old(self)@.map.push((nm, p)));
            }
        }
    }

    /// Moves values that ended before `var` starts out of the live set, and
    /// gives their registers back.
    fn clear_inactive_vars(&mut self, var: &InnerVar)
        requires
            old(self).inv(),
        ensures
            final(self)@ == (ScanState {
                free: old(self)@.free.union(released(old(self)@.active, old(self)@.map, var@.start)),
                active: keep_live(old(self)@.active, var@.start),
                map: old(self)@.map,
                spills: old(self)@.spills,
                next: old(self)@.next,
            }),
            regs_sorted(final(self).regs@),
            final(self).stack_offset == old(self).stack_offset,
    {
        let start = var.get_start_offset();
        let ghost st = self@;
        let mut new_active: Vec<InnerVar> = Vec::new();
        let n = self.active_vars.len();
        let mut i: usize = 0;
        while i < n
            invariant
                n == self.active_vars.len(),
                i <= n,
                self.active_vars == old(self).active_vars,
                self.var_reg_map == old(self).var_reg_map,
                self.stack_offset == old(self).stack_offset,
                self.next_fresh == old(self).next_fresh,
                st == old(self)@,
                scan_ok(st),
                regs_sorted(self.regs@),
                self.regs@.to_set() == st.free.union(released(st.active.take(i as int), st.map, start)),
                views(new_active@) == keep_live(st.active.take(i as int), start),
            decreases n - i,
        {
            let end = self.active_vars[i].get_end_offset();
            let ghost a = st.active[i as int];
            assert(st.active.take(i + 1).drop_last() =~= st.active.take(i as int));
            assert(st.active.take(i + 1).last() == a);
            if end < start {
                let k = self.find_key(self.active_vars[i].get_name());
                proof {
                    lemma_last_key(st.map, a.name);
                }
                match k {
                    Some(k) => {
                        match self.var_reg_map[k].1 {
                            Place::Reg(r) => {
                                assert(reg_of(st.map, a.name) == Some(r));
                                assert(r < 22) by {
                                    assert(st.map[k as int].1 matches Place::Reg(rr) ==> rr < 22);
                                }
                                if contains_reg(&self.regs, r) {
                                    assert(self.regs@.to_set() =~= st.free.union(released(st.active.take(i + 1), st.map, start))) by {
                                        assert(self.regs@.to_set().contains(r));
                                    }
                                } else {
                                let ghost before = self.regs@;
                                self.regs.push(r);
                                assert forall|a1: int, b1: int| 0 <= a1 < b1 < self.regs.len() implies self.regs@[a1] != self.regs@[b1] by {
                                    if b1 == self.regs.len() - 1 {
                                        assert(before.contains(before[a1]));
                                    } else {
                                        assert(self.regs@[a1] == before[a1] && self.regs@[b1] == before[b1]);
                                    }
                                }
                                let ghost pushed = self.regs@;
                                self.auto_sort_regs();
                                assert(self.regs@.to_set() =~= st.free.union(released(st.active.take(i + 1), st.map, start))) by {
                                    assert(pushed.to_set() =~= before.to_set().insert(r)) by {
                                        assert forall|y: u8| pushed.contains(y) <==> (before.contains(y) || y == r) by {
                                            if pushed.contains(y) {
                                                let w = choose|w: int| 0 <= w < pushed.len() && pushed[w] == y;
                                                if w < before.len() { assert(before[w] == y); }
                                            }
                                            if before.contains(y) {
                                                let w = choose|w: int| 0 <= w < before.len() && before[w] == y;
                                                assert(pushed[w] == y);
                                            }
                                            if y == r {
                                                assert(pushed[before.len() as int] == y);
                                            }
                                        }
                                    }
                                }
                                }
                            }
                            Place::Stack(_) => {
                                assert(reg_of(st.map, a.name) is None);
                                assert(released(st.active.take(i + 1), st.map, start) == released(st.active.take(i as int), st.map, start));
                            }
                        }
                    }
                    None => {
                        assert(false);
                    }
                }
            } else {
                new_active.push(self.active_vars[i].duplicate());
                assert(views(new_active@) =~= keep_live(st.active.take(i + 1), start));
                assert(st.active.take(i + 1).last().end >= start);
                assert(released(st.active.take(i + 1), st.map, start) == released(st.active.take(i as int), st.map, start));
            }
            i = i + 1;
        }
        assert(st.active.take(n as int) =~= st.active);
        self.active_vars = new_active;
        assert(self@.map =~= st.map);
    }

    /// Gives `var` the next stack slot.
    fn put_in_stack(&mut self, var: &InnerVar)
        requires
            old(self).stack_offset <= 0,
            (old(self).stack_offset as int) % 4 == 0,
            old(self).stack_offset > -0x4000_0000 + 4,
        ensures
            final(self)@ == (ScanState {
                free: old(self)@.free,
                active: old(self)@.active,
                map: assoc_insert(old(self)@.map, var@.name, spill_place(old(self)@.spills)),
                spills: old(self)@.spills + 1,
                next: old(self)@.next,
            }),
            final(self).regs == old(self).regs,
            final(self).stack_offset == old(self).stack_offset - 4,
    {
        self.stack_offset = self.stack_offset - 4;
        let off = self.stack_offset;
        assert(spill_place(old(self)@.spills) == Place::Stack(off));
        self.map_insert(var.get_name().clone(), Place::Stack(off));
    }

    /// The index of the live value that ends last (in the order of the live set).
    fn max_active_index(&self) -> (r: usize)
        requires
            self.active_vars.len() > 0,
        ensures
            r as int == max_index(self@.active),
            r < self.active_vars.len(),
    {
        let ghost a = self@.active;
        let mut m: usize = 0;
        let mut i: usize = 1;
        assert(a.take(1).len() == 1);
        while i < self.active_vars.len()
            invariant
                1 <= i <= self.active_vars.len(),
                a == self@.active,
                m < i,
                m as int == max_index(a.take(i as int)),
            decreases self.active_vars.len() - i,
        {
            let ghost t = a.take(i + 1);
            assert(t.drop_last() =~= a.take(i as int));
            assert(t[m as int] == a[m as int]);
            assert(t.last() == a[i as int]);
            if iv_less(&self.active_vars[m], &self.active_vars[i]) {
                m = i;
            }
            i = i + 1;
        }
        assert(a.take(i as int) =~= a);
        m
    }

    /// Handles `var` when no register is free: spills whichever of `var` and
    /// the live value ending last ends later; `var` takes the other's register.
    fn overflow_to_stack(&mut self, var: &InnerVar)
        requires
            old(self).stack_offset <= 0,
            (old(self).stack_offset as int) % 4 == 0,
            old(self).stack_offset > -0x4000_0000 + 4,
            forall|i: int| 0 <= i < old(self)@.active.len() ==> last_key(old(self)@.map, #[trigger] old(self)@.active[i].name) >= 0,
        ensures
            final(self)@ == (if old(self)@.active.len() > 0 && old(self)@.active[max_index(old(self)@.active)].end > var@.end {
                ScanState {
                    free: old(self)@.free,
                    active: old(self)@.active.remove(max_index(old(self)@.active)).push(var@),
                    map: assoc_insert(
                        assoc_insert(old(self)@.map, old(self)@.active[max_index(old(self)@.active)].name, spill_place(old(self)@.spills)),
                        var@.name,
                        old(self)@.map[last_key(old(self)@.map, old(self)@.active[max_index(old(self)@.active)].name)].1,
                    ),
                    spills: old(self)@.spills + 1,
                    next: old(self)@.next,
                }
            } else {
                ScanState {
                    free: old(self)@.free,
                    active: old(self)@.active,
                    map: assoc_insert(old(self)@.map, var@.name, spill_place(old(self)@.spills)),
                    spills: old(self)@.spills + 1,
                    next: old(self)@.next,
                }
            }),
            final(self).regs == old(self).regs,
            final(self).stack_offset == old(self).stack_offset - 4,
    {
        if self.active_vars.len() > 0 {
            let mi = self.max_active_index();
            if self.active_vars[mi].get_end_offset() > var.get_end_offset() {
                let max_var = self.active_vars[mi].duplicate();
                let k = self.find_key(max_var.get_name());
                match k {
                    Some(k) => {
                        // the spilled value's register goes to `var`
                        let held = self.var_reg_map[k].1;
                        self.put_in_stack(&max_var);
                        let ghost a0 = self@.active;
                        self.active_vars.remove(mi);
                        self.active_vars.push(var.duplicate());
                        assert(views(self.active_vars@) =~= a0.remove(mi as int).push(var@));
                        self.map_insert(var.get_name().clone(), held);
                    }
                    None => {
                        assert(false);
                    }
                }
            } else {
                self.put_in_stack(var);
            }
        } else {
            self.put_in_stack(var);
        }
    }
}

/// Whether one name comes before another, comparing characters by code.
pub fn name_less(a: &String, b: &String) -> (r: bool)
    ensures
        r == name_lt(a@, b@),
{
    let n = a.as_str().unicode_len();
    let m = b.as_str().unicode_len();
    let mut i: usize = 0;
    assert(a@.skip(0) =~= a@ && b@.skip(0) =~= b@);
    while i < n && i < m
        invariant
            n == a@.len(),
            m == b@.len(),
            i <= n,
            i <= m,
            name_lt(a@, b@) == name_lt(a@.skip(i as int), b@.skip(i as int)),
        decreases n - i,
    {
        let ca = a.as_str().get_char(i);
        let cb = b.as_str().get_char(i);
        assert(a@.skip(i as int)[0] == ca && b@.skip(i as int)[0] == cb);
        if ca != cb {
            return (ca as u32) < (cb as u32);
        }
        assert(a@.skip(i as int).drop_first() =~= a@.skip(i + 1));
        assert(b@.skip(i as int).drop_first() =~= b@.skip(i + 1));
        i = i + 1;
    }
    assert(a@.skip(i as int).len() == n - i);
    assert(b@.skip(i as int).len() == m - i);
    i == n && i < m
}

/// Whether `a` comes before `b` in the order of the live set: by end, then start, then name.
pub fn iv_less(a: &InnerVar, b: &InnerVar) -> (r: bool)
    ensures
        r == iv_lt(a@, b@),
{
    if a.end_offset != b.end_offset {
        a.end_offset < b.end_offset
    } else if a.start_offset != b.start_offset {
        a.start_offset < b.start_offset
    } else {
        name_less(&a.name, &b.name)
    }
}


/// The views of a list of text pairs.
pub open spec fn pairs_view(s: Seq<(String, String)>) -> Seq<(Seq<char>, Seq<char>)> {
    s.map_values(|e: (String, String)| (e.0@, e.1@))
}

/// True when the names of the intervals are pairwise distinct.
pub open spec fn names_distinct(vars: Seq<Interval>) -> bool {
    forall|i: int, j: int| 0 <= i < j < vars.len() ==> vars[i].name != vars[j].name
}

/// Maps each value to a register name or a stack slot `offset(sp)`, and
/// reports the frame size in bytes.
pub trait RegisterAllocator {
    /// What a call of `allocate` needs of the allocator and of the intervals.
    spec fn allocation_ready(&self, vars: Seq<Interval>) -> bool;

    /// The locations and frame size that `allocate` returns for the intervals.
    spec fn allocation_result(&self, vars: Seq<Interval>) -> (Seq<(Seq<char>, Seq<char>)>, nat);

    fn allocate(&mut self, allocation_names: Vec<InnerVar>) -> (r: (Vec<(String, String)>, usize))
        requires
            old(self).allocation_ready(views(allocation_names@)),
        ensures
            pairs_view(r.0@) == old(self).allocation_result(views(allocation_names@)).0,
            r.1 as nat == old(self).allocation_result(views(allocation_names@)).1,
    ;
}

impl RegisterAllocator for NoAlloc {
    open spec fn allocation_ready(&self, vars: Seq<Interval>) -> bool {
        vars.len() < 0x1000_0000
    }

    open spec fn allocation_result(&self, vars: Seq<Interval>) -> (Seq<(Seq<char>, Seq<char>)>, nat) {
        spec_no_alloc(vars)
    }

    /// Stack allocation: values taken by start share the first slot whose
    /// last occupant ended before they start; slots are 4 bytes each.
    fn allocate(&mut self, allocation_names: Vec<InnerVar>) -> (r: (Vec<(String, String)>, usize)) {
        let r = self.run(&allocation_names);
        assert(pairs_view(r.0@) =~= spec_no_alloc(views(allocation_names@)).0);
        r
    }
}

impl RegisterAllocator for LinearScan {
    open spec fn allocation_ready(&self, vars: Seq<Interval>) -> bool {
        &&& self.inv()
        &&& self@.spills + vars.len() < 0x1000_0000
    }

    open spec fn allocation_result(&self, vars: Seq<Interval>) -> (Seq<(Seq<char>, Seq<char>)>, nat) {
        spec_linear_scan_from(self@, vars)
    }

    /// Linear scan: values taken by start get the register that `pick_reg`
    /// chooses once the values that ended before them give theirs back;
    /// with none free, whichever of the value and the live value ending last
    /// ends later goes to the stack.
    fn allocate(&mut self, allocation_names: Vec<InnerVar>) -> (r: (Vec<(String, String)>, usize)) {
        let sorted = sort_vars_by_start(&allocation_names);
        let ghost sv = views(sorted@);
        let ghost st0 = self@;
        proof {
            lemma_sort_len(views(allocation_names@));
        }
        let n = sorted.len();
        let mut i: usize = 0;
        while i < n
            invariant
                n == sorted.len(),
                i <= n,
                sv == views(sorted@),
                self.inv(),
                self@ == scan_run(st0, sv.take(i as int)),
                self@.spills + (n - i) < 0x1000_0000,
            decreases n - i,
        {
            let var = &sorted[i];
            let ghost prev = self@;
            proof {
                lemma_keep_live(prev.active, var@.start);
                assert(var@ == sv[i as int]);
                assert(-(self.stack_offset as int) == 4 * prev.spills);
            }
            self.clear_inactive_vars(var);
            let ghost cleared = self@;
            proof {
                assert forall|q: int| 0 <= q < cleared.active.len() implies last_key(cleared.map, #[trigger] cleared.active[q].name) >= 0 by {
                    let w = choose|w: int| 0 <= w < prev.active.len() && prev.active[w] == cleared.active[q];
                    assert(last_key(prev.map, prev.active[w].name) >= 0);
                }
            }
            if self.regs.len() == 0 {
                assert(cleared.free =~= Set::<u8>::empty());
                self.overflow_to_stack(var);
            } else {
                assert(cleared.free.contains(self.regs@[0]));
                proof {
                    if self.next_fresh < 22 {
                        assert(prev.free.contains(self.next_fresh));
                        assert(cleared.free.contains(self.next_fresh));
                        assert(self.regs@.to_set().contains(self.next_fresh));
                    }
                }
                let r = self.pop_reg();
                match r {
                    Some(r) => {
                        let ghost a0 = self@.active;
                        self.active_vars.push(var.duplicate());
                        assert(views(self.active_vars@) =~= a0.push(var@));
                        self.map_insert(var.get_name().clone(), Place::Reg(r));
                    }
                    None => {}
                }
            }
            proof {
                lemma_scan_step_ok(prev, var@);
                let ns = scan_step(prev, var@);
                assert(self@.free == ns.free);
                assert(self@.active == ns.active);
                assert(self@.map == ns.map);
                assert(self@.spills == ns.spills);
                assert(self@.next == ns.next);
                assert(sv.take(i + 1).drop_last() =~= sv.take(i as int));
                assert(sv.take(i + 1).last() == var@);
            }
            i = i + 1;
        }
        assert(sv.take(n as int) =~= sv);
        let stack_size_i32: i32 = if self.stack_offset < 0 { -self.stack_offset } else { 0 };
        let ghost fin = self@;
        assert(stack_size_i32 as int == (4 * fin.spills) as int);
        let mut out: Vec<(String, String)> = Vec::new();
        let mut k: usize = 0;
        while k < self.var_reg_map.len()
            invariant
                k <= self.var_reg_map.len(),
                fin == self@,
                self.inv(),
                stack_size_i32 as int == 4 * fin.spills,
                0 <= stack_size_i32 < 0x4000_0000,
                pairs_view(out@) == render_map(fin.map.take(k as int), (4 * fin.spills) as int),
            decreases self.var_reg_map.len() - k,
        {
            let ghost e = fin.map[k as int];
            assert(e.1 == self.var_reg_map@[k as int].1);
            let loc = match self.var_reg_map[k].1 {
                Place::Reg(r) => {
                    assert(fin.map[k as int].1 matches Place::Reg(rr) ==> rr < 22);
                    reg_string(r)
                }
                Place::Stack(o) => {
                    let v: i64 = if o < 0 { stack_size_i32 as i64 + o as i64 } else { o as i64 };
                    let mut t = i64_text(v);
                    proof { reveal_strlit("(sp)"); }
                    t.append("(sp)");
                    t
                }
            };
            assert(loc@ == render_place(e.1, (4 * fin.spills) as int));
            out.push((self.var_reg_map[k].0.clone(), loc));
            assert(render_map(fin.map.take(k + 1), (4 * fin.spills) as int) =~= render_map(fin.map.take(k as int), (4 * fin.spills) as int).push(
                (e.0, render_place(e.1, (4 * fin.spills) as int))));
            assert(pairs_view(out@) =~= render_map(fin.map.take(k + 1), (4 * fin.spills) as int));
            k = k + 1;
        }
        assert(fin.map.take(self.var_reg_map.len() as int) =~= fin.map);
        (out, stack_size_i32 as usize)
    }
}

/// Chooses the allocator: the pure-stack one when `only_stack` holds, the
/// linear scan otherwise.
#[derive(Clone, Default, Debug)]
pub struct AllocatedInnerVar;

impl AllocatedInnerVar {
    /// Allocates the values with a fresh allocator of the chosen kind. Names
    /// may repeat: read as a map in which a later pair overrides an earlier
    /// one, the result gives each name the location recorded last for it.
    pub fn allocate(&self, inner_vars: Vec<InnerVar>, only_stack: bool) -> (r: (Vec<(String, String)>, usize))
        requires
            inner_vars.len() < 0x1000_0000,
        ensures
            (pairs_view(r.0@), r.1 as nat) == if only_stack {
                spec_no_alloc(views(inner_vars@))
            } else {
                spec_linear_scan_from(initial_scan(), views(inner_vars@))
            },
    {
        if only_stack {
            let mut allocator = NoAlloc;
            allocator.allocate(inner_vars)
        } else {
            let mut allocator = LinearScan::new();
            allocator.allocate(inner_vars)
        }
    }
}


// ---------------------------------------------------------------------------
// Laws of the allocators.
// ---------------------------------------------------------------------------

/// True when the intervals are ordered by start.
pub open spec fn starts_sorted(s: Seq<Interval>) -> bool {
    forall|i: int, j: int| 0 <= i < j < s.len() ==> s[i].start <= s[j].start
}

proof fn lemma_insert_sorted(s: Seq<Interval>, x: Interval)
    requires
        starts_sorted(s),
    ensures
        starts_sorted(insert_by_start(s, x)),
        insert_by_start(s, x).len() == s.len() + 1,
        forall|j: int| 0 <= j < insert_by_start(s, x).len() ==> #[trigger] insert_by_start(s, x)[j] == x
            || s.contains(insert_by_start(s, x)[j]),
    decreases s.len(),
{
    lemma_insert_len(s, x);
    lemma_insert_elems(s, x);
    if s.len() > 0 && s.last().start > x.start {
        let t = s.drop_last();
        assert(starts_sorted(t)) by {
            assert forall|i: int, j: int| 0 <= i < j < t.len() implies t[i].start <= t[j].start by {
                assert(t[i] == s[i] && t[j] == s[j]);
            }
        }
        lemma_insert_sorted(t, x);
        let it = insert_by_start(t, x);
        let r = it.push(s.last());
        assert forall|i: int, j: int| 0 <= i < j < r.len() implies r[i].start <= r[j].start by {
            if j == r.len() - 1 {
                assert(r[i] == it[i]);
                if it[i] != x {
                    let w = choose|w: int| 0 <= w < t.len() && t[w] == it[i];
                    assert(s[w] == t[w]);
                }
            } else {
                assert(r[i] == it[i] && r[j] == it[j]);
            }
        }
    } else if s.len() > 0 {
        let r = s.push(x);
        assert forall|i: int, j: int| 0 <= i < j < r.len() implies r[i].start <= r[j].start by {
            if j == r.len() - 1 {
                assert(r[i] == s[i]);
                assert(s[i].start <= s[s.len() - 1].start || i == s.len() - 1);
            } else {
                assert(r[i] == s[i] && r[j] == s[j]);
            }
        }
    }
}

/// Sorting orders the intervals by start.
pub proof fn lemma_sort_sorted(s: Seq<Interval>)
    ensures
        starts_sorted(sort_by_start(s)),
    decreases s.len(),
{
    if s.len() > 0 {
        lemma_sort_sorted(s.drop_last());
        lemma_insert_sorted(sort_by_start(s.drop_last()), s.last());
    }
}

/// The facts the linear scan keeps while it takes the values `p` in order.
pub open spec fn scan_facts(st: ScanState, p: Seq<Interval>) -> bool {
    // entry `k` is the place of the `k`-th value taken
    &&& st.map.len() == p.len()
    &&& forall|k: int| 0 <= k < p.len() ==> (#[trigger] st.map[k]).0 == p[k].name
    // each live value is the value its entry stands for
    &&& forall|i: int| 0 <= i < st.active.len() ==> p[last_key(st.map, #[trigger] st.active[i].name)] == st.active[i]
    // values that share a register do not overlap
    &&& forall|k1: int, k2: int| 0 <= k1 < k2 < p.len() && (#[trigger] st.map[k1]).1 is Reg
        && (#[trigger] st.map[k2]).1 is Reg && st.map[k1].1 == st.map[k2].1 ==> p[k1].end < p[k2].start
    // a value in a register that is no longer live ended before the last value taken started
    &&& forall|k: int| 0 <= k < p.len() && (#[trigger] st.map[k]).1 is Reg
        && (forall|i: int| 0 <= i < st.active.len() ==> st.active[i].name != p[k].name) ==> p[k].end < p.last().start
    // stack slots are distinct, below the frame top and within the frame
    &&& forall|k: int| 0 <= k < p.len() ==> ((#[trigger] st.map[k]).1 matches Place::Stack(o)
        ==> -4 * st.spills <= o <= -4 && (o as int) % 4 == 0)
    &&& forall|k1: int, k2: int| 0 <= k1 < k2 < p.len() && (#[trigger] st.map[k1]).1 is Stack
        ==> (#[trigger] st.map[k2]).1 != st.map[k1].1
    &&& st.spills < 0x1000_0000
}

/// What a step of the scan needs of the state and of the values taken so far.
pub open spec fn step_ready(st: ScanState, p: Seq<Interval>, v: Interval) -> bool {
    &&& scan_wf(st)
    &&& scan_facts(st, p)
    &&& names_distinct(p.push(v))
    &&& forall|k: int| 0 <= k < p.len() ==> #[trigger] p[k].start <= v.start
    &&& st.spills + 1 < 0x1000_0000
}

/// Facts about the state before a step that each outcome of the step uses.
spec fn step_common(st: ScanState, p: Seq<Interval>, v: Interval) -> bool {
    let free = st.free.union(released(st.active, st.map, v.start));
    let active = keep_live(st.active, v.start);
    &&& fresh(st, v.name)
    &&& forall|k: int| 0 <= k < p.len() ==> last_key(st.map, #[trigger] p[k].name) == k
    &&& forall|k: int| 0 <= k < p.len() && (#[trigger] st.map[k]).1 is Reg
        && (forall|i: int| 0 <= i < active.len() ==> active[i].name != p[k].name) ==> p[k].end < v.start
    &&& forall|j: int| 0 <= j < active.len() ==> {
        &&& 0 <= last_key(st.map, #[trigger] active[j].name) < p.len()
        &&& p[last_key(st.map, active[j].name)] == active[j]
        &&& active[j].name != v.name
        &&& st.map[last_key(st.map, active[j].name)].1 is Reg
        &&& !free.contains(match st.map[last_key(st.map, active[j].name)].1 { Place::Reg(r) => r, Place::Stack(_) => 0u8 })
    }
}

proof fn lemma_step_common(st: ScanState, p: Seq<Interval>, v: Interval)
    requires
        step_ready(st, p, v),
    ensures
        step_common(st, p, v),
{
    let q = p.push(v);
    let rel = released(st.active, st.map, v.start);
    let free = st.free.union(rel);
    let active = keep_live(st.active, v.start);
    lemma_keep_live(st.active, v.start);
    let ns = scan_step(st, v);
    assert(fresh(st, v.name)) by {
        lemma_last_key(st.map, v.name);
        if last_key(st.map, v.name) >= 0 {
            let k = last_key(st.map, v.name);
            assert(q[k].name == q[p.len() as int].name);
        }
    }
    assert forall|k: int| 0 <= k < p.len() implies last_key(st.map, p[k].name) == k by {
        lemma_last_key(st.map, p[k].name);
        let l = last_key(st.map, p[k].name);
        assert(st.map[k].0 == p[k].name);
        if l > k {
            assert(st.map[l].0 == p[l].name);
            assert(q[k] == p[k] && q[l] == p[l]);
            assert(q[k].name != q[l].name);
        }
    }
    lemma_last_key_push(st.map, v.name, spill_place(st.spills), v.name);
    // a value in a register that ended before v starts is not live any more once cleared
    assert forall|k: int| 0 <= k < p.len() && (#[trigger] st.map[k]).1 is Reg
        && (forall|i: int| 0 <= i < active.len() ==> active[i].name != p[k].name) implies p[k].end < v.start by {
        if exists|i: int| 0 <= i < st.active.len() && st.active[i].name == p[k].name {
            let i = choose|i: int| 0 <= i < st.active.len() && st.active[i].name == p[k].name;
            assert(p[last_key(st.map, st.active[i].name)] == st.active[i]);
            assert(last_key(st.map, st.active[i].name) == k);
            if !(st.active[i].end < v.start) {
                // it would have been kept
                lemma_keep_live_keeps(st.active, v.start, i);
                let j = choose|j: int| 0 <= j < active.len() && active[j] == st.active[i];
                assert(active[j].name == p[k].name);
            }
        } else {
            assert(p[k].end < p.last().start);
        }
    }
    // which values hold which register once cleared
    assert forall|j: int| 0 <= j < active.len() implies p[last_key(st.map, #[trigger] active[j].name)] == active[j]
        && last_key(st.map, active[j].name) >= 0 && st.map[last_key(st.map, active[j].name)].1 is Reg
        && !free.contains(match st.map[last_key(st.map, active[j].name)].1 { Place::Reg(r) => r, Place::Stack(_) => 0u8 })
        && 0 <= last_key(st.map, active[j].name) < p.len() && active[j].name != v.name by {
        let w = choose|w: int| 0 <= w < st.active.len() && st.active[w] == active[j];
        lemma_last_key(st.map, active[j].name);
        let r = active_reg(st, w);
        if rel.contains(r) {
            lemma_released(st.active, st.map, v.start, r);
            let i = choose|i: int| 0 <= i < st.active.len() && #[trigger] st.active[i].end < v.start && reg_of(st.map, st.active[i].name) == Some(r);
            assert(active_reg(st, i) == r);
            if i != w {
                if i < w { assert(active_reg(st, i) != active_reg(st, w)); } else { assert(active_reg(st, w) != active_reg(st, i)); }
            }
        }
    }
}

/// The step in which `v` spills a live value and takes its register.
proof fn lemma_step_spill_other(st: ScanState, p: Seq<Interval>, v: Interval)
    requires
        step_ready(st, p, v),
        st.free.union(released(st.active, st.map, v.start)) == Set::<u8>::empty(),
        keep_live(st.active, v.start).len() > 0,
        keep_live(st.active, v.start)[max_index(keep_live(st.active, v.start))].end > v.end,
    ensures
        scan_facts(scan_step(st, v), p.push(v)),
{
    let q = p.push(v);
    let rel = released(st.active, st.map, v.start);
    let free = st.free.union(rel);
    let active = keep_live(st.active, v.start);
    lemma_keep_live(st.active, v.start);
    lemma_step_common(st, p, v);
    let ns = scan_step(st, v);
    assert(q.last() == v);
    assert forall|kk: int| 0 <= kk < p.len() implies #[trigger] q[kk] == p[kk] by {}
    let mi = max_index(active);
    lemma_max_index(active);
    let mx = active[mi];
    let k = last_key(st.map, mx.name);
    let held = st.map[k].1;
    let m1 = assoc_insert(st.map, mx.name, spill_place(st.spills));
    let m2 = assoc_insert(m1, v.name, held);
    lemma_assoc_insert(st.map, mx.name, spill_place(st.spills), mx.name);
    assert(m1 == st.map.update(k, (mx.name, spill_place(st.spills))));
    assert(mx.name != v.name);
    lemma_assoc_insert(st.map, mx.name, spill_place(st.spills), v.name);
    lemma_assoc_insert(m1, v.name, held, v.name);
    assert(m2 == m1.push((v.name, held)));
    let na = active.remove(mi).push(v);
    assert forall|j: int| 0 <= j < na.len() - 1 implies #[trigger] na[j] == active[if j < mi { j } else { j + 1 }] by {}
    assert(scan_facts(ns, q)) by {
        assert forall|kk: int| 0 <= kk < q.len() implies (#[trigger] m2[kk]).0 == q[kk].name by {
            if kk < p.len() { assert(m2[kk] == m1[kk]); }
        }
        assert forall|i: int| 0 <= i < na.len() implies q[last_key(m2, #[trigger] na[i].name)] == na[i] by {
            if i == na.len() - 1 {
                lemma_last_key_push(m1, v.name, held, v.name);
            } else {
                let ii = if i < mi { i } else { i + 1 };
                assert(na[i] == active[ii]);
                assert(active[ii].name != v.name) by {
                    let w = choose|w: int| 0 <= w < st.active.len() && st.active[w] == active[ii];
                    assert(last_key(st.map, st.active[w].name) >= 0);
                }
                lemma_assoc_insert(st.map, mx.name, spill_place(st.spills), active[ii].name);
                lemma_last_key_push(m1, v.name, held, active[ii].name);
                if ii < mi { assert(active[ii].name != active[mi].name); } else { assert(active[mi].name != active[ii].name); }
            }
        }
        assert forall|k1: int, k2: int| 0 <= k1 < k2 < q.len() && (#[trigger] m2[k1]).1 is Reg
            && (#[trigger] m2[k2]).1 is Reg && m2[k1].1 == m2[k2].1 implies q[k1].end < q[k2].start by {
            if k2 == p.len() {
                // v took mx's register; no other live value holds it
                assert(k1 != k);
                assert(m2[k1] == st.map[k1]);
                assert(st.map[k1].1 == held);
                if exists|i: int| 0 <= i < active.len() && active[i].name == p[k1].name {
                    let i = choose|i: int| 0 <= i < active.len() && active[i].name == p[k1].name;
                    assert(last_key(st.map, active[i].name) == k1);
                    assert(last_key(st.map, active[mi].name) == k);
                    assert(i != mi);
                    if i < mi { assert(st.map[last_key(st.map, active[i].name)].1 != st.map[last_key(st.map, active[mi].name)].1); }
                    else { assert(st.map[last_key(st.map, active[mi].name)].1 != st.map[last_key(st.map, active[i].name)].1); }
                }
                assert(p[k1].end < v.start);
            } else {
                assert(m2[k1] == m1[k1] && m2[k2] == m1[k2]);
                assert(k1 != k && k2 != k);
                assert(m1[k1] == st.map[k1] && m1[k2] == st.map[k2]);
            }
        }
        assert(ns.map == m2 && ns.active == na);
        assert forall|kk: int| 0 <= kk < q.len() && (#[trigger] ns.map[kk]).1 is Reg
            && (forall|i: int| 0 <= i < ns.active.len() ==> ns.active[i].name != q[kk].name) implies q[kk].end < q.last().start by {
            if kk < p.len() {
                assert(na[na.len() - 1].name == v.name);
                assert(kk != k);
                assert(m2[kk] == st.map[kk]);
                assert forall|i: int| 0 <= i < active.len() implies active[i].name != p[kk].name by {
                    if i != mi {
                        let j = if i < mi { i } else { i - 1 };
                        assert(na[j] == active[i]);
                    } else {
                        assert(last_key(st.map, active[mi].name) == k);
                    }
                }
                assert(p[kk].end < v.start);
                assert(q[kk] == p[kk]);
            } else {
                assert(na[na.len() - 1].name == q[kk].name);
            }
        }
        assert forall|kk: int| 0 <= kk < q.len() implies ((#[trigger] m2[kk]).1 matches Place::Stack(o)
            ==> -4 * ns.spills <= o <= -4 && (o as int) % 4 == 0) by {
            if kk < p.len() && kk != k { assert(m2[kk] == st.map[kk]); }
        }
        assert forall|k1: int, k2: int| 0 <= k1 < k2 < q.len() && (#[trigger] m2[k1]).1 is Stack
            implies (#[trigger] m2[k2]).1 != m2[k1].1 by {
            if k2 == p.len() {
            } else if k1 == k {
                assert(m2[k2] == st.map[k2]);
            } else if k2 == k {
                assert(m2[k1] == st.map[k1]);
            } else {
                assert(m2[k1] == st.map[k1] && m2[k2] == st.map[k2]);
            }
        }
    }
}

/// The step in which `v` itself goes to the stack.
proof fn lemma_step_spill_self(st: ScanState, p: Seq<Interval>, v: Interval)
    requires
        step_ready(st, p, v),
        st.free.union(released(st.active, st.map, v.start)) == Set::<u8>::empty(),
        !(keep_live(st.active, v.start).len() > 0
            && keep_live(st.active, v.start)[max_index(keep_live(st.active, v.start))].end > v.end),
    ensures
        scan_facts(scan_step(st, v), p.push(v)),
{
    let q = p.push(v);
    let rel = released(st.active, st.map, v.start);
    let free = st.free.union(rel);
    let active = keep_live(st.active, v.start);
    lemma_keep_live(st.active, v.start);
    lemma_step_common(st, p, v);
    let ns = scan_step(st, v);
    assert(q.last() == v);
    assert forall|kk: int| 0 <= kk < p.len() implies #[trigger] q[kk] == p[kk] by {}
    let m1 = assoc_insert(st.map, v.name, spill_place(st.spills));
    lemma_assoc_insert(st.map, v.name, spill_place(st.spills), v.name);
    assert(m1 == st.map.push((v.name, spill_place(st.spills))));
    assert(scan_facts(ns, q)) by {
        assert forall|kk: int| 0 <= kk < q.len() implies (#[trigger] m1[kk]).0 == q[kk].name by {
            if kk < p.len() { assert(m1[kk] == st.map[kk]); }
        }
        assert forall|i: int| 0 <= i < active.len() implies q[last_key(m1, #[trigger] active[i].name)] == active[i] by {
            assert(active[i].name != v.name) by {
                let w = choose|w: int| 0 <= w < st.active.len() && st.active[w] == active[i];
                assert(last_key(st.map, st.active[w].name) >= 0);
            }
            lemma_last_key_push(st.map, v.name, spill_place(st.spills), active[i].name);
        }
        assert forall|k1: int, k2: int| 0 <= k1 < k2 < q.len() && (#[trigger] m1[k1]).1 is Reg
            && (#[trigger] m1[k2]).1 is Reg && m1[k1].1 == m1[k2].1 implies q[k1].end < q[k2].start by {
            assert(m1[k1] == st.map[k1] && m1[k2] == st.map[k2]);
        }
        assert(ns.map == m1 && ns.active == active);
        assert forall|kk: int| 0 <= kk < q.len() && (#[trigger] ns.map[kk]).1 is Reg
            && (forall|i: int| 0 <= i < ns.active.len() ==> ns.active[i].name != q[kk].name) implies q[kk].end < q.last().start by {
            if kk < p.len() {
                assert(m1[kk] == st.map[kk]);
                assert(q[kk] == p[kk]);
                assert(p[kk].end < v.start);
            } else {
                assert(m1[kk].1 == spill_place(st.spills));
            }
        }
        assert forall|kk: int| 0 <= kk < q.len() implies ((#[trigger] m1[kk]).1 matches Place::Stack(o)
            ==> -4 * ns.spills <= o <= -4 && (o as int) % 4 == 0) by {
            if kk < p.len() { assert(m1[kk] == st.map[kk]); }
        }
        assert forall|k1: int, k2: int| 0 <= k1 < k2 < q.len() && (#[trigger] m1[k1]).1 is Stack
            implies (#[trigger] m1[k2]).1 != m1[k1].1 by {
            if k2 < p.len() { assert(m1[k1] == st.map[k1] && m1[k2] == st.map[k2]); }
            else { assert(m1[k1] == st.map[k1]); }
        }
    }
}

/// The step in which `v` takes a free register.
proof fn lemma_step_take_reg(st: ScanState, p: Seq<Interval>, v: Interval)
    requires
        step_ready(st, p, v),
        st.free.union(released(st.active, st.map, v.start)) != Set::<u8>::empty(),
    ensures
        scan_facts(scan_step(st, v), p.push(v)),
{
    let q = p.push(v);
    let rel = released(st.active, st.map, v.start);
    let free = st.free.union(rel);
    let active = keep_live(st.active, v.start);
    lemma_keep_live(st.active, v.start);
    lemma_step_common(st, p, v);
    let ns = scan_step(st, v);
    assert(q.last() == v);
    assert forall|kk: int| 0 <= kk < p.len() implies #[trigger] q[kk] == p[kk] by {}
    let r = pick_reg(free, st.next);
    let m1 = assoc_insert(st.map, v.name, Place::Reg(r));
    lemma_assoc_insert(st.map, v.name, Place::Reg(r), v.name);
    assert(m1 == st.map.push((v.name, Place::Reg(r))));
    assert(free.contains(r)) by {
        if !exists|x: u8| free.contains(x) {
            assert(free =~= Set::<u8>::empty());
        }
        let x = choose|x: u8| free.contains(x);
        lemma_pick_reg(free, st.next, x);
    }
    let na = active.push(v);
    assert(scan_facts(ns, q)) by {
        assert forall|kk: int| 0 <= kk < q.len() implies (#[trigger] m1[kk]).0 == q[kk].name by {
            if kk < p.len() { assert(m1[kk] == st.map[kk]); }
        }
        assert forall|i: int| 0 <= i < na.len() implies q[last_key(m1, #[trigger] na[i].name)] == na[i] by {
            if i < active.len() {
                assert(na[i] == active[i]);
                assert(active[i].name != v.name) by {
                    let w = choose|w: int| 0 <= w < st.active.len() && st.active[w] == active[i];
                    assert(last_key(st.map, st.active[w].name) >= 0);
                }
                lemma_last_key_push(st.map, v.name, Place::Reg(r), active[i].name);
                let idx = last_key(st.map, active[i].name);
                assert(p[idx] == active[i]);
                lemma_last_key(st.map, active[i].name);
                assert(q[idx] == p[idx]);
            } else {
                lemma_last_key_push(st.map, v.name, Place::Reg(r), v.name);
            }
        }
        assert forall|k1: int, k2: int| 0 <= k1 < k2 < q.len() && (#[trigger] m1[k1]).1 is Reg
            && (#[trigger] m1[k2]).1 is Reg && m1[k1].1 == m1[k2].1 implies q[k1].end < q[k2].start by {
            if k2 == p.len() {
                assert(m1[k1] == st.map[k1]);
                if exists|i: int| 0 <= i < active.len() && active[i].name == p[k1].name {
                    let i = choose|i: int| 0 <= i < active.len() && active[i].name == p[k1].name;
                    assert(last_key(st.map, active[i].name) == k1);
                }
            } else {
                assert(m1[k1] == st.map[k1] && m1[k2] == st.map[k2]);
            }
        }
        assert(ns.map == m1 && ns.active == na);
        assert forall|kk: int| 0 <= kk < q.len() && (#[trigger] ns.map[kk]).1 is Reg
            && (forall|i: int| 0 <= i < ns.active.len() ==> ns.active[i].name != q[kk].name) implies q[kk].end < q.last().start by {
            if kk < p.len() {
                assert(m1[kk] == st.map[kk]);
                assert forall|i: int| 0 <= i < active.len() implies active[i].name != p[kk].name by {
                    assert(na[i] == active[i]);
                }
            } else {
                assert(na[na.len() - 1].name == q[kk].name);
            }
        }
        assert forall|kk: int| 0 <= kk < q.len() implies ((#[trigger] m1[kk]).1 matches Place::Stack(o)
            ==> -4 * ns.spills <= o <= -4 && (o as int) % 4 == 0) by {
            if kk < p.len() { assert(m1[kk] == st.map[kk]); }
        }
        assert forall|k1: int, k2: int| 0 <= k1 < k2 < q.len() && (#[trigger] m1[k1]).1 is Stack
            implies (#[trigger] m1[k2]).1 != m1[k1].1 by {
            if k2 < p.len() { assert(m1[k1] == st.map[k1] && m1[k2] == st.map[k2]); }
            else { assert(m1[k1] == st.map[k1]); }
        }
    }
}

/// One step of the scan keeps its facts.
proof fn lemma_scan_facts_step(st: ScanState, p: Seq<Interval>, v: Interval)
    requires
        step_ready(st, p, v),
    ensures
        scan_facts(scan_step(st, v), p.push(v)),
{
    let free = st.free.union(released(st.active, st.map, v.start));
    let active = keep_live(st.active, v.start);
    if free == Set::<u8>::empty() {
        if active.len() > 0 && active[max_index(active)].end > v.end {
            lemma_step_spill_other(st, p, v);
        } else {
            lemma_step_spill_self(st, p, v);
        }
    } else {
        lemma_step_take_reg(st, p, v);
    }
}

proof fn lemma_keep_live_keeps(s: Seq<Interval>, start: usize, i: int)
    requires
        0 <= i < s.len(),
        !(s[i].end < start),
    ensures
        exists|j: int| 0 <= j < keep_live(s, start).len() && keep_live(s, start)[j] == s[i],
    decreases s.len(),
{
    let t = s.drop_last();
    let k = keep_live(s, start);
    let kt = keep_live(t, start);
    if i < s.len() - 1 {
        assert(t[i] == s[i]);
        lemma_keep_live_keeps(t, start, i);
        let j = choose|j: int| 0 <= j < kt.len() && kt[j] == t[i];
        if s.last().end < start {
            assert(k == kt);
        } else {
            assert(k == kt.push(s.last()));
            assert(k[j] == kt[j]);
        }
        assert(0 <= j < k.len() && k[j] == s[i]);
    } else {
        assert(k == kt.push(s.last()));
        assert(k[k.len() - 1] == s[i]);
    }
}


proof fn lemma_insert_has(s: Seq<Interval>, x: Interval)
    ensures
        insert_by_start(s, x).contains(x),
        forall|i: int| 0 <= i < s.len() ==> insert_by_start(s, x).contains(#[trigger] s[i]),
    decreases s.len(),
{
    lemma_insert_len(s, x);
    let r = insert_by_start(s, x);
    if s.len() == 0 {
        assert(r[0] == x);
    } else if s.last().start <= x.start {
        assert(r[s.len() as int] == x);
        assert forall|i: int| 0 <= i < s.len() implies r.contains(#[trigger] s[i]) by {
            assert(r[i] == s[i]);
        }
    } else {
        let t = s.drop_last();
        lemma_insert_has(t, x);
        lemma_insert_len(t, x);
        let it = insert_by_start(t, x);
        let w = choose|w: int| 0 <= w < it.len() && it[w] == x;
        assert(r[w] == x);
        assert forall|i: int| 0 <= i < s.len() implies r.contains(#[trigger] s[i]) by {
            if i == s.len() - 1 {
                assert(r[r.len() - 1] == s[i]);
            } else {
                assert(t[i] == s[i]);
                let u = choose|u: int| 0 <= u < it.len() && it[u] == t[i];
                assert(r[u] == it[u]);
            }
        }
    }
}

/// Sorting loses no interval.
proof fn lemma_sort_has(s: Seq<Interval>)
    ensures
        forall|i: int| 0 <= i < s.len() ==> sort_by_start(s).contains(#[trigger] s[i]),
    decreases s.len(),
{
    if s.len() > 0 {
        let t = s.drop_last();
        lemma_sort_has(t);
        let st = sort_by_start(t);
        lemma_insert_has(st, s.last());
        assert forall|i: int| 0 <= i < s.len() implies sort_by_start(s).contains(#[trigger] s[i]) by {
            if i < s.len() - 1 {
                assert(t[i] == s[i]);
                let u = choose|u: int| 0 <= u < st.len() && st[u] == t[i];
                assert(st.contains(st[u]));
            }
        }
    }
}

/// The facts of the scan hold after it has taken any values in order of start.
proof fn lemma_scan_run_facts(vars: Seq<Interval>)
    requires
        names_distinct(vars),
        starts_sorted(vars),
        vars.len() < 0x1000_0000,
    ensures
        scan_wf(scan_run(initial_scan(), vars)),
        scan_facts(scan_run(initial_scan(), vars), vars),
        scan_run(initial_scan(), vars).spills <= vars.len(),
    decreases vars.len(),
{
    if vars.len() > 0 {
        let t = vars.drop_last();
        let v = vars.last();
        assert forall|i: int| 0 <= i < t.len() implies #[trigger] t[i] == vars[i] by {}
        lemma_scan_run_facts(t);
        let st = scan_run(initial_scan(), t);
        assert(fresh(st, v.name)) by {
            lemma_last_key(st.map, v.name);
            let k = last_key(st.map, v.name);
            if k >= 0 {
                assert(st.map[k].0 == t[k].name);
                assert(vars[k].name != vars[vars.len() - 1].name);
            }
        }
        lemma_scan_step_wf(st, v);
        assert(t.push(v) =~= vars);
        lemma_scan_facts_step(st, t, v);
    }
}

/// Linear scan gives every value exactly one entry: the entries follow the
/// values in order of start, and each value's name has an entry.
pub proof fn lemma_linear_scan_places_every_value(vars: Seq<Interval>)
    requires
        names_distinct(vars),
        vars.len() < 0x1000_0000,
    ensures
        ({
            let out = spec_linear_scan_from(initial_scan(), vars).0;
            &&& out.len() == vars.len()
            &&& forall|k: int| 0 <= k < out.len() ==> (#[trigger] out[k]).0 == sort_by_start(vars)[k].name
            &&& forall|i: int| 0 <= i < vars.len() ==> exists|k: int| 0 <= k < out.len() && (#[trigger] out[k]).0 == #[trigger] vars[i].name
            &&& forall|k1: int, k2: int| 0 <= k1 < k2 < out.len() ==> (#[trigger] out[k1]).0 != (#[trigger] out[k2]).0
        }),
{
    let s = sort_by_start(vars);
    lemma_sort_elems(vars);
    lemma_sort_sorted(vars);
    lemma_sort_has(vars);
    lemma_scan_run_facts(s);
    let fin = scan_run(initial_scan(), s);
    let out = spec_linear_scan_from(initial_scan(), vars).0;
    assert forall|k: int| 0 <= k < out.len() implies (#[trigger] out[k]).0 == s[k].name by {
        assert(out[k].0 == fin.map[k].0);
    }
    assert forall|i: int| 0 <= i < vars.len() implies exists|k: int| 0 <= k < out.len() && (#[trigger] out[k]).0 == #[trigger] vars[i].name by {
        let k = choose|k: int| 0 <= k < s.len() && s[k] == vars[i];
        assert(out[k].0 == s[k].name);
    }
}

/// Linear scan never gives one register to two values whose live intervals
/// overlap: of two values given the same register, the earlier one ends
/// before the later one starts.
pub proof fn lemma_linear_scan_shared_registers_disjoint(vars: Seq<Interval>)
    requires
        names_distinct(vars),
        vars.len() < 0x1000_0000,
    ensures
        ({
            let s = sort_by_start(vars);
            let m = scan_run(initial_scan(), s).map;
            forall|k1: int, k2: int| 0 <= k1 < k2 < m.len() && (#[trigger] m[k1]).1 is Reg && m[k1].1 == (#[trigger] m[k2]).1
                ==> s[k1].end < s[k2].start
        }),
{
    let s = sort_by_start(vars);
    lemma_sort_elems(vars);
    lemma_sort_sorted(vars);
    lemma_scan_run_facts(s);
}

/// Linear scan uses only the 22 allocatable registers, and the stack slots it
/// hands out are distinct, 4-byte aligned and inside the frame it reports.
pub proof fn lemma_linear_scan_places_in_range(vars: Seq<Interval>)
    requires
        names_distinct(vars),
        vars.len() < 0x1000_0000,
    ensures
        ({
            let fin = scan_run(initial_scan(), sort_by_start(vars));
            let frame = spec_linear_scan_from(initial_scan(), vars).1;
            &&& frame == 4 * fin.spills
            &&& frame <= 4 * vars.len()
            &&& fin.map.len() == vars.len()
            &&& forall|k: int| 0 <= k < fin.map.len() ==> ((#[trigger] fin.map[k]).1 matches Place::Reg(r) ==> r < reg_count())
            &&& forall|k: int| 0 <= k < fin.map.len() ==> ((#[trigger] fin.map[k]).1 matches Place::Stack(o)
                ==> 0 <= frame + o <= frame - 4 && (o as int) % 4 == 0)
            &&& forall|k1: int, k2: int| 0 <= k1 < k2 < fin.map.len() && (#[trigger] fin.map[k1]).1 is Stack
                ==> (#[trigger] fin.map[k2]).1 != fin.map[k1].1
        }),
{
    let s = sort_by_start(vars);
    lemma_sort_elems(vars);
    lemma_sort_sorted(vars);
    lemma_scan_run_facts(s);
}


/// The number of entries that put a value on the stack.
pub open spec fn stack_count(m: Seq<(Seq<char>, Place)>) -> nat
    decreases m.len(),
{
    if m.len() == 0 {
        0
    } else {
        stack_count(m.drop_last()) + if m.last().1 is Stack { 1nat } else { 0nat }
    }
}

proof fn lemma_stack_count_push(m: Seq<(Seq<char>, Place)>, e: (Seq<char>, Place))
    ensures
        stack_count(m.push(e)) == stack_count(m) + if e.1 is Stack { 1nat } else { 0nat },
{
    assert(m.push(e).drop_last() =~= m);
}

proof fn lemma_stack_count_update(m: Seq<(Seq<char>, Place)>, k: int, e: (Seq<char>, Place))
    requires
        0 <= k < m.len(),
        m[k].1 is Reg,
        e.1 is Stack,
    ensures
        stack_count(m.update(k, e)) == stack_count(m) + 1,
    decreases m.len(),
{
    if k == m.len() - 1 {
        assert(m.update(k, e).drop_last() =~= m.drop_last());
    } else {
        lemma_stack_count_update(m.drop_last(), k, e);
        assert(m.update(k, e).drop_last() =~= m.drop_last().update(k, e));
    }
}

/// Each step of the scan hands out one stack slot per value it puts on the stack.
proof fn lemma_scan_step_count(st: ScanState, v: Interval)
    requires
        scan_wf(st),
        fresh(st, v.name),
        stack_count(st.map) == st.spills,
    ensures
        stack_count(scan_step(st, v).map) == scan_step(st, v).spills,
{
    let free = st.free.union(released(st.active, st.map, v.start));
    let active = keep_live(st.active, v.start);
    lemma_keep_live(st.active, v.start);
    lemma_assoc_insert(st.map, v.name, spill_place(st.spills), v.name);
    if free == Set::<u8>::empty() {
        if active.len() > 0 && active[max_index(active)].end > v.end {
            let mi = max_index(active);
            lemma_max_index(active);
            let mx = active[mi];
            let w = choose|w: int| 0 <= w < st.active.len() && st.active[w] == mx;
            let k = last_key(st.map, mx.name);
            lemma_last_key(st.map, mx.name);
            assert(k >= 0 && st.map[k].1 is Reg);
            let held = st.map[k].1;
            let m1 = assoc_insert(st.map, mx.name, spill_place(st.spills));
            lemma_assoc_insert(st.map, mx.name, spill_place(st.spills), mx.name);
            lemma_assoc_insert(st.map, mx.name, spill_place(st.spills), v.name);
            assert(m1 == st.map.update(k, (mx.name, spill_place(st.spills))));
            lemma_stack_count_update(st.map, k, (mx.name, spill_place(st.spills)));
            assert(mx.name != v.name);
            lemma_assoc_insert(m1, v.name, held, v.name);
            lemma_stack_count_push(m1, (v.name, held));
        } else {
            lemma_stack_count_push(st.map, (v.name, spill_place(st.spills)));
        }
    } else {
        let r = pick_reg(free, st.next);
        lemma_assoc_insert(st.map, v.name, Place::Reg(r), v.name);
        lemma_stack_count_push(st.map, (v.name, Place::Reg(r)));
    }
}

proof fn lemma_scan_run_count(vars: Seq<Interval>)
    requires
        names_distinct(vars),
        starts_sorted(vars),
        vars.len() < 0x1000_0000,
    ensures
        stack_count(scan_run(initial_scan(), vars).map) == scan_run(initial_scan(), vars).spills,
    decreases vars.len(),
{
    if vars.len() > 0 {
        let t = vars.drop_last();
        let v = vars.last();
        assert forall|i: int| 0 <= i < t.len() implies #[trigger] t[i] == vars[i] by {}
        lemma_scan_run_count(t);
        lemma_scan_run_facts(t);
        let st = scan_run(initial_scan(), t);
        assert(fresh(st, v.name)) by {
            lemma_last_key(st.map, v.name);
            let k = last_key(st.map, v.name);
            if k >= 0 {
                assert(st.map[k].0 == t[k].name);
                assert(vars[k].name != vars[vars.len() - 1].name);
            }
        }
        lemma_scan_step_count(st, v);
    }
}

/// The number of locations that are stack slots (their text ends with `(sp)`).
pub open spec fn spilled_count(out: Seq<(Seq<char>, Seq<char>)>) -> nat
    decreases out.len(),
{
    if out.len() == 0 {
        0
    } else {
        spilled_count(out.drop_last()) + if ends_with(out.last().1, "(sp)"@) { 1nat } else { 0nat }
    }
}

proof fn lemma_reg_name_not_stack(r: u8)
    ensures
        !ends_with(reg_name(r), "(sp)"@),
{
    reveal_strlit("(sp)");
    let n: nat = if r < 4 { (r + 3) as nat } else if r < 16 { (r - 4) as nat } else { (r - 14) as nat };
    lemma_dec_digits_shape(n);
    let s = reg_name(r);
    assert(s.last() == dec_digits(n).last());
    if ends_with(s, "(sp)"@) {
        assert(s.subrange(s.len() - 4, s.len() as int)[3] == s.last());
    }
}

proof fn lemma_dec_digits_shape(n: nat)
    ensures
        dec_digits(n).len() > 0,
        dec_digits(n).last() != ')',
    decreases n,
{
    if n >= 10 {
        lemma_dec_digits_shape(n / 10);
    }
}

proof fn lemma_render_count(m: Seq<(Seq<char>, Place)>, size: int)
    ensures
        spilled_count(render_map(m, size)) == stack_count(m),
    decreases m.len(),
{
    reveal_strlit("(sp)");
    if m.len() > 0 {
        lemma_render_count(m.drop_last(), size);
        assert(render_map(m, size).drop_last() =~= render_map(m.drop_last(), size));
        let e = m.last();
        match e.1 {
            Place::Reg(r) => {
                lemma_reg_name_not_stack(r);
            },
            Place::Stack(o) => {
                let t = stack_text(if o < 0 { size + o } else { o as int });
                assert(t.subrange(t.len() - 4, t.len() as int) =~= "(sp)"@);
            },
        }
    }
}

/// The frame the linear scan reports holds exactly the values it puts on the
/// stack: it is 4 bytes times the number of locations that are stack slots.
pub proof fn lemma_linear_scan_frame_counts_spills(vars: Seq<Interval>)
    requires
        names_distinct(vars),
        vars.len() < 0x1000_0000,
    ensures
        spec_linear_scan_from(initial_scan(), vars).1 == 4 * spilled_count(spec_linear_scan_from(initial_scan(), vars).0),
{
    let s = sort_by_start(vars);
    lemma_sort_elems(vars);
    lemma_sort_sorted(vars);
    lemma_scan_run_count(s);
    let fin = scan_run(initial_scan(), s);
    lemma_render_count(fin.map, (4 * fin.spills) as int);
}

/// True when no value after the `k`-th shares its slot.
pub open spec fn slot_last(slot_of: Seq<(Seq<char>, nat)>, k: int) -> bool {
    forall|k2: int| k < k2 < slot_of.len() ==> #[trigger] slot_of[k2].1 != slot_of[k].1
}

/// The facts the pure-stack allocator keeps while it takes the values `p` in order.
pub open spec fn slot_facts(st: SlotState, p: Seq<Interval>) -> bool {
    &&& st.slot_of.len() == p.len()
    &&& forall|k: int| 0 <= k < p.len() ==> (#[trigger] st.slot_of[k]).0 == p[k].name && st.slot_of[k].1 < st.last_ends.len()
    // a slot remembers the end of its last occupant
    &&& forall|k: int| 0 <= k < p.len() && slot_last(st.slot_of, k) ==> st.last_ends[(#[trigger] st.slot_of[k]).1 as int] == p[k].end
    // values that share a slot do not overlap
    &&& forall|k1: int, k2: int| 0 <= k1 < k2 < p.len() && (#[trigger] st.slot_of[k1]).1 == (#[trigger] st.slot_of[k2]).1
        ==> p[k1].end < p[k2].start
}

proof fn lemma_slot_facts_step(st: SlotState, p: Seq<Interval>, v: Interval)
    requires
        slot_facts(st, p),
        forall|k: int| 0 <= k < p.len() ==> #[trigger] p[k].start <= v.start,
    ensures
        slot_facts(slot_step(st, v), p.push(v)),
{
    let q = p.push(v);
    let ns = slot_step(st, v);
    let f = first_free_slot(st.last_ends, v.start);
    lemma_first_free_slot(st.last_ends, v.start);
    assert(q.last() == v);
    assert forall|kk: int| 0 <= kk < p.len() implies #[trigger] q[kk] == p[kk] by {}
    let n = st.last_ends.len();
    let slot: nat = if f >= 0 { f as nat } else { n };
    assert(ns.slot_of == st.slot_of.push((v.name, slot)));
    assert forall|kk: int| 0 <= kk < p.len() implies #[trigger] ns.slot_of[kk] == st.slot_of[kk] by {}
    assert forall|kk: int| 0 <= kk < q.len() && slot_last(ns.slot_of, kk)
        implies ns.last_ends[(#[trigger] ns.slot_of[kk]).1 as int] == q[kk].end by {
        if kk < p.len() {
            assert(ns.slot_of[p.len() as int].1 != ns.slot_of[kk].1);
            assert(slot_last(st.slot_of, kk)) by {
                assert forall|k2: int| kk < k2 < st.slot_of.len() implies #[trigger] st.slot_of[k2].1 != st.slot_of[kk].1 by {
                    assert(ns.slot_of[k2] == st.slot_of[k2]);
                }
            }
        }
    }
    assert forall|k1: int, k2: int| 0 <= k1 < k2 < q.len() && (#[trigger] ns.slot_of[k1]).1 == (#[trigger] ns.slot_of[k2]).1
        implies q[k1].end < q[k2].start by {
        if k2 == p.len() {
            assert(f >= 0);
            if slot_last(st.slot_of, k1) {
                assert(st.last_ends[st.slot_of[k1].1 as int] == p[k1].end);
            } else {
                let k3 = choose|k3: int| k1 < k3 < st.slot_of.len() && #[trigger] st.slot_of[k3].1 == st.slot_of[k1].1;
                assert(p[k1].end < p[k3].start);
            }
        }
    }
}

proof fn lemma_slot_run_facts(vars: Seq<Interval>)
    requires
        starts_sorted(vars),
    ensures
        slot_facts(slot_run(vars), vars),
    decreases vars.len(),
{
    if vars.len() > 0 {
        let t = vars.drop_last();
        assert forall|i: int| 0 <= i < t.len() implies #[trigger] t[i] == vars[i] by {}
        lemma_slot_run_facts(t);
        assert(t.push(vars.last()) =~= vars);
        lemma_slot_facts_step(slot_run(t), t, vars.last());
    }
}

/// The pure-stack allocator gives every value exactly one entry, in order
/// of start, each an `offset(sp)` of a 4-byte slot inside the frame it reports.
#[verifier::spinoff_prover]
#[verifier::rlimit(40)]
pub proof fn lemma_no_alloc_places_every_value(vars: Seq<Interval>)
    ensures
        ({
            let s = sort_by_start(vars);
            let st = slot_run(s);
            let n = st.last_ends.len();
            let (out, frame) = spec_no_alloc(vars);
            &&& frame == 4 * n
            &&& out.len() == vars.len()
            &&& forall|k: int| 0 <= k < out.len() ==> {
                &&& (#[trigger] out[k]).0 == s[k].name
                &&& out[k].1 == stack_text(slot_offset(n, st.slot_of[k].1))
                &&& 0 <= slot_offset(n, st.slot_of[k].1) <= frame - 4
                &&& slot_offset(n, st.slot_of[k].1) % 4 == 0
            }
            &&& forall|i: int| 0 <= i < vars.len() ==> exists|k: int| 0 <= k < out.len() && (#[trigger] out[k]).0 == #[trigger] vars[i].name
        }),
{
    let s = sort_by_start(vars);
    lemma_sort_elems(vars);
    lemma_sort_sorted(vars);
    lemma_sort_has(vars);
    lemma_slot_run_facts(s);
    let st = slot_run(s);
    let n = st.last_ends.len();
    let out = spec_no_alloc(vars).0;
    assert forall|k: int| 0 <= k < out.len() implies (#[trigger] out[k]).0 == s[k].name
        && out[k].1 == stack_text(slot_offset(n, st.slot_of[k].1))
        && 0 <= slot_offset(n, st.slot_of[k].1) <= 4 * n - 4
        && slot_offset(n, st.slot_of[k].1) % 4 == 0 by {
        assert(st.slot_of[k].1 < n);
        let j = st.slot_of[k].1;
        assert(4 * n - 4 * (j + 1) == 4 * (n - j - 1));
    }
    assert forall|i: int| 0 <= i < vars.len() implies exists|k: int| 0 <= k < out.len() && (#[trigger] out[k]).0 == #[trigger] vars[i].name by {
        let k = choose|k: int| 0 <= k < s.len() && s[k] == vars[i];
        assert(out[k].0 == s[k].name);
    }
}

/// The pure-stack allocator lets two values share a slot only when the
/// earlier one ends before the later one starts; values in different slots
/// get different offsets.
pub proof fn lemma_no_alloc_shared_slots_disjoint(vars: Seq<Interval>)
    ensures
        ({
            let s = sort_by_start(vars);
            let st = slot_run(s);
            let n = st.last_ends.len();
            &&& forall|k1: int, k2: int| 0 <= k1 < k2 < st.slot_of.len() && (#[trigger] st.slot_of[k1]).1 == (#[trigger] st.slot_of[k2]).1
                ==> s[k1].end < s[k2].start
            &&& forall|k1: int, k2: int| 0 <= k1 < st.slot_of.len() && 0 <= k2 < st.slot_of.len()
                && (#[trigger] st.slot_of[k1]).1 != (#[trigger] st.slot_of[k2]).1
                ==> slot_offset(n, st.slot_of[k1].1) != slot_offset(n, st.slot_of[k2].1)
        }),
{
    let s = sort_by_start(vars);
    lemma_sort_sorted(vars);
    lemma_slot_run_facts(s);
}

/// True when the live interval of `v` contains the point `x`.
pub open spec fn covers(v: Interval, x: int) -> bool {
    v.start <= x <= v.end
}

/// How many of the intervals contain the point `x`.
pub open spec fn covering(p: Seq<Interval>, x: int) -> nat
    decreases p.len(),
{
    if p.len() == 0 {
        0
    } else {
        covering(p.drop_last(), x) + if covers(p.last(), x) { 1nat } else { 0nat }
    }
}

proof fn lemma_covering_insert(s: Seq<Interval>, v: Interval, x: int)
    ensures
        covering(insert_by_start(s, v), x) == covering(s, x) + if covers(v, x) { 1nat } else { 0nat },
    decreases s.len(),
{
    if s.len() == 0 {
        assert(seq![v].drop_last() =~= Seq::<Interval>::empty());
        assert(seq![v].last() == v);
        assert(covering(seq![v], x) == covering(Seq::<Interval>::empty(), x) + if covers(v, x) { 1nat } else { 0nat });
    } else if s.last().start <= v.start {
        assert(s.push(v).drop_last() =~= s);
        assert(s.push(v).last() == v);
    } else {
        lemma_covering_insert(s.drop_last(), v, x);
        let r = insert_by_start(s.drop_last(), v);
        assert(r.push(s.last()).drop_last() =~= r);
        assert(r.push(s.last()).last() == s.last());
        assert(insert_by_start(s, v) == r.push(s.last()));
        assert(covering(r.push(s.last()), x) == covering(r, x) + if covers(s.last(), x) { 1nat } else { 0nat });
        assert(covering(s, x) == covering(s.drop_last(), x) + if covers(s.last(), x) { 1nat } else { 0nat });
    }
}

/// Sorting keeps how many intervals contain each point.
proof fn lemma_covering_sort(s: Seq<Interval>, x: int)
    ensures
        covering(sort_by_start(s), x) == covering(s, x),
    decreases s.len(),
{
    if s.len() > 0 {
        lemma_covering_sort(s.drop_last(), x);
        lemma_covering_insert(sort_by_start(s.drop_last()), s.last(), x);
    }
}

/// The slots of the first `k` values that contain `x`.
pub open spec fn slots_at(slot_of: Seq<(Seq<char>, nat)>, p: Seq<Interval>, x: int, k: int) -> Set<int>
    decreases k,
{
    if k <= 0 {
        Set::empty()
    } else {
        let r = slots_at(slot_of, p, x, k - 1);
        if covers(p[k - 1], x) { r.insert(slot_of[k - 1].1 as int) } else { r }
    }
}

/// True when values that share a slot do not overlap.
pub open spec fn slots_disjoint(slot_of: Seq<(Seq<char>, nat)>, p: Seq<Interval>) -> bool {
    forall|k1: int, k2: int| 0 <= k1 < k2 < p.len() && (#[trigger] slot_of[k1]).1 == (#[trigger] slot_of[k2]).1
        ==> p[k1].end < p[k2].start
}

/// Values that contain one point are in distinct slots, so there are as many
/// such slots as such values.
proof fn lemma_slots_at(slot_of: Seq<(Seq<char>, nat)>, p: Seq<Interval>, x: int, k: int)
    requires
        slots_disjoint(slot_of, p),
        0 <= k <= p.len(),
    ensures
        slots_at(slot_of, p, x, k).finite(),
        slots_at(slot_of, p, x, k).len() == covering(p.take(k), x),
        forall|j: int| #[trigger] slots_at(slot_of, p, x, k).contains(j)
            ==> exists|i: int| 0 <= i < k && covers(p[i], x) && slot_of[i].1 == j,
        forall|i: int| 0 <= i < k && #[trigger] covers(p[i], x) ==> slots_at(slot_of, p, x, k).contains(slot_of[i].1 as int),
    decreases k,
{
    if k == 0 {
        assert(p.take(0) =~= Seq::<Interval>::empty());
    } else {
        lemma_slots_at(slot_of, p, x, k - 1);
        let r = slots_at(slot_of, p, x, k - 1);
        assert(p.take(k).drop_last() =~= p.take(k - 1));
        assert(p.take(k).last() == p[k - 1]);
        assert(covering(p.take(k), x) == covering(p.take(k - 1), x) + if covers(p[k - 1], x) { 1nat } else { 0nat });
        if covers(p[k - 1], x) {
            let e = slot_of[k - 1].1 as int;
            assert(!r.contains(e)) by {
                if r.contains(e) {
                    let i = choose|i: int| 0 <= i < k - 1 && covers(p[i], x) && slot_of[i].1 == e;
                    assert(slot_of[i].1 == slot_of[k - 1].1);
                    assert(p[i].end < p[k - 1].start);
                }
            }
            assert(r.insert(e).len() == r.len() + 1);
        }
    }
}

/// No point lies in more values than there are slots.
proof fn lemma_covering_at_most_slots(st: SlotState, p: Seq<Interval>, x: int)
    requires
        slot_facts(st, p),
    ensures
        covering(p, x) <= st.last_ends.len(),
{
    lemma_slots_at(st.slot_of, p, x, p.len() as int);
    assert(p.take(p.len() as int) =~= p);
    let n = st.last_ends.len() as int;
    vstd::set_lib::lemma_int_range(0, n);
    assert(slots_at(st.slot_of, p, x, p.len() as int).subset_of(vstd::set_lib::set_int_range(0, n))) by {
        assert forall|j: int| #[trigger] slots_at(st.slot_of, p, x, p.len() as int).contains(j) implies vstd::set_lib::set_int_range(0, n).contains(j) by {
            let i = choose|i: int| 0 <= i < p.len() && covers(p[i], x) && st.slot_of[i].1 == j;
        }
    }
    vstd::set_lib::lemma_len_subset(slots_at(st.slot_of, p, x, p.len() as int), vstd::set_lib::set_int_range(0, n));
}

/// True when some value is the last occupant of slot `j`.
pub open spec fn slot_occupied(slot_of: Seq<(Seq<char>, nat)>, j: int) -> bool {
    exists|i: int| 0 <= i < slot_of.len() && #[trigger] slot_of[i].1 == j && slot_last(slot_of, i)
}

/// Every slot has a last occupant, and some point lies in as many values as
/// there are slots.
proof fn lemma_slot_run_busy(vars: Seq<Interval>)
    requires
        starts_sorted(vars),
        forall|i: int| 0 <= i < vars.len() ==> #[trigger] vars[i].start <= vars[i].end,
    ensures
        forall|j: int| 0 <= j < slot_run(vars).last_ends.len() ==> #[trigger] slot_occupied(slot_run(vars).slot_of, j),
        slot_run(vars).last_ends.len() == 0 || exists|x: int| covering(vars, x) >= slot_run(vars).last_ends.len(),
    decreases vars.len(),
{
    if vars.len() > 0 {
        let t = vars.drop_last();
        let v = vars.last();
        assert forall|i: int| 0 <= i < t.len() implies #[trigger] t[i] == vars[i] by {}
        assert(starts_sorted(t)) by {
            assert forall|i: int, j: int| 0 <= i < j < t.len() implies t[i].start <= t[j].start by {
                assert(t[i] == vars[i] && t[j] == vars[j]);
            }
        }
        lemma_slot_run_busy(t);
        lemma_slot_run_facts(t);
        let st = slot_run(t);
        let ns = slot_run(vars);
        let n = st.last_ends.len();
        let f = first_free_slot(st.last_ends, v.start);
        lemma_first_free_slot(st.last_ends, v.start);
        let slot: nat = if f >= 0 { f as nat } else { n };
        assert(ns.slot_of == st.slot_of.push((v.name, slot)));
        assert forall|kk: int| 0 <= kk < t.len() implies #[trigger] ns.slot_of[kk] == st.slot_of[kk] by {}
        assert(vars[vars.len() - 1].start <= vars[vars.len() - 1].end);
        assert(covering(vars, v.start as int) == covering(t, v.start as int) + 1);
        // the last occupants: the new value for its slot, the earlier ones for the others
        assert forall|j: int| 0 <= j < ns.last_ends.len() implies #[trigger] slot_occupied(ns.slot_of, j) by {
            if j == slot as int {
                assert(ns.slot_of[t.len() as int].1 == j);
                assert(slot_last(ns.slot_of, t.len() as int));
            } else {
                assert(slot_occupied(st.slot_of, j));
                let i = choose|i: int| 0 <= i < st.slot_of.len() && #[trigger] st.slot_of[i].1 == j && slot_last(st.slot_of, i);
                assert(ns.slot_of[i].1 == j);
                assert forall|k2: int| i < k2 < ns.slot_of.len() implies #[trigger] ns.slot_of[k2].1 != ns.slot_of[i].1 by {
                    if k2 < t.len() { assert(ns.slot_of[k2] == st.slot_of[k2]); }
                }
            }
        }
        if f >= 0 {
            if n > 0 {
                let x = choose|x: int| covering(t, x) >= n;
                assert(covering(vars, x) >= covering(t, x));
            }
        } else {
            // a new slot: every slot is busy at `v.start`
            lemma_slots_at(st.slot_of, t, v.start as int, t.len() as int);
            assert(t.take(t.len() as int) =~= t);
            vstd::set_lib::lemma_int_range(0, n as int);
            assert(vstd::set_lib::set_int_range(0, n as int).subset_of(slots_at(st.slot_of, t, v.start as int, t.len() as int))) by {
                assert forall|j: int| vstd::set_lib::set_int_range(0, n as int).contains(j)
                    implies #[trigger] slots_at(st.slot_of, t, v.start as int, t.len() as int).contains(j) by {
                    assert(slot_occupied(st.slot_of, j));
                    let i = choose|i: int| 0 <= i < st.slot_of.len() && #[trigger] st.slot_of[i].1 == j && slot_last(st.slot_of, i);
                    assert(st.last_ends[j] == t[i].end);
                    assert(!(v.start > st.last_ends[j]));
                    assert(t[i].start <= v.start) by {
                        assert(vars[i].start <= vars[vars.len() - 1].start);
                    }
                    assert(covers(t[i], v.start as int));
                }
            }
            vstd::set_lib::lemma_len_subset(vstd::set_lib::set_int_range(0, n as int), slots_at(st.slot_of, t, v.start as int, t.len() as int));
            assert(covering(vars, v.start as int) >= n + 1);
        }
    }
}

/// The pure-stack frame is as small as it can be: it holds 4 bytes for each
/// value live at the busiest point, no more and no less. No point lies in
/// more values than the frame has slots, and, when there is a value, some
/// point lies in exactly that many.
pub proof fn lemma_no_alloc_frame_is_peak(vars: Seq<Interval>)
    requires
        forall|i: int| 0 <= i < vars.len() ==> #[trigger] vars[i].start <= vars[i].end,
    ensures
        forall|x: int| 4 * #[trigger] covering(vars, x) <= spec_no_alloc(vars).1,
        vars.len() > 0 ==> exists|x: int| 4 * #[trigger] covering(vars, x) == spec_no_alloc(vars).1,
{
    let s = sort_by_start(vars);
    lemma_sort_elems(vars);
    lemma_sort_sorted(vars);
    lemma_slot_run_facts(s);
    let st = slot_run(s);
    assert forall|i: int| 0 <= i < s.len() implies #[trigger] s[i].start <= s[i].end by {
        assert(vars.contains(s[i]));
        let w = choose|w: int| 0 <= w < vars.len() && vars[w] == s[i];
    }
    lemma_slot_run_busy(s);
    assert forall|x: int| 4 * #[trigger] covering(vars, x) <= spec_no_alloc(vars).1 by {
        lemma_covering_sort(vars, x);
        lemma_covering_at_most_slots(st, s, x);
    }
    if vars.len() > 0 {
        assert(st.slot_of[0].1 < st.last_ends.len());
        let x = choose|x: int| covering(s, x) >= st.last_ends.len();
        lemma_covering_sort(vars, x);
        lemma_covering_at_most_slots(st, s, x);
        assert(4 * covering(vars, x) == spec_no_alloc(vars).1);
    }
}

/// True when no two entries have the same name.
pub open spec fn keys_distinct<V>(m: Seq<(Seq<char>, V)>) -> bool {
    forall|k1: int, k2: int| 0 <= k1 < k2 < m.len() ==> (#[trigger] m[k1]).0 != (#[trigger] m[k2]).0
}

proof fn lemma_assoc_insert_keys<V>(m: Seq<(Seq<char>, V)>, k: Seq<char>, v: V)
    requires
        keys_distinct(m),
    ensures
        keys_distinct(assoc_insert(m, k, v)),
        forall|q: Seq<char>| last_key(assoc_insert(m, k, v), q) >= 0 <==> (last_key(m, q) >= 0 || q == k),
{
    lemma_last_key(m, k);
    let r = assoc_insert(m, k, v);
    let i = last_key(m, k);
    if i >= 0 {
        assert(r == m.update(i, (k, v)));
        assert forall|k1: int, k2: int| 0 <= k1 < k2 < r.len() implies (#[trigger] r[k1]).0 != (#[trigger] r[k2]).0 by {
            if k1 != i && k2 != i { assert(r[k1] == m[k1] && r[k2] == m[k2]); }
            else if k1 == i { assert(r[k2] == m[k2]); assert(m[k1].0 == k); }
            else { assert(r[k1] == m[k1]); assert(m[k2].0 == k); }
        }
    } else {
        assert(r == m.push((k, v)));
        assert forall|k1: int, k2: int| 0 <= k1 < k2 < r.len() implies (#[trigger] r[k1]).0 != (#[trigger] r[k2]).0 by {
            if k2 < m.len() { assert(r[k1] == m[k1] && r[k2] == m[k2]); }
            else { assert(r[k1] == m[k1]); }
        }
    }
    assert forall|q: Seq<char>| last_key(r, q) >= 0 <==> (last_key(m, q) >= 0 || q == k) by {
        lemma_assoc_insert(m, k, v, q);
    }
}

/// Over any values, names given twice included, the scan keeps one entry
/// per name, and the names with an entry are those of the values taken.
proof fn lemma_scan_run_names(s: Seq<Interval>)
    requires
        s.len() < 0x1000_0000,
    ensures
        scan_ok(scan_run(initial_scan(), s)),
        keys_distinct(scan_run(initial_scan(), s).map),
        forall|q: Seq<char>| last_key(scan_run(initial_scan(), s).map, q) >= 0
            <==> exists|i: int| 0 <= i < s.len() && #[trigger] s[i].name == q,
    decreases s.len(),
{
    if s.len() == 0 {
        assert forall|q: Seq<char>| last_key(scan_run(initial_scan(), s).map, q) < 0 by {}
    } else {
        let t = s.drop_last();
        let v = s.last();
        lemma_scan_run_names(t);
        let st = scan_run(initial_scan(), t);
        lemma_scan_step_ok(st, v);
        let free = st.free.union(released(st.active, st.map, v.start));
        let active = keep_live(st.active, v.start);
        lemma_keep_live(st.active, v.start);
        let ns = scan_step(st, v);
        assert(forall|q: Seq<char>| last_key(ns.map, q) >= 0 <==> (last_key(st.map, q) >= 0 || q == v.name)) by {
            if free == Set::<u8>::empty() {
                if active.len() > 0 && active[max_index(active)].end > v.end {
                    let mi = max_index(active);
                    lemma_max_index(active);
                    let mx = active[mi];
                    let w = choose|w: int| 0 <= w < st.active.len() && st.active[w] == mx;
                    assert(last_key(st.map, mx.name) >= 0);
                    let held = st.map[last_key(st.map, mx.name)].1;
                    lemma_assoc_insert_keys(st.map, mx.name, spill_place(st.spills));
                    let m1 = assoc_insert(st.map, mx.name, spill_place(st.spills));
                    lemma_assoc_insert_keys(m1, v.name, held);
                } else {
                    lemma_assoc_insert_keys(st.map, v.name, spill_place(st.spills));
                }
            } else {
                lemma_assoc_insert_keys(st.map, v.name, Place::Reg(pick_reg(free, st.next)));
            }
        }
        assert(keys_distinct(ns.map)) by {
            if free == Set::<u8>::empty() {
                if active.len() > 0 && active[max_index(active)].end > v.end {
                    let mi = max_index(active);
                    let mx = active[mi];
                    let held = st.map[last_key(st.map, mx.name)].1;
                    lemma_assoc_insert_keys(st.map, mx.name, spill_place(st.spills));
                    let m1 = assoc_insert(st.map, mx.name, spill_place(st.spills));
                    lemma_assoc_insert_keys(m1, v.name, held);
                } else {
                    lemma_assoc_insert_keys(st.map, v.name, spill_place(st.spills));
                }
            } else {
                lemma_assoc_insert_keys(st.map, v.name, Place::Reg(pick_reg(free, st.next)));
            }
        }
        assert forall|q: Seq<char>| last_key(ns.map, q) >= 0 <==> exists|i: int| 0 <= i < s.len() && #[trigger] s[i].name == q by {
            if last_key(st.map, q) >= 0 {
                let i = choose|i: int| 0 <= i < t.len() && #[trigger] t[i].name == q;
                assert(s[i] == t[i]);
            }
            if q == v.name {
                assert(s[s.len() - 1].name == q);
            }
            if exists|i: int| 0 <= i < s.len() && #[trigger] s[i].name == q {
                let i = choose|i: int| 0 <= i < s.len() && #[trigger] s[i].name == q;
                if i < s.len() - 1 { assert(t[i] == s[i]); }
            }
        }
    }
}

/// Linear scan, whatever the names: the result has one entry per name, and
/// its names are exactly those of the values. A name given twice thus gets
/// one location, the one the scan recorded last for it: the later value
/// overrides the earlier.
pub proof fn lemma_linear_scan_one_entry_per_name(vars: Seq<Interval>)
    requires
        vars.len() < 0x1000_0000,
    ensures
        ({
            let out = spec_linear_scan_from(initial_scan(), vars).0;
            &&& forall|k1: int, k2: int| 0 <= k1 < k2 < out.len() ==> (#[trigger] out[k1]).0 != (#[trigger] out[k2]).0
            &&& forall|i: int| 0 <= i < vars.len() ==> exists|k: int| 0 <= k < out.len() && (#[trigger] out[k]).0 == #[trigger] vars[i].name
            &&& forall|k: int| 0 <= k < out.len() ==> exists|i: int| 0 <= i < vars.len() && (#[trigger] out[k]).0 == #[trigger] vars[i].name
        }),
{
    let s = sort_by_start(vars);
    lemma_sort_len(vars);
    lemma_sort_elems(vars);
    lemma_sort_has(vars);
    lemma_scan_run_names(s);
    let fin = scan_run(initial_scan(), s);
    let out = spec_linear_scan_from(initial_scan(), vars).0;
    assert forall|k: int| 0 <= k < out.len() implies (#[trigger] out[k]).0 == fin.map[k].0 by {}
    assert forall|i: int| 0 <= i < vars.len() implies exists|k: int| 0 <= k < out.len() && (#[trigger] out[k]).0 == #[trigger] vars[i].name by {
        let w = choose|w: int| 0 <= w < s.len() && s[w] == vars[i];
        assert(s[w].name == vars[i].name);
        lemma_last_key(fin.map, vars[i].name);
        let k = last_key(fin.map, vars[i].name);
        assert(out[k].0 == fin.map[k].0);
    }
    assert forall|k: int| 0 <= k < out.len() implies exists|i: int| 0 <= i < vars.len() && (#[trigger] out[k]).0 == #[trigger] vars[i].name by {
        let q = fin.map[k].0;
        lemma_last_key(fin.map, q);
        assert(last_key(fin.map, q) >= k);
        let w = choose|w: int| 0 <= w < s.len() && #[trigger] s[w].name == q;
        assert(vars.contains(s[w]));
        let i = choose|i: int| 0 <= i < vars.len() && vars[i] == s[w];
        assert(out[k].0 == vars[i].name);
    }
}

/// True when a location text names an allocatable register, or is
/// `offset(sp)` for a 4-byte slot inside a frame of `frame` bytes.
pub open spec fn location_in_frame(t: Seq<char>, frame: int) -> bool {
    (exists|r: u8| r < reg_count() && t == reg_name(r))
    || (exists|o: int| 0 <= o <= frame - 4 && o % 4 == 0 && t == stack_text(o))
}

/// The text of every location the linear scan gives: the name of one of the
/// 22 allocatable registers (`t3`-`t6`, `s0`-`s11`, `a2`-`a7`), or
/// `offset(sp)` for a 4-byte slot inside the frame it reports.
pub proof fn lemma_linear_scan_location_texts(vars: Seq<Interval>)
    requires
        names_distinct(vars),
        vars.len() < 0x1000_0000,
    ensures
        ({
            let (out, frame) = spec_linear_scan_from(initial_scan(), vars);
            forall|k: int| 0 <= k < out.len() ==> location_in_frame((#[trigger] out[k]).1, frame as int)
        }),
{
    lemma_linear_scan_places_in_range(vars);
    let fin = scan_run(initial_scan(), sort_by_start(vars));
    let (out, frame) = spec_linear_scan_from(initial_scan(), vars);
    assert forall|k: int| 0 <= k < out.len() implies location_in_frame((#[trigger] out[k]).1, frame as int) by {
        assert(out[k].1 == render_place(fin.map[k].1, frame as int));
        match fin.map[k].1 {
            Place::Reg(r) => {
                assert(fin.map[k].1 matches Place::Reg(rr) ==> rr < reg_count());
            },
            Place::Stack(o) => {
                assert(fin.map[k].1 matches Place::Stack(oo) ==> 0 <= frame + oo <= frame - 4 && (oo as int) % 4 == 0);
                assert((frame + o) % 4 == 0);
                assert(out[k].1 == stack_text(frame + o));
            },
        }
    }
}

} // verus!
