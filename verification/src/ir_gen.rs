//! Lowering of SysY parse trees to the intermediate representation: each
//! function becomes a list of labelled blocks, every local lives in an
//! `alloca` slot, and conditions branch with short-circuit evaluation.
use vstd::prelude::*;
use crate::check::checker::{CheckPair, Rule};
use crate::riscv_codegen::ir::{BinOp, CmpPred, Instr, IrBlock, IrFunction, IrGlobal, IrModule, IrValue};
use crate::riscv_codegen::pred_holds;
use crate::text::{dec_digits, push_nat, str_eq};
use crate::utils::radix_digit;

verus! {

// ---------------------------------------------------------------------------
// Views of the instructions being built.
// ---------------------------------------------------------------------------

/// A value by its view.
pub enum VV {
    Const(u64),
    Named(Seq<char>),
}

/// An instruction by its view.
pub enum IV {
    Alloca(Seq<char>),
    Load(Seq<char>, VV),
    Store(VV, VV),
    Binary(BinOp, Seq<char>, VV, VV),
    ICmp(CmpPred, Seq<char>, VV, VV),
    ZExt(Seq<char>, VV),
    Br(Seq<char>),
    CondBr(VV, Seq<char>, Seq<char>),
    Ret(Option<VV>),
    Other(Seq<char>),
}

pub open spec fn vv(v: IrValue) -> VV {
    match v {
        IrValue::Const(c) => VV::Const(c),
        IrValue::Named(n) => VV::Named(n@),
    }
}

pub open spec fn opt_vv(v: Option<IrValue>) -> Option<VV> {
    match v {
        Some(x) => Some(vv(x)),
        None => None,
    }
}

pub open spec fn iv(i: Instr) -> IV {
    match i {
        Instr::Alloca { result } => IV::Alloca(result@),
        Instr::Load { result, ptr } => IV::Load(result@, vv(ptr)),
        Instr::Store { value, ptr } => IV::Store(vv(value), vv(ptr)),
        Instr::Binary { op, result, lhs, rhs } => IV::Binary(op, result@, vv(lhs), vv(rhs)),
        Instr::ICmp { pred, result, lhs, rhs } => IV::ICmp(pred, result@, vv(lhs), vv(rhs)),
        Instr::ZExt { result, value } => IV::ZExt(result@, vv(value)),
        Instr::Br { target } => IV::Br(target@),
        Instr::CondBr { cond, true_target, false_target } => IV::CondBr(vv(cond), true_target@, false_target@),
        Instr::Ret { returned } => IV::Ret(opt_vv(returned)),
        Instr::Other { result } => IV::Other(result@),
    }
}

/// A block by its view: its label and its instructions.
pub open spec fn block_view(b: IrBlock) -> (Seq<char>, Seq<IV>) {
    (b.name@, b.instrs@.map_values(|i: Instr| iv(i)))
}

/// What a function under construction stands for.
pub struct BuildView {
    /// The blocks made so far, in order.
    pub blocks: Seq<(Seq<char>, Seq<IV>)>,
    /// The block new instructions go to.
    pub cur: nat,
    /// How many names have been made so far.
    pub made: nat,
    /// The visible names, innermost last: source name and the slot that holds it.
    pub scope: Seq<(Seq<char>, Seq<char>)>,
}

/// A fresh name: the base, a dot, and a counter that is never reused.
pub open spec fn fresh_name(st: BuildView, base: Seq<char>) -> Seq<char> {
    base + "."@ + dec_digits(st.made)
}

/// The state after making a name (the counter stops at the largest 64-bit
/// number, which no function comes near).
pub open spec fn bump(st: BuildView) -> BuildView {
    BuildView { made: if st.made < u64::MAX { st.made + 1 } else { st.made }, ..st }
}

/// The state after appending an instruction to the current block.
pub open spec fn emit(st: BuildView, i: IV) -> BuildView {
    BuildView {
        blocks: st.blocks.update(st.cur as int, (st.blocks[st.cur as int].0, st.blocks[st.cur as int].1.push(i))),
        ..st
    }
}

/// The state after appending a new, empty block with a fresh label, and the label.
pub open spec fn new_block(st: BuildView, base: Seq<char>) -> (BuildView, Seq<char>) {
    let l = fresh_name(st, base);
    (BuildView { blocks: st.blocks.push((l, Seq::empty())), ..bump(st) }, l)
}

/// The state after moving to the block with the given label (the last one so labelled).
pub open spec fn position(st: BuildView, l: Seq<char>) -> BuildView {
    BuildView { cur: block_index(st.blocks, l) as nat, ..st }
}

/// The index of the last block with the given label, or 0 when there is none.
pub open spec fn block_index(bs: Seq<(Seq<char>, Seq<IV>)>, l: Seq<char>) -> int
    decreases bs.len(),
{
    if bs.len() == 0 {
        0
    } else if bs.last().0 == l {
        bs.len() - 1
    } else {
        block_index(bs.drop_last(), l)
    }
}

/// True when the last instruction of the current block ends it.
pub open spec fn terminated(st: BuildView) -> bool {
    let is = st.blocks[st.cur as int].1;
    is.len() > 0 && (is.last() is Br || is.last() is CondBr || is.last() is Ret)
}

/// The state after ending the current block with a jump to `l`, unless it is ended.
pub open spec fn close(st: BuildView, l: Seq<char>) -> BuildView {
    if terminated(st) { st } else { emit(st, IV::Br(l)) }
}

/// The slot of a source name: the innermost binding.
pub open spec fn lookup(scope: Seq<(Seq<char>, Seq<char>)>, n: Seq<char>) -> Option<Seq<char>>
    decreases scope.len(),
{
    if scope.len() == 0 {
        None
    } else if scope.last().0 == n {
        Some(scope.last().1)
    } else {
        lookup(scope.drop_last(), n)
    }
}

/// True when the state can take instructions.
pub open spec fn build_wf(st: BuildView) -> bool {
    st.cur < st.blocks.len()
}

// ---------------------------------------------------------------------------
// Expressions.
// ---------------------------------------------------------------------------

/// The value of a digit string in a radix, when every character is a digit of it.
pub open spec fn digits_in(s: Seq<char>, radix: nat) -> Option<nat>
    decreases s.len(),
{
    if s.len() == 0 {
        Some(0)
    } else {
        match digits_in(s.drop_last(), radix) {
            None => None,
            Some(v) => if 0 <= radix_digit(s.last()) < radix {
                Some(v * radix + radix_digit(s.last()) as nat)
            } else {
                None
            },
        }
    }
}

/// The value of an integer literal: `0x`/`0X` then hexadecimal digits, `0`
/// then octal digits, or decimal digits; none when it does not fit 64 bits.
pub open spec fn literal_value(s: Seq<char>) -> Option<u64> {
    let d = if s.len() >= 2 && s[0] == '0' && (s[1] == 'x' || s[1] == 'X') {
        if s.len() > 2 { digits_in(s.skip(2), 16) } else { None }
    } else if s.len() > 1 && s[0] == '0' {
        digits_in(s.skip(1), 8)
    } else if s.len() > 0 {
        digits_in(s, 10)
    } else {
        None
    };
    match d {
        Some(v) => if v <= u64::MAX { Some(v as u64) } else { None },
        None => None,
    }
}

/// The arithmetic of an operator token, if it is one.
pub open spec fn arith_op(r: Rule) -> Option<BinOp> {
    match r {
        Rule::Plus => Some(BinOp::Add),
        Rule::Minus => Some(BinOp::Sub),
        Rule::Mul => Some(BinOp::Mul),
        Rule::Div => Some(BinOp::SDiv),
        Rule::Mod => Some(BinOp::SRem),
        _ => None,
    }
}

/// The comparison of an operator token, if it is one.
pub open spec fn cmp_op(r: Rule) -> Option<CmpPred> {
    match r {
        Rule::Less => Some(CmpPred::Slt),
        Rule::LessEqual => Some(CmpPred::Sle),
        Rule::Greater => Some(CmpPred::Sgt),
        Rule::GreaterEqual => Some(CmpPred::Sge),
        Rule::Equal => Some(CmpPred::Eq),
        Rule::NotEqual => Some(CmpPred::Ne),
        _ => None,
    }
}

/// The state and value after comparing two values: a comparison, then its
/// widening to a 32-bit 0 or 1.
pub open spec fn compare_s(st: BuildView, p: CmpPred, l: VV, r: VV) -> (BuildView, Option<VV>) {
    let c = fresh_name(st, "cmp"@);
    let s1 = emit(bump(st), IV::ICmp(p, c, l, r));
    let z = fresh_name(s1, "zext"@);
    (emit(bump(s1), IV::ZExt(z, VV::Named(c))), Some(VV::Named(z)))
}

/// The state and value after applying an operator token to two values; a
/// token that is no operator keeps the left value.
pub open spec fn apply_op(st: BuildView, op: Rule, l: VV, r: VV) -> (BuildView, Option<VV>) {
    match arith_op(op) {
        Some(b) => {
            let t = fresh_name(st, "bin"@);
            (emit(bump(st), IV::Binary(b, t, l, r)), Some(VV::Named(t)))
        },
        None => match cmp_op(op) {
            Some(p) => compare_s(st, p, l, r),
            None => (st, Some(l)),
        },
    }
}

/// The quotient of two integers rounded toward zero, as C and SysY divide.
pub open spec fn trunc_div(x: int, y: int) -> int {
    if (x >= 0) == (y > 0) || x % y == 0 { x / y } else { x / y + 1 }
}

/// What a source operator token computes from two integers: `+`, `-`, `*`,
/// and division and remainder rounded toward zero; nothing for a division
/// by zero or a token that is no arithmetic operator.
pub open spec fn token_value(op: Rule, x: int, y: int) -> Option<int> {
    match op {
        Rule::Plus => Some(x + y),
        Rule::Minus => Some(x - y),
        Rule::Mul => Some(x * y),
        Rule::Div => if y == 0 { None } else { Some(trunc_div(x, y)) },
        Rule::Mod => if y == 0 { None } else { Some(x - y * trunc_div(x, y)) },
        _ => None,
    }
}

/// What an arithmetic instruction computes from two integers: `add`,
/// `sub`, `mul`, and the signed `sdiv` and `srem`, which round toward zero
/// and are undefined for a zero divisor.
pub open spec fn binop_value(b: BinOp, x: int, y: int) -> Option<int> {
    match b {
        BinOp::Add => Some(x + y),
        BinOp::Sub => Some(x - y),
        BinOp::Mul => Some(x * y),
        BinOp::SDiv => if y == 0 { None } else { Some(trunc_div(x, y)) },
        BinOp::SRem => if y == 0 { None } else { Some(x - y * trunc_div(x, y)) },
    }
}

/// Each arithmetic token lowers to the instruction that computes it: the
/// operator appends one `Binary` instruction on the two values, named with a
/// fresh `bin` name that becomes the value, and that instruction computes
/// what the token does for every pair of integers (`a - b` gives `sub`,
/// `a % b` gives `srem`, and so on).
pub proof fn lemma_arith_token_lowers_to_its_operation(st: BuildView, op: Rule, l: VV, r: VV)
    requires
        op == Rule::Plus || op == Rule::Minus || op == Rule::Mul || op == Rule::Div || op == Rule::Mod,
    ensures
        apply_op(st, op, l, r).1 == Some(VV::Named(fresh_name(st, "bin"@))),
        exists|b: BinOp|
            #[trigger] emit(bump(st), IV::Binary(b, fresh_name(st, "bin"@), l, r)) == apply_op(st, op, l, r).0
            && forall|x: int, y: int| binop_value(b, x, y) == token_value(op, x, y),
{
    let b = arith_op(op)->0;
    assert(forall|x: int, y: int| binop_value(b, x, y) == token_value(op, x, y));
    assert(emit(bump(st), IV::Binary(b, fresh_name(st, "bin"@), l, r)) == apply_op(st, op, l, r).0);
}

/// What a source comparison token says of two integers, if it is one.
pub open spec fn token_compares(op: Rule, x: int, y: int) -> Option<bool> {
    match op {
        Rule::Less => Some(x < y),
        Rule::LessEqual => Some(x <= y),
        Rule::Greater => Some(x > y),
        Rule::GreaterEqual => Some(x >= y),
        Rule::Equal => Some(x == y),
        Rule::NotEqual => Some(x != y),
        _ => None,
    }
}

/// Each comparison token lowers to the comparison that decides it: an
/// `ICmp` on the two values named with a fresh `cmp` name, then its
/// widening to a 0 or 1 named with a fresh `zext` name, which becomes the
/// value; for every pair of integers the predicate holds exactly when the
/// token does (`a >= b` gives `sge`, `a != b` gives `ne`, and so on).
pub proof fn lemma_compare_token_lowers_to_its_predicate(st: BuildView, op: Rule, l: VV, r: VV)
    requires
        token_compares(op, 0, 0) is Some,
    ensures
        exists|p: CmpPred|
            #[trigger] compare_s(st, p, l, r) == apply_op(st, op, l, r)
            && forall|x: int, y: int| Some(pred_holds(p, x, y)) == token_compares(op, x, y),
        apply_op(st, op, l, r).1 == Some(VV::Named(fresh_name(bump(st), "zext"@))),
{
    let p = cmp_op(op)->0;
    assert(forall|x: int, y: int| Some(pred_holds(p, x, y)) == token_compares(op, x, y));
    assert(compare_s(st, p, l, r) == apply_op(st, op, l, r));
}

/// The state and value after an expression node. Chains (`AddExp`,
/// `MulExp`, `RelExp`, `EqExp`) apply their operators from left to right;
/// a variable is loaded from its slot; a unary minus subtracts from 0 and a
/// `!` compares with 0. A call, or a name with no slot, has no value.
pub open spec fn exp_s(st: BuildView, p: CheckPair) -> (BuildView, Option<VV>)
    decreases p, 2int,
{
    let k = p.inner@;
    match p.rule {
        Rule::Exp | Rule::ConstExp | Rule::InitVal | Rule::ConstInitVal | Rule::UnaryExp =>
            if k.len() > 0 { exp_s(st, k[0]) } else { (st, None) },
        Rule::AddExp | Rule::MulExp | Rule::RelExp | Rule::EqExp => chain_s(st, k),
        Rule::PrimaryExp => if k.len() > 0 && k[0].rule == Rule::OpenParen {
            if k.len() > 1 { exp_s(st, k[1]) } else { (st, None) }
        } else if k.len() > 0 {
            exp_s(st, k[0])
        } else {
            (st, None)
        },
        Rule::Number => match literal_value(p.text@) {
            Some(v) => (st, Some(VV::Const(v))),
            None => (st, None),
        },
        Rule::LVal => if k.len() > 0 {
            match lookup(st.scope, k[0].text@) {
                Some(slot) => {
                    let t = fresh_name(st, "load"@);
                    (emit(bump(st), IV::Load(t, VV::Named(slot))), Some(VV::Named(t)))
                },
                None => (st, None),
            }
        } else {
            (st, None)
        },
        Rule::UnaryOpExp => if k.len() >= 2 && k[0].inner@.len() > 0 {
            let (s1, v) = exp_s(st, k[1]);
            match v {
                None => (s1, None),
                Some(x) => match k[0].inner@[0].rule {
                    Rule::Minus => {
                        let t = fresh_name(s1, "neg"@);
                        (emit(bump(s1), IV::Binary(BinOp::Sub, t, VV::Const(0), x)), Some(VV::Named(t)))
                    },
                    Rule::Not => compare_s(s1, CmpPred::Eq, x, VV::Const(0)),
                    _ => (s1, Some(x)),
                },
            }
        } else {
            (st, None)
        },
        _ => (st, None),
    }
}

/// The state and value after a chain `e0 op1 e1 op2 e2 ...`, taken from the left.
pub open spec fn chain_s(st: BuildView, k: Seq<CheckPair>) -> (BuildView, Option<VV>)
    decreases k, 1int,
{
    if k.len() == 0 {
        (st, None)
    } else if k.len() == 1 {
        exp_s(st, k[0])
    } else if k.len() == 2 {
        chain_s(st, k.drop_last())
    } else {
        let (s1, l) = chain_s(st, k.subrange(0, k.len() - 2));
        match l {
            None => (s1, None),
            Some(lv) => {
                let (s2, r) = exp_s(s1, k.last());
                match r {
                    None => (s2, None),
                    Some(rv) => apply_op(s2, k[k.len() - 2].rule, lv, rv),
                }
            },
        }
    }
}

// ---------------------------------------------------------------------------
// The builder.
// ---------------------------------------------------------------------------

/// A function under construction.
pub struct FnBuilder {
    labels: Vec<String>,
    code: Vec<Vec<Instr>>,
    cur: usize,
    made: u64,
    scope: Vec<(String, String)>,
}

/// The instructions of a block by their views.
pub open spec fn code_view(c: Vec<Instr>) -> Seq<IV> {
    c@.map_values(|i: Instr| iv(i))
}

impl View for FnBuilder {
    type V = BuildView;

    closed spec fn view(&self) -> BuildView {
        BuildView {
            blocks: Seq::new(self.labels@.len(), |j: int| (self.labels@[j]@, code_view(self.code@[j]))),
            cur: self.cur as nat,
            made: self.made as nat,
            scope: self.scope@.map_values(|e: (String, String)| (e.0@, e.1@)),
        }
    }
}

impl FnBuilder {
    /// The builder's invariant: one instruction list per label.
    pub closed spec fn inv(&self) -> bool {
        self.labels@.len() == self.code@.len()
    }

    /// A fresh name with the given base.
    fn fresh(&mut self, base: &str) -> (r: String)
        requires
            old(self).inv(),
        ensures
            final(self).inv(),
            r@ == fresh_name(old(self)@, base@),
            final(self)@ == bump(old(self)@),
            final(self).labels == old(self).labels,
            final(self).code == old(self).code,
    {
        let mut s = String::new();
        s.append(base);
        proof { reveal_strlit("."); }
        s.append(".");
        push_nat(&mut s, self.made);
        assert(s@ =~= fresh_name(old(self)@, base@));
        if self.made < u64::MAX {
            self.made = self.made + 1;
        }
        assert(self@.blocks =~= old(self)@.blocks);
        assert(self@.scope =~= old(self)@.scope);
        s
    }

    /// Appends an instruction to the current block.
    fn emit(&mut self, i: Instr)
        requires
            old(self).inv(),
            build_wf(old(self)@),
        ensures
            final(self).inv(),
            final(self)@ == emit(old(self)@, iv(i)),
    {
        let ghost st = self@;
        let ghost ii = iv(i);
        let cur = self.cur;
        let mut c = self.code.remove(cur);
        let ghost c0 = c;
        c.push(i);
        assert(code_view(c) =~= code_view(c0).push(ii));
        self.code.insert(cur, c);
        let ghost want = emit(st, ii);
        assert forall|j: int| 0 <= j < self.labels@.len() implies
            (self.labels@[j]@, code_view(self.code@[j])) == #[trigger] want.blocks[j] by {
            if j == cur as int {
            } else {
                assert(self.code@[j] == old(self).code@[j]);
            }
        }
        assert(self@.blocks =~= want.blocks);
    }

    /// Appends a new, empty block with a fresh label, and returns the label.
    fn new_block(&mut self, base: &str) -> (r: String)
        requires
            old(self).inv(),
        ensures
            final(self).inv(),
            (final(self)@, r@) == new_block(old(self)@, base@),
    {
        let ghost st = self@;
        let l = self.fresh(base);
        let ghost lv = l@;
        self.labels.push(l.clone());
        let empty: Vec<Instr> = Vec::new();
        assert(code_view(empty) =~= Seq::<IV>::empty());
        self.code.push(empty);
        let ghost want = new_block(st, base@);
        assert forall|j: int| 0 <= j < self.labels@.len() implies
            (self.labels@[j]@, code_view(self.code@[j])) == #[trigger] want.0.blocks[j] by {
            if j < st.blocks.len() {
                assert(self.labels@[j] == old(self).labels@[j]);
                assert(self.code@[j] == old(self).code@[j]);
            } else {
                assert(self.labels@[j]@ == lv);
                assert(code_view(self.code@[j]) =~= Seq::<IV>::empty());
            }
        }
        assert(self@.blocks =~= want.0.blocks);
        l
    }

    /// The index of the last block with the given label, or 0.
    fn find_block(&self, l: &String) -> (r: usize)
        requires
            self.inv(),
        ensures
            r as int == block_index(self@.blocks, l@),
    {
        let ghost bs = self@.blocks;
        let mut j = self.labels.len();
        while j > 0
            invariant
                j <= self.labels.len(),
                bs == self@.blocks,
                self.inv(),
                forall|q: int| j <= q < bs.len() ==> bs[q].0 != l@,
            decreases j,
        {
            assert(bs[j - 1].0 == self.labels@[j - 1]@);
            if str_eq(self.labels[j - 1].as_str(), l.as_str()) {
                proof { lemma_block_index_at(bs, l@, (j - 1) as int); }
                return j - 1;
            }
            j = j - 1;
        }
        proof { lemma_block_index_none(bs, l@); }
        0
    }

    /// Moves to the last block with the given label.
    fn position(&mut self, l: &String)
        requires
            old(self).inv(),
        ensures
            final(self).inv(),
            final(self)@ == position(old(self)@, l@),
    {
        let k = self.find_block(l);
        self.cur = k;
        assert(self@.blocks =~= old(self)@.blocks);
        assert(self@.scope =~= old(self)@.scope);
    }
}

/// The last block with a label is found.
proof fn lemma_block_index_at(bs: Seq<(Seq<char>, Seq<IV>)>, l: Seq<char>, i: int)
    requires
        0 <= i < bs.len(),
        bs[i].0 == l,
        forall|q: int| i < q < bs.len() ==> bs[q].0 != l,
    ensures
        block_index(bs, l) == i,
    decreases bs.len(),
{
    if i < bs.len() - 1 {
        assert(bs.drop_last()[i] == bs[i]);
        lemma_block_index_at(bs.drop_last(), l, i);
    }
}

/// Without a block of the label, the index is 0.
proof fn lemma_block_index_none(bs: Seq<(Seq<char>, Seq<IV>)>, l: Seq<char>)
    requires
        forall|q: int| 0 <= q < bs.len() ==> bs[q].0 != l,
    ensures
        block_index(bs, l) == 0,
    decreases bs.len(),
{
    if bs.len() > 0 {
        lemma_block_index_none(bs.drop_last(), l);
    }
}

/// The index of a block is a block of the list, when there is one.
proof fn lemma_block_index_range(bs: Seq<(Seq<char>, Seq<IV>)>, l: Seq<char>)
    ensures
        bs.len() > 0 ==> 0 <= block_index(bs, l) < bs.len(),
        bs.len() == 0 ==> block_index(bs, l) == 0,
    decreases bs.len(),
{
    if bs.len() > 0 {
        lemma_block_index_range(bs.drop_last(), l);
    }
}

// ---------------------------------------------------------------------------
// Lowering expressions.
// ---------------------------------------------------------------------------

/// The digit value of a character (255 for a character that is no digit).
fn digit_of(c: char) -> (r: u64)
    ensures
        r as int == radix_digit(c),
{
    if '0' <= c && c <= '9' {
        (c as u32 - '0' as u32) as u64
    } else if 'a' <= c && c <= 'z' {
        (c as u32 - 'a' as u32 + 10) as u64
    } else if 'A' <= c && c <= 'Z' {
        (c as u32 - 'A' as u32 + 10) as u64
    } else {
        255
    }
}

/// The value of the digits of `s` from `from` on, when all are digits of the
/// radix and the value fits 64 bits.
fn digits_from(s: &str, from: usize, radix: u64) -> (r: Option<u64>)
    requires
        from <= s@.len(),
        2 <= radix <= 16,
    ensures
        r == match digits_in(s@.skip(from as int), radix as nat) {
            Some(v) => if v <= u64::MAX { Some(v as u64) } else { None },
            None => None,
        },
{
    let n = s.unicode_len();
    let mut acc: u64 = 0;
    // 0: the value so far is `acc`; 1: it exceeds 64 bits; 2: a character is no digit
    let mut status: u8 = 0;
    let mut i = from;
    assert(s@.subrange(from as int, from as int) =~= Seq::<char>::empty());
    while i < n
        invariant
            from <= i <= n,
            n == s@.len(),
            2 <= radix <= 16,
            status <= 2,
            status == 0 ==> digits_in(s@.subrange(from as int, i as int), radix as nat) == Some(acc as nat),
            status == 1 ==> (digits_in(s@.subrange(from as int, i as int), radix as nat) matches Some(v) && v > u64::MAX),
            status == 2 ==> digits_in(s@.subrange(from as int, i as int), radix as nat) is None,
        decreases n - i,
    {
        let c = s.get_char(i);
        let d = digit_of(c);
        let ghost pre = s@.subrange(from as int, i as int);
        assert(s@.subrange(from as int, i + 1).drop_last() =~= pre);
        assert(s@.subrange(from as int, i + 1).last() == c);
        if status == 0 {
            if d < radix {
                match acc.checked_mul(radix) {
                    Some(m) => match m.checked_add(d) {
                        Some(a) => { acc = a; }
                        None => { status = 1; }
                    },
                    None => {
                        status = 1;
                        assert(acc as nat * radix as nat + d as nat > u64::MAX) by (nonlinear_arith)
                            requires acc as nat * radix as nat > u64::MAX;
                    }
                }
            } else {
                status = 2;
            }
        } else if status == 1 {
            if d < radix {
                proof {
                    let v = digits_in(pre, radix as nat)->0;
                    assert(v * radix as nat >= v) by (nonlinear_arith) requires radix >= 2, v >= 0;
                }
            } else {
                status = 2;
            }
        }
        i = i + 1;
    }
    assert(s@.subrange(from as int, n as int) =~= s@.skip(from as int));
    if status == 0 { Some(acc) } else { None }
}

/// The value of an integer literal (see `literal_value`).
pub fn literal(s: &str) -> (r: Option<u64>)
    ensures
        r == literal_value(s@),
{
    let n = s.unicode_len();
    if n >= 2 && s.get_char(0) == '0' && (s.get_char(1) == 'x' || s.get_char(1) == 'X') {
        if n > 2 { digits_from(s, 2, 16) } else { None }
    } else if n > 1 && s.get_char(0) == '0' {
        digits_from(s, 1, 8)
    } else if n > 0 {
        assert(s@.skip(0) =~= s@);
        digits_from(s, 0, 10)
    } else {
        None
    }
}

/// The arithmetic of an operator token.
fn arith_of(r: Rule) -> (b: Option<BinOp>)
    ensures
        b == arith_op(r),
{
    match r {
        Rule::Plus => Some(BinOp::Add),
        Rule::Minus => Some(BinOp::Sub),
        Rule::Mul => Some(BinOp::Mul),
        Rule::Div => Some(BinOp::SDiv),
        Rule::Mod => Some(BinOp::SRem),
        _ => None,
    }
}

/// The comparison of an operator token.
fn cmp_of(r: Rule) -> (p: Option<CmpPred>)
    ensures
        p == cmp_op(r),
{
    match r {
        Rule::Less => Some(CmpPred::Slt),
        Rule::LessEqual => Some(CmpPred::Sle),
        Rule::Greater => Some(CmpPred::Sgt),
        Rule::GreaterEqual => Some(CmpPred::Sge),
        Rule::Equal => Some(CmpPred::Eq),
        Rule::NotEqual => Some(CmpPred::Ne),
        _ => None,
    }
}

impl FnBuilder {
    /// The slot of a source name: the innermost binding.
    fn lookup(&self, n: &str) -> (r: Option<String>)
        ensures
            match r {
                Some(x) => lookup(self@.scope, n@) == Some(x@),
                None => lookup(self@.scope, n@) is None,
            },
    {
        let ghost sc = self@.scope;
        let mut j = self.scope.len();
        assert(sc.take(j as int) =~= sc);
        while j > 0
            invariant
                j <= self.scope.len(),
                sc == self@.scope,
                lookup(sc, n@) == lookup(sc.take(j as int), n@),
            decreases j,
        {
            let ghost t = sc.take(j as int);
            assert(t.drop_last() =~= sc.take(j - 1));
            assert(t.last() == (self.scope@[j - 1].0@, self.scope@[j - 1].1@));
            if str_eq(self.scope[j - 1].0.as_str(), n) {
                return Some(self.scope[j - 1].1.clone());
            }
            j = j - 1;
        }
        None
    }

    /// Compares two values and widens the result (see `compare_s`).
    fn compare(&mut self, p: CmpPred, l: IrValue, r: IrValue) -> (v: Option<IrValue>)
        requires
            old(self).inv(),
            build_wf(old(self)@),
        ensures
            final(self).inv(),
            build_wf(final(self)@),
            (final(self)@, opt_vv(v)) == compare_s(old(self)@, p, vv(l), vv(r)),
    {
        let c = self.fresh("cmp");
        self.emit(Instr::ICmp { pred: p, result: c.clone(), lhs: l, rhs: r });
        let z = self.fresh("zext");
        self.emit(Instr::ZExt { result: z.clone(), value: IrValue::Named(c) });
        Some(IrValue::Named(z))
    }

    /// Applies an operator token to two values (see `apply_op`).
    fn apply(&mut self, op: Rule, l: IrValue, r: IrValue) -> (v: Option<IrValue>)
        requires
            old(self).inv(),
            build_wf(old(self)@),
        ensures
            final(self).inv(),
            build_wf(final(self)@),
            (final(self)@, opt_vv(v)) == apply_op(old(self)@, op, vv(l), vv(r)),
    {
        match arith_of(op) {
            Some(b) => {
                let t = self.fresh("bin");
                self.emit(Instr::Binary { op: b, result: t.clone(), lhs: l, rhs: r });
                Some(IrValue::Named(t))
            }
            None => match cmp_of(op) {
                Some(p) => self.compare(p, l, r),
                None => Some(l),
            },
        }
    }

    /// Lowers an expression node (see `exp_s`).
    pub fn lower_exp(&mut self, p: &CheckPair) -> (r: Option<IrValue>)
        requires
            old(self).inv(),
            build_wf(old(self)@),
        ensures
            final(self).inv(),
            build_wf(final(self)@),
            (final(self)@, opt_vv(r)) == exp_s(old(self)@, *p),
        decreases p, 2int,
    {
        let k = &p.inner;
        match p.rule {
            Rule::Exp | Rule::ConstExp | Rule::InitVal | Rule::ConstInitVal | Rule::UnaryExp => {
                if k.len() > 0 { self.lower_exp(&k[0]) } else { None }
            }
            Rule::AddExp | Rule::MulExp | Rule::RelExp | Rule::EqExp => self.lower_chain(k),
            Rule::PrimaryExp => {
                if k.len() > 0 && k[0].rule == Rule::OpenParen {
                    if k.len() > 1 { self.lower_exp(&k[1]) } else { None }
                } else if k.len() > 0 {
                    self.lower_exp(&k[0])
                } else {
                    None
                }
            }
            Rule::Number => match literal(p.text.as_str()) {
                Some(v) => Some(IrValue::Const(v)),
                None => None,
            },
            Rule::LVal => {
                if k.len() > 0 {
                    match self.lookup(k[0].text.as_str()) {
                        Some(slot) => {
                            let t = self.fresh("load");
                            self.emit(Instr::Load { result: t.clone(), ptr: IrValue::Named(slot) });
                            Some(IrValue::Named(t))
                        }
                        None => None,
                    }
                } else {
                    None
                }
            }
            Rule::UnaryOpExp => {
                if k.len() >= 2 && k[0].inner.len() > 0 {
                    let v = self.lower_exp(&k[1]);
                    match v {
                        None => None,
                        Some(x) => match k[0].inner[0].rule {
                            Rule::Minus => {
                                let t = self.fresh("neg");
                                self.emit(Instr::Binary { op: BinOp::Sub, result: t.clone(), lhs: IrValue::Const(0), rhs: x });
                                Some(IrValue::Named(t))
                            }
                            Rule::Not => self.compare(CmpPred::Eq, x, IrValue::Const(0)),
                            _ => Some(x),
                        },
                    }
                } else {
                    None
                }
            }
            _ => None,
        }
    }

    /// Lowers a chain `e0 op1 e1 ...` from the left (see `chain_s`).
    fn lower_chain(&mut self, k: &Vec<CheckPair>) -> (r: Option<IrValue>)
        requires
            old(self).inv(),
            build_wf(old(self)@),
        ensures
            final(self).inv(),
            build_wf(final(self)@),
            (final(self)@, opt_vv(r)) == chain_s(old(self)@, k@),
        decreases k@, 1int,
    {
        let n = k.len();
        if n == 0 {
            return None;
        }
        let ghost st0 = self@;
        let mut l = self.lower_exp(&k[0]);
        let mut i: usize = if n % 2 == 0 { 2 } else { 1 };
        assert(k@.subrange(0, 1) =~= seq![k@[0]]);
        proof {
            assert(chain_s(st0, k@.subrange(0, 1)) == exp_s(st0, k@[0]));
            if n >= 2 {
                assert(k@.subrange(0, 2).drop_last() =~= k@.subrange(0, 1));
                assert(chain_s(st0, k@.subrange(0, 2)) == chain_s(st0, k@.subrange(0, 1)));
            }
        }
        while n - i > 1
            invariant
                n == k@.len(),
                1 <= i <= n,
                i % 2 == n % 2,
                self.inv(),
                build_wf(self@),
                (self@, opt_vv(l)) == chain_s(st0, k@.subrange(0, i as int)),
            decreases n - i,
        {
            let ghost t = k@.subrange(0, i + 2);
            assert(t.subrange(0, t.len() - 2) =~= k@.subrange(0, i as int));
            assert(t.last() == k@[i + 1]);
            assert(t[t.len() - 2] == k@[i as int]);
            match l {
                None => {}
                Some(lv) => {
                    let r = self.lower_exp(&k[i + 1]);
                    match r {
                        None => { l = None; }
                        Some(rv) => { l = self.apply(k[i].rule, lv, rv); }
                    }
                }
            }
            i = i + 2;
        }
        assert(k@.subrange(0, n as int) =~= k@);
        l
    }
}

// ---------------------------------------------------------------------------
// Conditions: branches with short-circuit evaluation.
// ---------------------------------------------------------------------------

/// The nodes of a rule among `s`, in order.
pub open spec fn of_rule(s: Seq<CheckPair>, r: Rule) -> Seq<CheckPair>
    decreases s.len(),
{
    if s.len() == 0 {
        Seq::empty()
    } else if s.last().rule == r {
        of_rule(s.drop_last(), r).push(s.last())
    } else {
        of_rule(s.drop_last(), r)
    }
}

/// The operands of a chain of `&&` or `||`: the first child, then the later
/// children of the operand rule.
pub open spec fn operands(k: Seq<CheckPair>, r: Rule) -> Seq<CheckPair> {
    if k.len() == 0 { Seq::empty() } else { seq![k[0]] + of_rule(k.drop_first(), r) }
}

/// The state after branching on a value: to `t` when it is not 0, else to `f`.
pub open spec fn branch_on(st: BuildView, v: Option<VV>, t: Seq<char>, f: Seq<char>) -> BuildView {
    match v {
        None => st,
        Some(x) => {
            let c = fresh_name(st, "cond"@);
            let s1 = emit(bump(st), IV::ICmp(CmpPred::Ne, c, x, VV::Const(0)));
            emit(s1, IV::CondBr(VV::Named(c), t, f))
        },
    }
}

/// The state after the conjuncts `eqs` of an `&&`: each conjunct but the last
/// is evaluated in its own block and, when it is 0, jumps to `f` at once; the
/// next one is evaluated in a new block; the last one jumps to `t` or `f`.
pub open spec fn and_s(st: BuildView, eqs: Seq<CheckPair>, t: Seq<char>, f: Seq<char>) -> BuildView
    decreases eqs.len(),
{
    if eqs.len() == 0 {
        st
    } else if eqs.len() == 1 {
        let (s1, v) = exp_s(st, eqs[0]);
        branch_on(s1, v, t, f)
    } else {
        let (s1, nb) = new_block(st, "and_continue"@);
        let (s2, v) = exp_s(s1, eqs[0]);
        let s3 = branch_on(s2, v, nb, f);
        and_s(position(s3, nb), eqs.drop_first(), t, f)
    }
}

/// The state after the disjuncts `ands` of an `||`: each disjunct but the
/// last jumps to `t` when it holds, and otherwise on to the next one in a new
/// block; the last one jumps to `t` or `f`.
pub open spec fn or_s(st: BuildView, ands: Seq<CheckPair>, t: Seq<char>, f: Seq<char>) -> BuildView
    decreases ands.len(),
{
    if ands.len() == 0 {
        st
    } else if ands.len() == 1 {
        and_s(st, operands(ands[0].inner@, Rule::EqExp), t, f)
    } else {
        let (s1, nb) = new_block(st, "or_continue"@);
        let s2 = and_s(s1, operands(ands[0].inner@, Rule::EqExp), t, nb);
        or_s(position(s2, nb), ands.drop_first(), t, f)
    }
}

/// The state after a condition node (`Cond`, whose child is an `LOrExp`):
/// it jumps to `t` when it holds and to `f` otherwise.
pub open spec fn cond_s(st: BuildView, c: CheckPair, t: Seq<char>, f: Seq<char>) -> BuildView {
    if c.inner@.len() == 0 {
        st
    } else {
        or_s(st, operands(c.inner@[0].inner@, Rule::LAndExp), t, f)
    }
}

/// The children of a node that follow the first, of the given rule, by reference.
fn later_of_rule<'a>(k: &'a Vec<CheckPair>, r: Rule) -> (v: Vec<&'a CheckPair>)
    ensures
        v@.map_values(|x: &CheckPair| *x) == operands(k@, r),
{
    let mut v: Vec<&'a CheckPair> = Vec::new();
    if k.len() == 0 {
        assert(v@.map_values(|x: &CheckPair| *x) =~= operands(k@, r));
        return v;
    }
    v.push(&k[0]);
    let mut j: usize = 1;
    let ghost rest = k@.drop_first();
    assert(rest.take(0) =~= Seq::<CheckPair>::empty());
    assert(v@.map_values(|x: &CheckPair| *x) =~= seq![k@[0]] + of_rule(rest.take(0), r));
    while j < k.len()
        invariant
            1 <= j <= k.len(),
            rest == k@.drop_first(),
            v@.map_values(|x: &CheckPair| *x) == seq![k@[0]] + of_rule(rest.take(j - 1), r),
        decreases k.len() - j,
    {
        let ghost before = v@.map_values(|x: &CheckPair| *x);
        assert(rest.take(j as int).drop_last() =~= rest.take(j - 1));
        assert(rest.take(j as int).last() == k@[j as int]);
        if k[j].rule == r {
            v.push(&k[j]);
            assert(v@.map_values(|x: &CheckPair| *x) =~= before.push(k@[j as int]));
        }
        j = j + 1;
    }
    assert(rest.take(k.len() - 1) =~= rest);
    v
}

impl FnBuilder {
    /// Branches on a value (see `branch_on`).
    fn branch(&mut self, v: Option<IrValue>, t: &String, f: &String)
        requires
            old(self).inv(),
            build_wf(old(self)@),
        ensures
            final(self).inv(),
            build_wf(final(self)@),
            final(self)@ == branch_on(old(self)@, opt_vv(v), t@, f@),
    {
        match v {
            None => {}
            Some(x) => {
                let c = self.fresh("cond");
                self.emit(Instr::ICmp { pred: CmpPred::Ne, result: c.clone(), lhs: x, rhs: IrValue::Const(0) });
                self.emit(Instr::CondBr { cond: IrValue::Named(c), true_target: t.clone(), false_target: f.clone() });
            }
        }
    }

    /// Lowers the conjuncts of an `&&` (see `and_s`).
    fn lower_and(&mut self, eqs: &Vec<&CheckPair>, t: &String, f: &String)
        requires
            old(self).inv(),
            build_wf(old(self)@),
        ensures
            final(self).inv(),
            build_wf(final(self)@),
            final(self)@ == and_s(old(self)@, eqs@.map_values(|x: &CheckPair| *x), t@, f@),
    {
        let ghost es = eqs@.map_values(|x: &CheckPair| *x);
        let n = eqs.len();
        if n == 0 {
            return;
        }
        let mut i: usize = 0;
        assert(es.subrange(0, n as int) =~= es);
        while n - i > 1
            invariant
                n == eqs@.len(),
                es == eqs@.map_values(|x: &CheckPair| *x),
                i < n,
                self.inv(),
                build_wf(self@),
                and_s(old(self)@, es, t@, f@) == and_s(self@, es.subrange(i as int, n as int), t@, f@),
            decreases n - i,
        {
            let ghost sub = es.subrange(i as int, n as int);
            assert(sub.drop_first() =~= es.subrange(i + 1, n as int));
            assert(sub[0] == *eqs@[i as int]);
            let nb = self.new_block("and_continue");
            let v = self.lower_exp(eqs[i]);
            self.branch(v, &nb, f);
            proof { lemma_block_index_range(self@.blocks, nb@); }
            self.position(&nb);
            i = i + 1;
        }
        let ghost sub = es.subrange(i as int, n as int);
        assert(sub.len() == 1 && sub[0] == *eqs@[i as int]);
        let v = self.lower_exp(eqs[i]);
        self.branch(v, t, f);
    }

    /// Lowers the disjuncts of an `||` (see `or_s`).
    fn lower_or(&mut self, ands: &Vec<&CheckPair>, t: &String, f: &String)
        requires
            old(self).inv(),
            build_wf(old(self)@),
        ensures
            final(self).inv(),
            build_wf(final(self)@),
            final(self)@ == or_s(old(self)@, ands@.map_values(|x: &CheckPair| *x), t@, f@),
    {
        let ghost es = ands@.map_values(|x: &CheckPair| *x);
        let n = ands.len();
        if n == 0 {
            return;
        }
        let mut i: usize = 0;
        assert(es.subrange(0, n as int) =~= es);
        while n - i > 1
            invariant
                n == ands@.len(),
                es == ands@.map_values(|x: &CheckPair| *x),
                i < n,
                self.inv(),
                build_wf(self@),
                or_s(old(self)@, es, t@, f@) == or_s(self@, es.subrange(i as int, n as int), t@, f@),
            decreases n - i,
        {
            let ghost sub = es.subrange(i as int, n as int);
            assert(sub.drop_first() =~= es.subrange(i + 1, n as int));
            assert(sub[0] == *ands@[i as int]);
            let nb = self.new_block("or_continue");
            let eqs = later_of_rule(&ands[i].inner, Rule::EqExp);
            self.lower_and(&eqs, t, &nb);
            proof { lemma_block_index_range(self@.blocks, nb@); }
            self.position(&nb);
            i = i + 1;
        }
        let ghost sub = es.subrange(i as int, n as int);
        assert(sub.len() == 1 && sub[0] == *ands@[i as int]);
        let eqs = later_of_rule(&ands[i].inner, Rule::EqExp);
        self.lower_and(&eqs, t, f);
    }

    /// Lowers a condition node: jumps to `t` when it holds and to `f` otherwise
    /// (see `cond_s`).
    pub fn lower_cond_branches(&mut self, cond: &CheckPair, t: &String, f: &String)
        requires
            old(self).inv(),
            build_wf(old(self)@),
        ensures
            final(self).inv(),
            build_wf(final(self)@),
            final(self)@ == cond_s(old(self)@, *cond, t@, f@),
    {
        if cond.inner.len() > 0 {
            let ands = later_of_rule(&cond.inner[0].inner, Rule::LAndExp);
            self.lower_or(&ands, t, f);
        }
    }
}

// ---------------------------------------------------------------------------
// Statements.
// ---------------------------------------------------------------------------

/// The loop a statement is in: the labels that `continue` and `break` jump to.
pub type LoopView = Option<(Seq<char>, Seq<char>)>;

/// The loop an item of a statement list sees: with `direct`, only a
/// `continue` or `break` that is itself the item sees the loop.
pub open spec fn item_loop(x: CheckPair, lp: LoopView, direct: bool) -> LoopView {
    if direct && !(x.rule == Rule::ContinueStmt || x.rule == Rule::BreakStmt) { None } else { lp }
}

/// The state after the items of a list, in order.
pub open spec fn items_s(st: BuildView, items: Seq<CheckPair>, lp: LoopView, direct: bool) -> BuildView
    decreases items, 0int,
{
    if items.len() == 0 {
        st
    } else {
        let s1 = items_s(st, items.drop_last(), lp, direct);
        item_s(s1, items.last(), item_loop(items.last(), lp, direct))
    }
}

/// The state after a definition with an initial value: the value is computed,
/// then the variable gets a new slot holding it and becomes visible. A
/// definition without one, or whose value cannot be computed, makes nothing.
pub open spec fn def_s(st: BuildView, p: CheckPair) -> BuildView
    decreases p, 0int,
{
    let k = p.inner@;
    if k.len() >= 2 && (k.last().rule == Rule::InitVal || k.last().rule == Rule::ConstInitVal) {
        let (s1, v) = exp_s(st, k.last());
        match v {
            None => s1,
            Some(x) => {
                let slot = fresh_name(s1, k[0].text@);
                let s2 = emit(bump(s1), IV::Alloca(slot));
                let s3 = emit(s2, IV::Store(x, VV::Named(slot)));
                BuildView { scope: s3.scope.push((k[0].text@, slot)), ..s3 }
            },
        }
    } else {
        st
    }
}

/// The state after an `if`: the condition branches to a new `if_true` block
/// or to the `if_false` block (with an `else`) or the `if_next` block; each
/// arm that does not end by itself jumps to `if_next`, where lowering goes on.
/// Without an `else`, only a `break` or `continue` that is the arm's own
/// statement sees the loop; with one, neither arm does.
pub open spec fn if_s(st: BuildView, k: Seq<CheckPair>, lp: LoopView) -> BuildView
    decreases k, 0int,
{
    if k.len() < 5 {
        st
    } else {
        let (s1, tb) = new_block(st, "if_true"@);
        let (s2, nb) = new_block(s1, "if_next"@);
        if k.len() >= 7 && k[5].rule == Rule::Else {
            let (s3, fb) = new_block(s2, "if_false"@);
            let s4 = position(cond_s(s3, k[2], tb, fb), tb);
            let s5 = close(items_s(s4, k[4].inner@, None, false), nb);
            let s6 = close(items_s(position(s5, fb), k[6].inner@, None, false), nb);
            position(s6, nb)
        } else {
            let s3 = position(cond_s(s2, k[2], tb, nb), tb);
            let s4 = close(items_s(s3, k[4].inner@, lp, true), nb);
            position(s4, nb)
        }
    }
}

/// The state after a `while`: a jump to a new `whileCond` block, whose
/// condition branches to `whileBody` or `whileNext`; the body jumps back to
/// the condition unless it ends by itself; lowering goes on in `whileNext`.
pub open spec fn while_s(st: BuildView, k: Seq<CheckPair>) -> BuildView
    decreases k, 0int,
{
    if k.len() < 5 {
        st
    } else {
        let (s1, cb) = new_block(st, "whileCond"@);
        let (s2, bb) = new_block(s1, "whileBody"@);
        let (s3, nb) = new_block(s2, "whileNext"@);
        let s4 = position(emit(s3, IV::Br(cb)), cb);
        let s5 = position(cond_s(s4, k[2], bb, nb), bb);
        let s6 = close(items_s(s5, k[4].inner@, Some((cb, nb)), false), cb);
        position(s6, nb)
    }
}

/// The state after a statement, declaration or block item.
pub open spec fn item_s(st: BuildView, p: CheckPair, lp: LoopView) -> BuildView
    decreases p, 1int,
{
    let k = p.inner@;
    match p.rule {
        Rule::BlockItem | Rule::Stmt | Rule::Decl | Rule::VarDecl | Rule::ConstDecl => items_s(st, k, lp, false),
        Rule::VarDef | Rule::ConstDef => def_s(st, p),
        Rule::AssignStmt => if k.len() >= 3 && k[0].inner@.len() > 0 {
            let (s1, v) = exp_s(st, k[2]);
            match (v, lookup(s1.scope, k[0].inner@[0].text@)) {
                (Some(x), Some(slot)) => emit(s1, IV::Store(x, VV::Named(slot))),
                _ => s1,
            }
        } else {
            st
        },
        Rule::ExpStmt => if k.len() > 0 && k[0].rule == Rule::Exp { exp_s(st, k[0]).0 } else { st },
        Rule::Block => BuildView { scope: st.scope, ..items_s(st, k, lp, false) },
        Rule::IfStmt => if_s(st, k, lp),
        Rule::WhileStmt => while_s(st, k),
        Rule::ReturnStmt => if k.len() > 1 && k[1].rule == Rule::Exp {
            let (s1, v) = exp_s(st, k[1]);
            emit(s1, IV::Ret(v))
        } else {
            emit(st, IV::Ret(None))
        },
        Rule::ContinueStmt => match lp {
            Some((c, _)) => emit(st, IV::Br(c)),
            None => st,
        },
        Rule::BreakStmt => match lp {
            Some((_, n)) => emit(st, IV::Br(n)),
            None => st,
        },
        _ => st,
    }
}

/// The loop labels as a view.
pub open spec fn loop_view(has: bool, c: String, n: String) -> LoopView {
    if has { Some((c@, n@)) } else { None }
}

/// A copy of a list of visible names.
fn copy_scope(sc: &Vec<(String, String)>) -> (r: Vec<(String, String)>)
    ensures
        r@.map_values(|e: (String, String)| (e.0@, e.1@)) == sc@.map_values(|e: (String, String)| (e.0@, e.1@)),
{
    let mut r: Vec<(String, String)> = Vec::new();
    let mut i: usize = 0;
    while i < sc.len()
        invariant
            i <= sc.len(),
            r@.map_values(|e: (String, String)| (e.0@, e.1@)) == sc@.take(i as int).map_values(|e: (String, String)| (e.0@, e.1@)),
        decreases sc.len() - i,
    {
        let ghost before = r@.map_values(|e: (String, String)| (e.0@, e.1@));
        r.push((sc[i].0.clone(), sc[i].1.clone()));
        assert(r@.map_values(|e: (String, String)| (e.0@, e.1@)) =~= before.push((sc@[i as int].0@, sc@[i as int].1@)));
        assert(sc@.take(i + 1).map_values(|e: (String, String)| (e.0@, e.1@)) =~= sc@.take(i as int).map_values(|e: (String, String)| (e.0@, e.1@)).push((sc@[i as int].0@, sc@[i as int].1@)));
        i = i + 1;
    }
    assert(sc@.take(sc.len() as int) =~= sc@);
    r
}

impl FnBuilder {
    /// True when the current block ends with a jump, branch or return.
    fn is_terminated(&self) -> (r: bool)
        requires
            self.inv(),
            build_wf(self@),
        ensures
            r == terminated(self@),
    {
        let c = &self.code[self.cur];
        let ghost is = self@.blocks[self.cur as int].1;
        assert(is == code_view(*c));
        if c.len() == 0 {
            return false;
        }
        let last = &c[c.len() - 1];
        assert(is.last() == iv(*last));
        match last {
            Instr::Br { .. } | Instr::CondBr { .. } | Instr::Ret { .. } => true,
            _ => false,
        }
    }

    /// Ends the current block with a jump to `l`, unless it is ended (see `close`).
    fn close_to(&mut self, l: &String)
        requires
            old(self).inv(),
            build_wf(old(self)@),
        ensures
            final(self).inv(),
            build_wf(final(self)@),
            final(self)@ == close(old(self)@, l@),
    {
        if !self.is_terminated() {
            self.emit(Instr::Br { target: l.clone() });
        }
    }

    /// Moves to a block that was made (keeps the builder well formed).
    fn go_to(&mut self, l: &String)
        requires
            old(self).inv(),
            old(self)@.blocks.len() > 0,
        ensures
            final(self).inv(),
            build_wf(final(self)@),
            final(self)@ == position(old(self)@, l@),
            final(self)@.blocks == old(self)@.blocks,
    {
        proof { lemma_block_index_range(self@.blocks, l@); }
        self.position(l);
    }

    /// Lowers the items of a list (see `items_s`).
    fn lower_items(&mut self, items: &Vec<CheckPair>, has_lp: bool, lc: &String, ln: &String, direct: bool)
        requires
            old(self).inv(),
            build_wf(old(self)@),
        ensures
            final(self).inv(),
            build_wf(final(self)@),
            final(self)@ == items_s(old(self)@, items@, loop_view(has_lp, *lc, *ln), direct),
        decreases items@, 0int,
    {
        let n = items.len();
        let mut i: usize = 0;
        assert(items@.take(0) =~= Seq::<CheckPair>::empty());
        while i < n
            invariant
                n == items@.len(),
                i <= n,
                self.inv(),
                build_wf(self@),
                self@ == items_s(old(self)@, items@.take(i as int), loop_view(has_lp, *lc, *ln), direct),
            decreases n - i,
        {
            let x = &items[i];
            assert(items@.take(i + 1).drop_last() =~= items@.take(i as int));
            assert(items@.take(i + 1).last() == *x);
            let sees = has_lp && !(direct && !(x.rule == Rule::ContinueStmt || x.rule == Rule::BreakStmt));
            assert(loop_view(sees, *lc, *ln) == item_loop(*x, loop_view(has_lp, *lc, *ln), direct));
            self.lower_item(x, sees, lc, ln);
            i = i + 1;
        }
        assert(items@.take(n as int) =~= items@);
    }

    /// Lowers a definition (see `def_s`).
    fn lower_def(&mut self, p: &CheckPair)
        requires
            old(self).inv(),
            build_wf(old(self)@),
        ensures
            final(self).inv(),
            build_wf(final(self)@),
            final(self)@ == def_s(old(self)@, *p),
    {
        let k = &p.inner;
        if k.len() >= 2 && (k[k.len() - 1].rule == Rule::InitVal || k[k.len() - 1].rule == Rule::ConstInitVal) {
            let v = self.lower_exp(&k[k.len() - 1]);
            match v {
                None => {}
                Some(x) => {
                    let slot = self.fresh(k[0].text.as_str());
                    self.emit(Instr::Alloca { result: slot.clone() });
                    self.emit(Instr::Store { value: x, ptr: IrValue::Named(slot.clone()) });
                    let ghost s3 = self@;
                    let ghost sv = slot@;
                    self.scope.push((k[0].text.clone(), slot));
                    assert(self@.blocks =~= s3.blocks);
                    assert(self@.scope =~= s3.scope.push((k@[0].text@, sv)));
                }
            }
        }
    }

    /// Lowers a statement, declaration or block item (see `item_s`).
    fn lower_item(&mut self, p: &CheckPair, has_lp: bool, lc: &String, ln: &String)
        requires
            old(self).inv(),
            build_wf(old(self)@),
        ensures
            final(self).inv(),
            build_wf(final(self)@),
            final(self)@ == item_s(old(self)@, *p, loop_view(has_lp, *lc, *ln)),
        decreases p, 1int,
    {
        let k = &p.inner;
        match p.rule {
            Rule::BlockItem | Rule::Stmt | Rule::Decl | Rule::VarDecl | Rule::ConstDecl => {
                self.lower_items(k, has_lp, lc, ln, false);
            }
            Rule::VarDef | Rule::ConstDef => {
                self.lower_def(p);
            }
            Rule::AssignStmt => {
                if k.len() >= 3 && k[0].inner.len() > 0 {
                    let v = self.lower_exp(&k[2]);
                    let slot = self.lookup(k[0].inner[0].text.as_str());
                    match (v, slot) {
                        (Some(x), Some(sl)) => {
                            self.emit(Instr::Store { value: x, ptr: IrValue::Named(sl) });
                        }
                        _ => {}
                    }
                }
            }
            Rule::ExpStmt => {
                if k.len() > 0 && k[0].rule == Rule::Exp {
                    let _ = self.lower_exp(&k[0]);
                }
            }
            Rule::Block => {
                let saved = copy_scope(&self.scope);
                self.lower_items(k, has_lp, lc, ln, false);
                let ghost s1 = self@;
                self.scope = saved;
                assert(self@.blocks =~= s1.blocks);
            }
            Rule::IfStmt => {
                self.lower_if_stmt(k, has_lp, lc, ln);
            }
            Rule::WhileStmt => {
                self.lower_while_stmt(k);
            }
            Rule::ReturnStmt => {
                if k.len() > 1 && k[1].rule == Rule::Exp {
                    let v = self.lower_exp(&k[1]);
                    self.emit(Instr::Ret { returned: v });
                } else {
                    self.emit(Instr::Ret { returned: None });
                }
            }
            Rule::ContinueStmt => {
                if has_lp {
                    self.emit(Instr::Br { target: lc.clone() });
                }
            }
            Rule::BreakStmt => {
                if has_lp {
                    self.emit(Instr::Br { target: ln.clone() });
                }
            }
            _ => {}
        }
    }

    /// Lowers an `if` statement from its children (see `if_s`).
    pub fn lower_if_stmt(&mut self, k: &Vec<CheckPair>, has_lp: bool, lc: &String, ln: &String)
        requires
            old(self).inv(),
            build_wf(old(self)@),
        ensures
            final(self).inv(),
            build_wf(final(self)@),
            final(self)@ == if_s(old(self)@, k@, loop_view(has_lp, *lc, *ln)),
        decreases k@, 0int,
    {
        if k.len() < 5 {
            return;
        }
        let tb = self.new_block("if_true");
        let nb = self.new_block("if_next");
        let empty = String::new();
        if k.len() >= 7 && k[5].rule == Rule::Else {
            let fb = self.new_block("if_false");
            self.lower_cond_branches(&k[2], &tb, &fb);
            self.go_to(&tb);
            self.lower_items(&k[4].inner, false, &empty, &empty, false);
            self.close_to(&nb);
            self.go_to(&fb);
            self.lower_items(&k[6].inner, false, &empty, &empty, false);
            self.close_to(&nb);
        } else {
            self.lower_cond_branches(&k[2], &tb, &nb);
            self.go_to(&tb);
            self.lower_items(&k[4].inner, has_lp, lc, ln, true);
            self.close_to(&nb);
        }
        self.go_to(&nb);
    }

    /// Lowers a `while` statement from its children (see `while_s`).
    pub fn lower_while_stmt(&mut self, k: &Vec<CheckPair>)
        requires
            old(self).inv(),
            build_wf(old(self)@),
        ensures
            final(self).inv(),
            build_wf(final(self)@),
            final(self)@ == while_s(old(self)@, k@),
        decreases k@, 0int,
    {
        if k.len() < 5 {
            return;
        }
        let cb = self.new_block("whileCond");
        let bb = self.new_block("whileBody");
        let nb = self.new_block("whileNext");
        self.emit(Instr::Br { target: cb.clone() });
        self.go_to(&cb);
        self.lower_cond_branches(&k[2], &bb, &nb);
        self.go_to(&bb);
        self.lower_items(&k[4].inner, true, &cb, &nb, false);
        self.close_to(&cb);
        self.go_to(&nb);
    }
}

// ---------------------------------------------------------------------------
// Functions and programs.
// ---------------------------------------------------------------------------

/// The names of the parameters among the children of a `FuncFParams` node.
pub open spec fn param_names(k: Seq<CheckPair>) -> Seq<Seq<char>>
    decreases k.len(),
{
    if k.len() == 0 {
        Seq::empty()
    } else {
        let r = param_names(k.drop_last());
        let x = k.last();
        if x.rule == Rule::FuncFParam && x.inner@.len() >= 2 { r.push(x.inner@[1].text@) } else { r }
    }
}

/// The state after giving each parameter a new slot that holds its value.
pub open spec fn params_s(st: BuildView, ps: Seq<Seq<char>>) -> BuildView
    decreases ps.len(),
{
    if ps.len() == 0 {
        st
    } else {
        let s1 = params_s(st, ps.drop_last());
        let n = ps.last();
        let slot = fresh_name(s1, n);
        let s2 = emit(bump(s1), IV::Alloca(slot));
        let s3 = emit(s2, IV::Store(VV::Named(n), VV::Named(slot)));
        BuildView { scope: s3.scope.push((n, slot)), ..s3 }
    }
}

/// A function's builder before its body: one entry block, the given names visible.
pub open spec fn func_start(scope: Seq<(Seq<char>, Seq<char>)>, name: Seq<char>) -> BuildView {
    BuildView { blocks: seq![(name + "Entry"@, Seq::<IV>::empty())], cur: 0, made: 0, scope }
}

/// The name and the final builder of a function definition: its parameters
/// get slots in the entry block, its body is lowered, and a block left
/// without an end returns 0 (or nothing, for a `void` function).
pub open spec fn func_s(scope: Seq<(Seq<char>, Seq<char>)>, p: CheckPair) -> Option<(Seq<char>, BuildView)> {
    let k = p.inner@;
    if k.len() < 5 {
        None
    } else {
        let name = k[1].text@;
        let is_int = k[0].inner@.len() > 0 && k[0].inner@[0].rule == Rule::Int;
        let with_params = k[3].rule == Rule::FuncFParams;
        let ps = if with_params { param_names(k[3].inner@) } else { Seq::empty() };
        let body = if with_params { 5int } else { 4int };
        let s1 = params_s(func_start(scope, name), ps);
        let s2 = if body < k.len() { items_s(s1, k[body].inner@, None, false) } else { s1 };
        let s3 = if terminated(s2) {
            s2
        } else {
            emit(s2, IV::Ret(if is_int { Some(VV::Const(0)) } else { None }))
        };
        Some((name, s3))
    }
}

/// The literal a node comes down to through nodes of one child, if any.
pub open spec fn plain_literal(p: CheckPair) -> Option<u64>
    decreases p,
{
    if p.rule == Rule::Number {
        literal_value(p.text@)
    } else if p.inner@.len() == 1 {
        plain_literal(p.inner@[0])
    } else {
        None
    }
}

/// The globals defined among the children of a declaration list: each
/// definition with an initial value, taken as its literal (0 for another
/// expression); a definition without one defines nothing.
pub open spec fn defs_globals(k: Seq<CheckPair>) -> Seq<(Seq<char>, Option<u64>)>
    decreases k.len(),
{
    if k.len() == 0 {
        Seq::empty()
    } else {
        let r = defs_globals(k.drop_last());
        let x = k.last().inner@;
        if (k.last().rule == Rule::VarDef || k.last().rule == Rule::ConstDef) && x.len() >= 2
            && (x.last().rule == Rule::InitVal || x.last().rule == Rule::ConstInitVal) {
            r.push((x[0].text@, plain_literal(x.last())))
        } else {
            r
        }
    }
}

/// The globals of a declaration (`Decl`, whose children are `ConstDecl` or `VarDecl`).
pub open spec fn decl_globals(k: Seq<CheckPair>) -> Seq<(Seq<char>, Option<u64>)>
    decreases k.len(),
{
    if k.len() == 0 {
        Seq::empty()
    } else {
        let r = decl_globals(k.drop_last());
        if k.last().rule == Rule::ConstDecl || k.last().rule == Rule::VarDecl {
            r + defs_globals(k.last().inner@)
        } else {
            r
        }
    }
}

/// What a module stands for: its globals (name, initial value) and its
/// functions (name, blocks).
pub struct ModuleView {
    pub globals: Seq<(Seq<char>, Option<u64>)>,
    pub functions: Seq<(Seq<char>, Seq<(Seq<char>, Seq<IV>)>)>,
}

/// The names visible in a function: the globals defined before it.
pub open spec fn global_scope(gs: Seq<(Seq<char>, Option<u64>)>) -> Seq<(Seq<char>, Seq<char>)> {
    gs.map_values(|g: (Seq<char>, Option<u64>)| (g.0, g.0))
}

/// The module of a program's top-level units, taken in order: declarations
/// add globals, function definitions add functions that see the globals
/// defined before them.
pub open spec fn program_s(units: Seq<CheckPair>) -> ModuleView
    decreases units.len(),
{
    if units.len() == 0 {
        ModuleView { globals: Seq::empty(), functions: Seq::empty() }
    } else {
        let m = program_s(units.drop_last());
        let u = units.last();
        if u.rule == Rule::FuncDef {
            match func_s(global_scope(m.globals), u) {
                Some((n, st)) => ModuleView { functions: m.functions.push((n, st.blocks)), ..m },
                None => m,
            }
        } else if u.rule == Rule::Decl {
            ModuleView { globals: m.globals + decl_globals(u.inner@), ..m }
        } else {
            m
        }
    }
}

/// A function by its view.
pub open spec fn function_view(f: IrFunction) -> (Seq<char>, Seq<(Seq<char>, Seq<IV>)>) {
    (f.name@, f.blocks@.map_values(|b: IrBlock| block_view(b)))
}

/// A module by its view.
pub open spec fn module_view(m: IrModule) -> ModuleView {
    ModuleView {
        globals: m.globals@.map_values(|g: IrGlobal| (g.name@, g.init)),
        functions: m.functions@.map_values(|f: IrFunction| function_view(f)),
    }
}

impl FnBuilder {
    /// A builder for a function: one entry block named after it, the given names visible.
    pub fn start(scope: Vec<(String, String)>, name: &String) -> (r: Self)
        ensures
            r.inv(),
            r@ == func_start(scope@.map_values(|e: (String, String)| (e.0@, e.1@)), name@),
    {
        let mut l = name.clone();
        proof { reveal_strlit("Entry"); }
        l.append("Entry");
        let mut labels: Vec<String> = Vec::new();
        labels.push(l);
        let mut code: Vec<Vec<Instr>> = Vec::new();
        let empty: Vec<Instr> = Vec::new();
        assert(code_view(empty) =~= Seq::<IV>::empty());
        code.push(empty);
        let r = FnBuilder { labels, code, cur: 0, made: 0, scope };
        assert(r@.blocks =~= seq![(name@ + "Entry"@, Seq::<IV>::empty())]);
        r
    }

    /// Gives each parameter a slot holding its value (see `params_s`).
    fn lower_params(&mut self, ps: &Vec<String>)
        requires
            old(self).inv(),
            build_wf(old(self)@),
        ensures
            final(self).inv(),
            build_wf(final(self)@),
            final(self)@ == params_s(old(self)@, ps@.map_values(|x: String| x@)),
    {
        let ghost pv = ps@.map_values(|x: String| x@);
        let mut i: usize = 0;
        assert(pv.take(0) =~= Seq::<Seq<char>>::empty());
        while i < ps.len()
            invariant
                i <= ps.len(),
                pv == ps@.map_values(|x: String| x@),
                self.inv(),
                build_wf(self@),
                self@ == params_s(old(self)@, pv.take(i as int)),
            decreases ps.len() - i,
        {
            assert(pv.take(i + 1).drop_last() =~= pv.take(i as int));
            assert(pv.take(i + 1).last() == ps@[i as int]@);
            let n = &ps[i];
            let slot = self.fresh(n.as_str());
            self.emit(Instr::Alloca { result: slot.clone() });
            self.emit(Instr::Store { value: IrValue::Named(n.clone()), ptr: IrValue::Named(slot.clone()) });
            let ghost s3 = self@;
            let ghost sv = slot@;
            self.scope.push((n.clone(), slot));
            assert(self@.blocks =~= s3.blocks);
            assert(self@.scope =~= s3.scope.push((n@, sv)));
            i = i + 1;
        }
        assert(pv.take(ps.len() as int) =~= pv);
    }

    /// The function with the given name and the blocks built.
    pub fn finish(self, name: String) -> (r: IrFunction)
        requires
            self.inv(),
        ensures
            function_view(r) == (name@, self@.blocks),
    {
        let ghost bs = self@.blocks;
        let FnBuilder { labels, code, .. } = self;
        let mut blocks: Vec<IrBlock> = Vec::new();
        let mut i: usize = 0;
        while i < labels.len()
            invariant
                i <= labels.len(),
                labels@.len() == code@.len(),
                bs == Seq::new(labels@.len(), |j: int| (labels@[j]@, code_view(code@[j]))),
                blocks@.map_values(|b: IrBlock| block_view(b)) == bs.take(i as int),
            decreases labels.len() - i,
        {
            let ghost before = blocks@.map_values(|b: IrBlock| block_view(b));
            let b = IrBlock { name: labels[i].clone(), instrs: copy_instrs(&code[i]) };
            assert(block_view(b) == bs[i as int]);
            blocks.push(b);
            assert(blocks@.map_values(|b: IrBlock| block_view(b)) =~= before.push(bs[i as int]));
            assert(bs.take(i + 1) =~= bs.take(i as int).push(bs[i as int]));
            i = i + 1;
        }
        assert(bs.take(labels.len() as int) =~= bs);
        IrFunction { name, blocks }
    }
}

/// A copy of a value.
fn copy_value(v: &IrValue) -> (r: IrValue)
    ensures
        vv(r) == vv(*v),
{
    match v {
        IrValue::Const(c) => IrValue::Const(*c),
        IrValue::Named(n) => IrValue::Named(n.clone()),
    }
}

/// A copy of an instruction.
fn copy_instr(i: &Instr) -> (r: Instr)
    ensures
        iv(r) == iv(*i),
{
    match i {
        Instr::Alloca { result } => Instr::Alloca { result: result.clone() },
        Instr::Load { result, ptr } => Instr::Load { result: result.clone(), ptr: copy_value(ptr) },
        Instr::Store { value, ptr } => Instr::Store { value: copy_value(value), ptr: copy_value(ptr) },
        Instr::Binary { op, result, lhs, rhs } =>
            Instr::Binary { op: *op, result: result.clone(), lhs: copy_value(lhs), rhs: copy_value(rhs) },
        Instr::ICmp { pred, result, lhs, rhs } =>
            Instr::ICmp { pred: *pred, result: result.clone(), lhs: copy_value(lhs), rhs: copy_value(rhs) },
        Instr::ZExt { result, value } => Instr::ZExt { result: result.clone(), value: copy_value(value) },
        Instr::Br { target } => Instr::Br { target: target.clone() },
        Instr::CondBr { cond, true_target, false_target } =>
            Instr::CondBr { cond: copy_value(cond), true_target: true_target.clone(), false_target: false_target.clone() },
        Instr::Ret { returned } => Instr::Ret {
            returned: match returned {
                Some(x) => Some(copy_value(x)),
                None => None,
            },
        },
        Instr::Other { result } => Instr::Other { result: result.clone() },
    }
}

/// A copy of a list of instructions.
fn copy_instrs(c: &Vec<Instr>) -> (r: Vec<Instr>)
    ensures
        code_view(r) == code_view(*c),
{
    let mut r: Vec<Instr> = Vec::new();
    let mut i: usize = 0;
    while i < c.len()
        invariant
            i <= c.len(),
            code_view(r) == code_view(*c).take(i as int),
        decreases c.len() - i,
    {
        let ghost before = code_view(r);
        r.push(copy_instr(&c[i]));
        assert(code_view(r) =~= before.push(iv(c@[i as int])));
        assert(code_view(*c).take(i + 1) =~= code_view(*c).take(i as int).push(iv(c@[i as int])));
        i = i + 1;
    }
    assert(code_view(*c).take(c.len() as int) =~= code_view(*c));
    r
}

/// The parameter names among the children of a `FuncFParams` node.
fn collect_params(k: &Vec<CheckPair>) -> (r: Vec<String>)
    ensures
        r@.map_values(|x: String| x@) == param_names(k@),
{
    let mut r: Vec<String> = Vec::new();
    let mut i: usize = 0;
    assert(k@.take(0) =~= Seq::<CheckPair>::empty());
    while i < k.len()
        invariant
            i <= k.len(),
            r@.map_values(|x: String| x@) == param_names(k@.take(i as int)),
        decreases k.len() - i,
    {
        assert(k@.take(i + 1).drop_last() =~= k@.take(i as int));
        assert(k@.take(i + 1).last() == k@[i as int]);
        let ghost before = r@.map_values(|x: String| x@);
        if k[i].rule == Rule::FuncFParam && k[i].inner.len() >= 2 {
            r.push(k[i].inner[1].text.clone());
            assert(r@.map_values(|x: String| x@) =~= before.push(k@[i as int].inner@[1].text@));
        }
        i = i + 1;
    }
    assert(k@.take(k.len() as int) =~= k@);
    r
}

/// Lowers a function definition, in which the given names are visible (see `func_s`).
pub fn lower_func_def(scope: Vec<(String, String)>, p: &CheckPair) -> (r: Option<IrFunction>)
    ensures
        match func_s(scope@.map_values(|e: (String, String)| (e.0@, e.1@)), *p) {
            Some((n, st)) => r matches Some(f) && function_view(f) == (n, st.blocks),
            None => r is None,
        },
{
    let k = &p.inner;
    if k.len() < 5 {
        return None;
    }
    let name = k[1].text.clone();
    let is_int = k[0].inner.len() > 0 && k[0].inner[0].rule == Rule::Int;
    let with_params = k[3].rule == Rule::FuncFParams;
    let ps: Vec<String> = if with_params { collect_params(&k[3].inner) } else { Vec::new() };
    assert(ps@.map_values(|x: String| x@) =~= (if with_params { param_names(k@[3].inner@) } else { Seq::empty() }));
    let body: usize = if with_params { 5 } else { 4 };
    let mut b = FnBuilder::start(scope, &name);
    b.lower_params(&ps);
    if body < k.len() {
        let empty = String::new();
        b.lower_items(&k[body].inner, false, &empty, &empty, false);
    }
    if !b.is_terminated() {
        if is_int {
            b.emit(Instr::Ret { returned: Some(IrValue::Const(0)) });
        } else {
            b.emit(Instr::Ret { returned: None });
        }
    }
    Some(b.finish(name))
}

/// The literal a node comes down to (see `plain_literal`).
fn plain_literal_of(p: &CheckPair) -> (r: Option<u64>)
    ensures
        r == plain_literal(*p),
    decreases p,
{
    if p.rule == Rule::Number {
        literal(p.text.as_str())
    } else if p.inner.len() == 1 {
        plain_literal_of(&p.inner[0])
    } else {
        None
    }
}

/// The views of a list of globals.
pub open spec fn globals_view(gs: Seq<IrGlobal>) -> Seq<(Seq<char>, Option<u64>)> {
    gs.map_values(|g: IrGlobal| (g.name@, g.init))
}

/// Appends the globals of a list of definitions (see `defs_globals`).
fn push_defs_globals(k: &Vec<CheckPair>, out: &mut Vec<IrGlobal>)
    ensures
        globals_view(final(out)@) == globals_view(old(out)@) + defs_globals(k@),
{
    let ghost g0 = globals_view(out@);
    let mut i: usize = 0;
    assert(k@.take(0) =~= Seq::<CheckPair>::empty());
    assert(g0 + defs_globals(k@.take(0)) =~= g0);
    while i < k.len()
        invariant
            i <= k.len(),
            globals_view(out@) == g0 + defs_globals(k@.take(i as int)),
        decreases k.len() - i,
    {
        assert(k@.take(i + 1).drop_last() =~= k@.take(i as int));
        assert(k@.take(i + 1).last() == k@[i as int]);
        let x = &k[i].inner;
        let ghost before = globals_view(out@);
        if (k[i].rule == Rule::VarDef || k[i].rule == Rule::ConstDef) && x.len() >= 2
            && (x[x.len() - 1].rule == Rule::InitVal || x[x.len() - 1].rule == Rule::ConstInitVal) {
            let init = plain_literal_of(&x[x.len() - 1]);
            out.push(IrGlobal { name: x[0].text.clone(), init });
            assert(globals_view(out@) =~= before.push((x@[0].text@, init)));
        }
        assert(g0 + defs_globals(k@.take(i + 1)) =~= globals_view(out@));
        i = i + 1;
    }
    assert(k@.take(k.len() as int) =~= k@);
}

/// Appends the globals of a declaration's children (see `decl_globals`).
fn push_decl_globals(k: &Vec<CheckPair>, out: &mut Vec<IrGlobal>)
    ensures
        globals_view(final(out)@) == globals_view(old(out)@) + decl_globals(k@),
{
    let ghost g0 = globals_view(out@);
    let mut i: usize = 0;
    assert(k@.take(0) =~= Seq::<CheckPair>::empty());
    assert(g0 + decl_globals(k@.take(0)) =~= g0);
    while i < k.len()
        invariant
            i <= k.len(),
            globals_view(out@) == g0 + decl_globals(k@.take(i as int)),
        decreases k.len() - i,
    {
        assert(k@.take(i + 1).drop_last() =~= k@.take(i as int));
        assert(k@.take(i + 1).last() == k@[i as int]);
        let ghost before = globals_view(out@);
        if k[i].rule == Rule::ConstDecl || k[i].rule == Rule::VarDecl {
            push_defs_globals(&k[i].inner, out);
            assert(g0 + decl_globals(k@.take(i + 1)) =~= before + defs_globals(k@[i as int].inner@));
        } else {
            assert(g0 + decl_globals(k@.take(i + 1)) =~= before);
        }
        i = i + 1;
    }
    assert(k@.take(k.len() as int) =~= k@);
}

/// The names the functions see: each global, held in itself.
fn scope_of_globals(gs: &Vec<IrGlobal>) -> (r: Vec<(String, String)>)
    ensures
        r@.map_values(|e: (String, String)| (e.0@, e.1@)) == global_scope(globals_view(gs@)),
{
    let mut r: Vec<(String, String)> = Vec::new();
    let mut i: usize = 0;
    while i < gs.len()
        invariant
            i <= gs.len(),
            r@.map_values(|e: (String, String)| (e.0@, e.1@)) == global_scope(globals_view(gs@)).take(i as int),
        decreases gs.len() - i,
    {
        let ghost before = r@.map_values(|e: (String, String)| (e.0@, e.1@));
        r.push((gs[i].name.clone(), gs[i].name.clone()));
        assert(r@.map_values(|e: (String, String)| (e.0@, e.1@)) =~= before.push((gs@[i as int].name@, gs@[i as int].name@)));
        assert(global_scope(globals_view(gs@)).take(i + 1) =~= global_scope(globals_view(gs@)).take(i as int).push(
            (gs@[i as int].name@, gs@[i as int].name@)));
        i = i + 1;
    }
    assert(global_scope(globals_view(gs@)).take(gs.len() as int) =~= global_scope(globals_view(gs@)));
    r
}

/// Lowers a program's top-level units to a module (see `program_s`).
pub fn lower_program(units: &Vec<CheckPair>) -> (r: IrModule)
    ensures
        module_view(r) == program_s(units@),
{
    let mut globals: Vec<IrGlobal> = Vec::new();
    let mut functions: Vec<IrFunction> = Vec::new();
    let mut i: usize = 0;
    assert(units@.take(0) =~= Seq::<CheckPair>::empty());
    assert(globals_view(globals@) =~= Seq::<(Seq<char>, Option<u64>)>::empty());
    assert(functions@.map_values(|f: IrFunction| function_view(f)) =~= Seq::<(Seq<char>, Seq<(Seq<char>, Seq<IV>)>)>::empty());
    while i < units.len()
        invariant
            i <= units.len(),
            globals_view(globals@) == program_s(units@.take(i as int)).globals,
            functions@.map_values(|f: IrFunction| function_view(f)) == program_s(units@.take(i as int)).functions,
        decreases units.len() - i,
    {
        assert(units@.take(i + 1).drop_last() =~= units@.take(i as int));
        assert(units@.take(i + 1).last() == units@[i as int]);
        let u = &units[i];
        if u.rule == Rule::FuncDef {
            let scope = scope_of_globals(&globals);
            let f = lower_func_def(scope, u);
            match f {
                Some(f) => {
                    let ghost before = functions@.map_values(|f: IrFunction| function_view(f));
                    let ghost fv = function_view(f);
                    functions.push(f);
                    assert(functions@.map_values(|f: IrFunction| function_view(f)) =~= before.push(fv));
                }
                None => {}
            }
        } else if u.rule == Rule::Decl {
            push_decl_globals(&u.inner, &mut globals);
        }
        i = i + 1;
    }
    assert(units@.take(units.len() as int) =~= units@);
    let r = IrModule { globals, functions };
    assert(module_view(r).globals =~= program_s(units@).globals);
    assert(module_view(r).functions =~= program_s(units@).functions);
    r
}

// ---------------------------------------------------------------------------
// Laws of the lowering.
// ---------------------------------------------------------------------------

/// True when `b` differs from `a` at most by instructions added to the
/// current block (and by names made or bound).
pub open spec fn only_current_grows(a: BuildView, b: BuildView) -> bool {
    &&& b.cur == a.cur
    &&& b.blocks.len() == a.blocks.len()
    &&& b.blocks[a.cur as int].0 == a.blocks[a.cur as int].0
    &&& forall|j: int| 0 <= j < a.blocks.len() && j != a.cur ==> #[trigger] b.blocks[j] == a.blocks[j]
}

proof fn lemma_emit_frame(st: BuildView, i: IV)
    requires
        build_wf(st),
    ensures
        only_current_grows(st, emit(st, i)),
        build_wf(emit(st, i)),
        emit(st, i).blocks[st.cur as int].1 == st.blocks[st.cur as int].1.push(i),
{
}

proof fn lemma_compare_frame(st: BuildView, p: CmpPred, l: VV, r: VV)
    requires
        build_wf(st),
    ensures
        only_current_grows(st, compare_s(st, p, l, r).0),
        build_wf(compare_s(st, p, l, r).0),
{
    let s1 = emit(bump(st), IV::ICmp(p, fresh_name(st, "cmp"@), l, r));
    lemma_emit_frame(bump(st), IV::ICmp(p, fresh_name(st, "cmp"@), l, r));
    lemma_emit_frame(bump(s1), IV::ZExt(fresh_name(s1, "zext"@), VV::Named(fresh_name(st, "cmp"@))));
}

proof fn lemma_apply_frame(st: BuildView, op: Rule, l: VV, r: VV)
    requires
        build_wf(st),
    ensures
        only_current_grows(st, apply_op(st, op, l, r).0),
        build_wf(apply_op(st, op, l, r).0),
{
    match arith_op(op) {
        Some(b) => {
            lemma_emit_frame(bump(st), IV::Binary(b, fresh_name(st, "bin"@), l, r));
        },
        None => match cmp_op(op) {
            Some(p) => lemma_compare_frame(st, p, l, r),
            None => {},
        },
    }
}

/// Evaluating an expression only adds instructions to the current block.
pub proof fn lemma_exp_frame(st: BuildView, p: CheckPair)
    requires
        build_wf(st),
    ensures
        only_current_grows(st, exp_s(st, p).0),
        build_wf(exp_s(st, p).0),
    decreases p, 2int,
{
    let k = p.inner@;
    match p.rule {
        Rule::Exp | Rule::ConstExp | Rule::InitVal | Rule::ConstInitVal | Rule::UnaryExp => {
            if k.len() > 0 { lemma_exp_frame(st, k[0]); }
        },
        Rule::AddExp | Rule::MulExp | Rule::RelExp | Rule::EqExp => lemma_chain_frame(st, k),
        Rule::PrimaryExp => {
            if k.len() > 0 && k[0].rule == Rule::OpenParen {
                if k.len() > 1 { lemma_exp_frame(st, k[1]); }
            } else if k.len() > 0 {
                lemma_exp_frame(st, k[0]);
            }
        },
        Rule::LVal => {
            if k.len() > 0 {
                if let Some(slot) = lookup(st.scope, k[0].text@) {
                    lemma_emit_frame(bump(st), IV::Load(fresh_name(st, "load"@), VV::Named(slot)));
                }
            }
        },
        Rule::UnaryOpExp => {
            if k.len() >= 2 && k[0].inner@.len() > 0 {
                lemma_exp_frame(st, k[1]);
                let (s1, v) = exp_s(st, k[1]);
                if let Some(x) = v {
                    match k[0].inner@[0].rule {
                        Rule::Minus => {
                            lemma_emit_frame(bump(s1), IV::Binary(BinOp::Sub, fresh_name(s1, "neg"@), VV::Const(0), x));
                        },
                        Rule::Not => lemma_compare_frame(s1, CmpPred::Eq, x, VV::Const(0)),
                        _ => {},
                    }
                }
            }
        },
        _ => {},
    }
}

/// Evaluating a chain only adds instructions to the current block.
pub proof fn lemma_chain_frame(st: BuildView, k: Seq<CheckPair>)
    requires
        build_wf(st),
    ensures
        only_current_grows(st, chain_s(st, k).0),
        build_wf(chain_s(st, k).0),
    decreases k, 1int,
{
    if k.len() == 1 {
        lemma_exp_frame(st, k[0]);
    } else if k.len() == 2 {
        lemma_chain_frame(st, k.drop_last());
    } else if k.len() > 2 {
        lemma_chain_frame(st, k.subrange(0, k.len() - 2));
        let (s1, l) = chain_s(st, k.subrange(0, k.len() - 2));
        if let Some(lv) = l {
            lemma_exp_frame(s1, k.last());
            let (s2, r) = exp_s(s1, k.last());
            if let Some(rv) = r {
                lemma_apply_frame(s2, k[k.len() - 2].rule, lv, rv);
            }
        }
    }
}

/// Lowering the conjuncts of an `&&` leaves every block made before alone,
/// except the current one.
pub proof fn lemma_and_keeps_blocks(st: BuildView, eqs: Seq<CheckPair>, t: Seq<char>, f: Seq<char>)
    requires
        build_wf(st),
    ensures
        and_s(st, eqs, t, f).blocks.len() >= st.blocks.len(),
        forall|j: int| 0 <= j < st.blocks.len() && j != st.cur ==> #[trigger] and_s(st, eqs, t, f).blocks[j] == st.blocks[j],
    decreases eqs.len(),
{
    if eqs.len() == 1 {
        lemma_exp_frame(st, eqs[0]);
        let (s1, v) = exp_s(st, eqs[0]);
        if let Some(x) = v {
            let c = fresh_name(s1, "cond"@);
            lemma_emit_frame(bump(s1), IV::ICmp(CmpPred::Ne, c, x, VV::Const(0)));
            lemma_emit_frame(emit(bump(s1), IV::ICmp(CmpPred::Ne, c, x, VV::Const(0))), IV::CondBr(VV::Named(c), t, f));
        }
    } else if eqs.len() > 1 {
        let (s1, nb) = new_block(st, "and_continue"@);
        lemma_exp_frame(s1, eqs[0]);
        let (s2, v) = exp_s(s1, eqs[0]);
        if let Some(x) = v {
            let c = fresh_name(s2, "cond"@);
            lemma_emit_frame(bump(s2), IV::ICmp(CmpPred::Ne, c, x, VV::Const(0)));
            lemma_emit_frame(emit(bump(s2), IV::ICmp(CmpPred::Ne, c, x, VV::Const(0))), IV::CondBr(VV::Named(c), nb, f));
        }
        let s3 = branch_on(s2, v, nb, f);
        let s4 = position(s3, nb);
        assert(s3.blocks.last().0 == nb);
        assert(s4.cur == s3.blocks.len() - 1);
        lemma_and_keeps_blocks(s4, eqs.drop_first(), t, f);
    }
}

/// Short-circuit `&&`: when an `&&` has more than one conjunct and the first
/// one has a value, the current block gets the first conjunct's evaluation,
/// a test against 0 and a branch to the false target `f` when it is 0 (to a
/// new block otherwise), and nothing more; no other block made before
/// changes. So the later conjuncts are lowered only in blocks made after, and
/// none of them is evaluated on the way to `f`.
pub proof fn lemma_and_short_circuit(st: BuildView, eqs: Seq<CheckPair>, t: Seq<char>, f: Seq<char>)
    requires
        build_wf(st),
        eqs.len() >= 2,
        exp_s(new_block(st, "and_continue"@).0, eqs[0]).1 is Some,
    ensures
        ({
            let r = and_s(st, eqs, t, f);
            let (s1, nb) = new_block(st, "and_continue"@);
            let (s2, v) = exp_s(s1, eqs[0]);
            let c = fresh_name(s2, "cond"@);
            let is = r.blocks[st.cur as int].1;
            &&& is == s2.blocks[st.cur as int].1 + seq![
                IV::ICmp(CmpPred::Ne, c, v->0, VV::Const(0)),
                IV::CondBr(VV::Named(c), nb, f),
            ]
            &&& forall|j: int| 0 <= j < st.blocks.len() && j != st.cur ==> #[trigger] r.blocks[j] == st.blocks[j]
        }),
{
    let (s1, nb) = new_block(st, "and_continue"@);
    lemma_exp_frame(s1, eqs[0]);
    let (s2, v) = exp_s(s1, eqs[0]);
    let x = v->0;
    let c = fresh_name(s2, "cond"@);
    let e1 = emit(bump(s2), IV::ICmp(CmpPred::Ne, c, x, VV::Const(0)));
    lemma_emit_frame(bump(s2), IV::ICmp(CmpPred::Ne, c, x, VV::Const(0)));
    lemma_emit_frame(e1, IV::CondBr(VV::Named(c), nb, f));
    let s3 = branch_on(s2, v, nb, f);
    let s4 = position(s3, nb);
    assert(s3.blocks.last().0 == nb);
    assert(s4.cur == s3.blocks.len() - 1);
    lemma_and_keeps_blocks(s4, eqs.drop_first(), t, f);
    assert(and_s(st, eqs, t, f) == and_s(s4, eqs.drop_first(), t, f));
    assert(s3.blocks[st.cur as int].1 =~= s2.blocks[st.cur as int].1 + seq![
        IV::ICmp(CmpPred::Ne, c, x, VV::Const(0)),
        IV::CondBr(VV::Named(c), nb, f),
    ]);
    lemma_and_keeps_blocks(st, eqs, t, f);
}

proof fn lemma_block_index_at_least(bs: Seq<(Seq<char>, Seq<IV>)>, l: Seq<char>, i: int)
    requires
        0 <= i < bs.len(),
        bs[i].0 == l,
    ensures
        i <= block_index(bs, l) < bs.len(),
    decreases bs.len(),
{
    if bs.last().0 != l {
        assert(i < bs.len() - 1);
        assert(bs.drop_last()[i] == bs[i]);
        lemma_block_index_at_least(bs.drop_last(), l, i);
    }
}

/// Lowering the disjuncts of an `||` leaves every block made before alone,
/// except the current one.
pub proof fn lemma_or_keeps_blocks(st: BuildView, ands: Seq<CheckPair>, t: Seq<char>, f: Seq<char>)
    requires
        build_wf(st),
    ensures
        or_s(st, ands, t, f).blocks.len() >= st.blocks.len(),
        forall|j: int| 0 <= j < st.blocks.len() && j != st.cur ==> #[trigger] or_s(st, ands, t, f).blocks[j] == st.blocks[j],
    decreases ands.len(),
{
    if ands.len() == 1 {
        lemma_and_keeps_blocks(st, operands(ands[0].inner@, Rule::EqExp), t, f);
    } else if ands.len() > 1 {
        let (s1, nb) = new_block(st, "or_continue"@);
        let ops = operands(ands[0].inner@, Rule::EqExp);
        lemma_and_keeps_blocks(s1, ops, t, nb);
        let s2 = and_s(s1, ops, t, nb);
        assert(s2.blocks[st.blocks.len() as int] == s1.blocks[st.blocks.len() as int]);
        lemma_block_index_at_least(s2.blocks, nb, st.blocks.len() as int);
        let s3 = position(s2, nb);
        lemma_or_keeps_blocks(s3, ands.drop_first(), t, f);
    }
}

/// Short-circuit `||`: when an `||` has more than one disjunct and the first
/// one is a single operand with a value, the current block gets its
/// evaluation, a test against 0 and a branch to the true target `t` when it
/// is not 0 (to a new block otherwise), and nothing more; no other block made
/// before changes. So the later disjuncts are not evaluated on the way to `t`.
pub proof fn lemma_or_short_circuit(st: BuildView, ands: Seq<CheckPair>, t: Seq<char>, f: Seq<char>)
    requires
        build_wf(st),
        ands.len() >= 2,
        operands(ands[0].inner@, Rule::EqExp).len() == 1,
        exp_s(new_block(st, "or_continue"@).0, operands(ands[0].inner@, Rule::EqExp)[0]).1 is Some,
    ensures
        ({
            let r = or_s(st, ands, t, f);
            let (s1, nb) = new_block(st, "or_continue"@);
            let (s2, v) = exp_s(s1, operands(ands[0].inner@, Rule::EqExp)[0]);
            let c = fresh_name(s2, "cond"@);
            &&& r.blocks[st.cur as int].1 == s2.blocks[st.cur as int].1 + seq![
                IV::ICmp(CmpPred::Ne, c, v->0, VV::Const(0)),
                IV::CondBr(VV::Named(c), t, nb),
            ]
            &&& forall|j: int| 0 <= j < st.blocks.len() && j != st.cur ==> #[trigger] r.blocks[j] == st.blocks[j]
        }),
{
    let (s1, nb) = new_block(st, "or_continue"@);
    let ops = operands(ands[0].inner@, Rule::EqExp);
    lemma_exp_frame(s1, ops[0]);
    let (s2, v) = exp_s(s1, ops[0]);
    let x = v->0;
    let c = fresh_name(s2, "cond"@);
    let e1 = emit(bump(s2), IV::ICmp(CmpPred::Ne, c, x, VV::Const(0)));
    lemma_emit_frame(bump(s2), IV::ICmp(CmpPred::Ne, c, x, VV::Const(0)));
    lemma_emit_frame(e1, IV::CondBr(VV::Named(c), t, nb));
    let s3 = and_s(s1, ops, t, nb);
    assert(s3 == branch_on(s2, v, t, nb));
    assert(s3.blocks[st.blocks.len() as int] == s1.blocks[st.blocks.len() as int]);
    lemma_block_index_at_least(s3.blocks, nb, st.blocks.len() as int);
    let s4 = position(s3, nb);
    lemma_or_keeps_blocks(s4, ands.drop_first(), t, f);
    assert(or_s(st, ands, t, f) == or_s(s4, ands.drop_first(), t, f));
    assert(s3.blocks[st.cur as int].1 =~= s2.blocks[st.cur as int].1 + seq![
        IV::ICmp(CmpPred::Ne, c, x, VV::Const(0)),
        IV::CondBr(VV::Named(c), t, nb),
    ]);
    lemma_or_keeps_blocks(st, ands, t, f);
}

} // verus!
