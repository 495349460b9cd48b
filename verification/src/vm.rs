//! The virtual machine: register file, frame stack, fetch-execute loop,
//! and the mark-and-sweep heap.
//!
//! State is a fixed register file, a program counter, a growable call
//! stack of activation frames, the immutable bytecode sequence and global
//! table, and an index-addressed heap arena.  One `step` fetches the
//! instruction at `pc`, executes it, and advances `pc` (sequentially,
//! except for jumps, calls and returns).  Fatal conditions — unresolved
//! name hashes, out-of-range indices, call-stack underflow — halt
//! execution immediately, reported with the offending `pc`.
//!
//! The heap is reclaimed only by the collector: every block reachable
//! from the root set (occupied registers, the frame chain's bindings, and
//! the globals) survives a collection unchanged, and every unreachable
//! block is freed.

use vstd::prelude::*;

use crate::op::{New, Op};
use crate::reg::REGISTER_COUNT;
use crate::value::{veq, Value};

verus! {

/// One collector-managed arena block: free, an array of values, or an
/// object's fields.
#[derive(Debug)]
pub enum Slot {
    Free,
    Arr(Vec<Value>),
    Obj(Vec<ObjField>),
}

/// One field of an object block.
#[derive(Debug)]
pub struct ObjField {
    pub hash: u64,
    pub val: Value,
}

/// One name binding in an activation frame.
#[derive(Debug)]
pub struct VarBinding {
    pub hash: u64,
    pub val: Value,
}

/// One activation record: bound names and the return address recorded
/// when the frame was pushed.
#[derive(Debug)]
pub struct Frame {
    pub vars: Vec<VarBinding>,
    pub return_to: usize,
}

/// Why execution halted fatally.
#[derive(Debug, Clone, Copy, PartialEq, Eq, Structural)]
pub enum VmErrorKind {
    /// A register operand names no slot of the register file.
    OutOfRangeRegister,
    /// A register operand names an empty slot.
    EmptyRegister,
    /// A global index lies outside the global table.
    OutOfRangeGlobal,
    /// A jump or call target lies outside the bytecode.
    OutOfRangeTarget,
    /// An array index lies outside the array.
    OutOfRangeIndex,
    /// A name hash is bound in no frame of the chain.
    UnresolvedName,
    /// `Ret` asked to pop more frames than the call stack holds.
    StackUnderflow,
    /// An operand's runtime type does not fit the instruction.
    TypeMismatch,
    /// Integer division by zero.
    DivByZero,
    /// A computed quantity does not fit its operand type.
    Overflow,
}

/// A fatal condition, reported with the `pc` of the offending
/// instruction.
#[derive(Debug, Clone, Copy, PartialEq, Eq, Structural)]
pub struct VmError {
    pub kind: VmErrorKind,
    pub pc: usize,
}

/// What one fetch-execute step did.
#[derive(Debug, Clone, Copy, PartialEq, Eq, Structural)]
pub enum StepResult {
    /// The instruction completed; execution continues at the new `pc`.
    Continue,
    /// `pc` reached the end of the bytecode: normal termination.
    Halted,
    /// The instruction asks the host to run the builtin with id `func`
    /// over the given register window; `pc` already points past it.
    Sys { func: u16, args_start: u8, args_len: u8 },
    /// Execution halted on a fatal condition.
    Fatal(VmError),
}

/// The virtual machine.
pub struct Vm {
    pub registers: Vec<Option<Value>>,
    pub pc: usize,
    pub frames: Vec<Frame>,
    pub bytecode: Vec<Op>,
    pub globals: Vec<Value>,
    pub heap: Vec<Slot>,
    pub heap_free: Vec<usize>,
    /// Collection triggers at an allocation once this many blocks are
    /// live (a tunable, not fixed).
    pub gc_threshold: usize,
}

// ---------------------------------------------------------------------
// The heap model: validity, edges, roots, reachability.
// ---------------------------------------------------------------------

/// The arena index a value references, if it is heap-managed.
pub open spec fn value_handle(v: Value) -> Option<int> {
    match v {
        Value::Arr(h) => Some(h as int),
        Value::Obj(h) => Some(h as int),
        _ => None,
    }
}

/// A value is valid for a heap: its handle, if any, indexes a live block
/// of the matching kind.  Handles never dangle into freed blocks.
pub open spec fn value_ok(v: Value, heap: Seq<Slot>) -> bool {
    match v {
        Value::Arr(h) => (h as int) < heap.len() && heap[h as int] is Arr,
        Value::Obj(h) => (h as int) < heap.len() && heap[h as int] is Obj,
        _ => true,
    }
}

/// The values a block holds.
pub open spec fn slot_values(s: Slot) -> Seq<Value> {
    match s {
        Slot::Free => Seq::empty(),
        Slot::Arr(vs) => vs@,
        Slot::Obj(fs) => fs@.map_values(|f: ObjField| f.val),
    }
}

/// Every value a block holds is valid for the heap.
pub open spec fn slot_ok(s: Slot, heap: Seq<Slot>) -> bool {
    forall|k: int| 0 <= k < slot_values(s).len() ==> value_ok(slot_values(s)[k], heap)
}

/// Every block's contents are valid: no dangling or mistyped handle
/// anywhere in the heap.
pub open spec fn heap_ok(heap: Seq<Slot>) -> bool {
    forall|i: int| 0 <= i < heap.len() ==> slot_ok(#[trigger] heap[i], heap)
}

/// Block `i` holds a value referencing block `j`.
pub open spec fn heap_edge(heap: Seq<Slot>, i: int, j: int) -> bool {
    &&& 0 <= i < heap.len()
    &&& exists|k: int|
        0 <= k < slot_values(heap[i]).len() && value_handle(slot_values(heap[i])[k]) == Some(j)
}

/// Block `j` is referenced directly from the root set: an occupied
/// register, a binding of any frame in the chain, or a global.
pub open spec fn is_root(vm: Vm, j: int) -> bool {
    ||| exists|r: int|
        0 <= r < vm.registers@.len() && (#[trigger] vm.registers@[r] matches Some(v)
            && value_handle(v) == Some(j))
    ||| exists|f: int, b: int|
        0 <= f < vm.frames@.len() && 0 <= b < (#[trigger] vm.frames@[f]).vars@.len()
            && value_handle(#[trigger] vm.frames@[f].vars@[b].val) == Some(j)
    ||| exists|g: int|
        0 <= g < vm.globals@.len() && value_handle(#[trigger] vm.globals@[g]) == Some(j)
}

/// `p` is a chain of blocks starting at a root, each step following a
/// value held in the previous block.
pub open spec fn path_ok(vm: Vm, p: Seq<int>) -> bool {
    &&& p.len() >= 1
    &&& is_root(vm, p[0])
    &&& forall|k: int| 0 <= k < p.len() - 1 ==> heap_edge(vm.heap@, #[trigger] p[k], p[k + 1])
}

/// Block `j` is reachable from the root set.
pub open spec fn reachable(vm: Vm, j: int) -> bool {
    exists|p: Seq<int>| path_ok(vm, p) && p.last() == j
}

impl Vm {
    /// The machine invariant: the register file has its fixed size, every
    /// value anywhere is valid for the heap, at least the base frame is
    /// live, and the free list holds exactly the free blocks, once each.
    pub open spec fn wf(self) -> bool {
        &&& self.registers@.len() == REGISTER_COUNT
        &&& forall|r: int|
            0 <= r < self.registers@.len() ==> ((#[trigger] self.registers@[r]) matches Some(v)
                ==> value_ok(v, self.heap@))
        &&& forall|f: int, b: int|
            0 <= f < self.frames@.len() && 0 <= b < (#[trigger] self.frames@[f]).vars@.len()
                ==> value_ok(#[trigger] self.frames@[f].vars@[b].val, self.heap@)
        &&& forall|g: int|
            0 <= g < self.globals@.len() ==> value_ok(#[trigger] self.globals@[g], self.heap@)
        &&& heap_ok(self.heap@)
        &&& self.frames@.len() >= 1
        &&& self.heap_free@.no_duplicates()
        &&& forall|k: int|
            0 <= k < self.heap_free@.len() ==> (#[trigger] self.heap_free@[k] as int)
                < self.heap@.len()
        &&& forall|i: int|
            0 <= i < self.heap@.len() ==> ((#[trigger] self.heap@[i] is Free) <==> self.heap_free@.contains(
                i as usize,
            ))
    }
}

/// A root with a handle references a valid, live block.
pub proof fn lemma_root_reachable(vm: Vm, j: int)
    requires
        vm.wf(),
        is_root(vm, j),
    ensures
        reachable(vm, j),
{
    let p = seq![j];
    assert(p.last() == j);
    assert(path_ok(vm, p));
}

/// Following one value held in a reachable block reaches its target.
pub proof fn lemma_reachable_step(vm: Vm, i: int, j: int)
    requires
        reachable(vm, i),
        heap_edge(vm.heap@, i, j),
    ensures
        reachable(vm, j),
{
    let p = choose|p: Seq<int>| path_ok(vm, p) && p.last() == i;
    let q = p.push(j);
    assert(q.last() == j);
    assert forall|k: int| 0 <= k < q.len() - 1 implies heap_edge(vm.heap@, #[trigger] q[k], q[k + 1]) by {
        if k < p.len() - 1 {
            assert(q[k] == p[k] && q[k + 1] == p[k + 1]);
        } else {
            assert(q[k] == p.last() && q[k + 1] == j);
        }
    }
    assert(path_ok(vm, q));
}

/// A reachable block is a valid index of a live (non-free) block.
pub proof fn lemma_reachable_valid(vm: Vm, j: int)
    requires
        vm.wf(),
        reachable(vm, j),
    ensures
        0 <= j < vm.heap@.len(),
        !(vm.heap@[j] is Free),
{
    let p = choose|p: Seq<int>| path_ok(vm, p) && p.last() == j;
    if p.len() == 1 {
        assert(is_root(vm, j));
        root_handle_valid(vm, j);
    } else {
        let i = p[p.len() - 2];
        assert(heap_edge(vm.heap@, i, j));
        let k = choose|k: int|
            0 <= k < slot_values(vm.heap@[i]).len() && value_handle(
                slot_values(vm.heap@[i])[k],
            ) == Some(j);
        assert(slot_ok(vm.heap@[i], vm.heap@));
        assert(value_ok(slot_values(vm.heap@[i])[k], vm.heap@));
    }
}

proof fn root_handle_valid(vm: Vm, j: int)
    requires
        vm.wf(),
        is_root(vm, j),
    ensures
        0 <= j < vm.heap@.len(),
        !(vm.heap@[j] is Free),
{
    if exists|r: int|
        0 <= r < vm.registers@.len() && (#[trigger] vm.registers@[r] matches Some(v)
            && value_handle(v) == Some(j)) {
        let r = choose|r: int|
            0 <= r < vm.registers@.len() && (#[trigger] vm.registers@[r] matches Some(v)
                && value_handle(v) == Some(j));
        assert(value_ok(vm.registers@[r]->0, vm.heap@));
    } else if exists|f: int, b: int|
        0 <= f < vm.frames@.len() && 0 <= b < (#[trigger] vm.frames@[f]).vars@.len()
            && value_handle(#[trigger] vm.frames@[f].vars@[b].val) == Some(j) {
        let (f, b) = choose|f: int, b: int|
            0 <= f < vm.frames@.len() && 0 <= b < (#[trigger] vm.frames@[f]).vars@.len()
                && value_handle(#[trigger] vm.frames@[f].vars@[b].val) == Some(j);
        assert(value_ok(vm.frames@[f].vars@[b].val, vm.heap@));
    } else {
        let g = choose|g: int|
            0 <= g < vm.globals@.len() && value_handle(#[trigger] vm.globals@[g]) == Some(j);
        assert(value_ok(vm.globals@[g], vm.heap@));
    }
}

// ---------------------------------------------------------------------
// Instruction semantics, as a relation between machine states.
// ---------------------------------------------------------------------

/// The binary operator an arithmetic/compare instruction applies.
#[derive(Debug, Clone, Copy, PartialEq, Eq, Structural)]
pub enum BinKind {
    Add,
    Sub,
    Mul,
    Div,
    Eq,
    Lt,
    Gt,
}

/// Truncating 64-bit division (rounds toward zero); the one overflowing
/// case, `i64::MIN / -1`, wraps to `i64::MIN`.
pub open spec fn div_trunc(x: i64, y: i64) -> i64
    recommends
        y != 0,
{
    if x == i64::MIN && y == -1 {
        i64::MIN
    } else {
        let ax: int = if x >= 0 {
            x as int
        } else {
            -(x as int)
        };
        let ay: int = if y >= 0 {
            y as int
        } else {
            -(y as int)
        };
        if (x < 0) != (y < 0) {
            (-(ax / ay)) as i64
        } else {
            (ax / ay) as i64
        }
    }
}

/// The canonical boolean values.
pub open spec fn bool_value(b: bool) -> Value {
    if b {
        Value::True
    } else {
        Value::False
    }
}

/// What a binary instruction computes from its two operand values.
/// Equality is defined on all values; order and arithmetic only on
/// integers (integer arithmetic wraps).
pub open spec fn eval_binop(k: BinKind, a: Value, b: Value) -> Result<Value, VmErrorKind> {
    if k is Eq {
        Ok(bool_value(veq(a, b)))
    } else {
        match (a, b) {
            (Value::Int(x), Value::Int(y)) => match k {
                BinKind::Add => Ok(Value::Int(vstd::wrapping::i64_specs::wrapping_add(x, y))),
                BinKind::Sub => Ok(Value::Int(vstd::wrapping::i64_specs::wrapping_sub(x, y))),
                BinKind::Mul => Ok(Value::Int(vstd::wrapping::i64_specs::wrapping_mul(x, y))),
                BinKind::Div => if y == 0 {
                    Err(VmErrorKind::DivByZero)
                } else {
                    Ok(Value::Int(div_trunc(x, y)))
                },
                BinKind::Lt => Ok(bool_value(x < y)),
                BinKind::Gt => Ok(bool_value(x > y)),
                BinKind::Eq => Ok(bool_value(veq(a, b))),
            },
            _ => Err(VmErrorKind::TypeMismatch),
        }
    }
}

/// The error reading register operand `r` would raise, if any.
pub open spec fn read_err(vm: Vm, r: u8) -> Option<VmErrorKind> {
    if r as int >= REGISTER_COUNT as int {
        Some(VmErrorKind::OutOfRangeRegister)
    } else if vm.registers@[r as int] is None {
        Some(VmErrorKind::EmptyRegister)
    } else {
        None
    }
}

/// The value in register `r` (meaningful only when `read_err` is none).
pub open spec fn reg_val(vm: Vm, r: u8) -> Value {
    vm.registers@[r as int]->0
}

/// Everything but the register file and the pc is unchanged.
pub open spec fn only_regs_pc_change(pre: Vm, post: Vm) -> bool {
    &&& post.frames@ == pre.frames@
    &&& post.bytecode@ == pre.bytecode@
    &&& post.globals@ == pre.globals@
    &&& post.heap@ == pre.heap@
    &&& post.heap_free@ == pre.heap_free@
    &&& post.gc_threshold == pre.gc_threshold
}

/// The step failed fatally: the state is untouched and the error carries
/// the offending pc.
pub open spec fn fatal_rel(pre: Vm, post: Vm, r: StepResult, k: VmErrorKind) -> bool {
    &&& post == pre
    &&& r == StepResult::Fatal(VmError { kind: k, pc: pre.pc })
}

/// Register `dst` receives exactly `v` and the pc advances past the
/// instruction; nothing else changes.
pub open spec fn write_reg_rel(pre: Vm, post: Vm, r: StepResult, dst: u8, v: Value) -> bool {
    if dst as int >= REGISTER_COUNT as int {
        fatal_rel(pre, post, r, VmErrorKind::OutOfRangeRegister)
    } else {
        &&& only_regs_pc_change(pre, post)
        &&& post.registers@ == pre.registers@.update(dst as int, Some(v))
        &&& post.pc == pre.pc + 1
        &&& r == StepResult::Continue
    }
}

/// An arithmetic/compare instruction: read both operands, evaluate,
/// write the destination.
pub open spec fn binop_rel(
    pre: Vm,
    post: Vm,
    r: StepResult,
    k: BinKind,
    dst: u8,
    lhs: u8,
    rhs: u8,
) -> bool {
    if read_err(pre, lhs) is Some {
        fatal_rel(pre, post, r, read_err(pre, lhs)->0)
    } else if read_err(pre, rhs) is Some {
        fatal_rel(pre, post, r, read_err(pre, rhs)->0)
    } else {
        match eval_binop(k, reg_val(pre, lhs), reg_val(pre, rhs)) {
            Err(kind) => fatal_rel(pre, post, r, kind),
            Ok(v) => write_reg_rel(pre, post, r, dst, v),
        }
    }
}

/// `Mov`: copy one register's value into another.
pub open spec fn mov_rel(pre: Vm, post: Vm, r: StepResult, dst: u8, src: u8) -> bool {
    if read_err(pre, src) is Some {
        fatal_rel(pre, post, r, read_err(pre, src)->0)
    } else {
        write_reg_rel(pre, post, r, dst, reg_val(pre, src))
    }
}

/// `LoadG`: copy the global at a pool index into a register.
pub open spec fn loadg_rel(pre: Vm, post: Vm, r: StepResult, dst: u8, idx: u32) -> bool {
    if idx as int >= pre.globals@.len() {
        fatal_rel(pre, post, r, VmErrorKind::OutOfRangeGlobal)
    } else {
        write_reg_rel(pre, post, r, dst, pre.globals@[idx as int])
    }
}

/// The binding a frame holds for `hash`, the most recent one winning.
pub open spec fn frame_lookup(vars: Seq<VarBinding>, hash: u64) -> Option<Value>
    decreases vars.len(),
{
    if vars.len() == 0 {
        None
    } else if vars.last().hash == hash {
        Some(vars.last().val)
    } else {
        frame_lookup(vars.drop_last(), hash)
    }
}

/// The value bound under `hash`, searching the active frame first and
/// then its caller chain.
pub open spec fn frames_lookup(frames: Seq<Frame>, hash: u64) -> Option<Value>
    decreases frames.len(),
{
    if frames.len() == 0 {
        None
    } else {
        match frame_lookup(frames.last().vars@, hash) {
            Some(v) => Some(v),
            None => frames_lookup(frames.drop_last(), hash),
        }
    }
}

/// Whether a frame already binds `hash`.
pub open spec fn frame_has(vars: Seq<VarBinding>, hash: u64) -> bool {
    exists|i: int| 0 <= i < vars.len() && vars[i].hash == hash
}

/// Binding `hash` to `v` rebinds the first existing entry in place, or
/// appends a fresh one.
pub open spec fn bind_post(
    vars: Seq<VarBinding>,
    hash: u64,
    v: Value,
    post: Seq<VarBinding>,
) -> bool {
    if frame_has(vars, hash) {
        exists|i: int|
            {
                &&& 0 <= i < vars.len()
                &&& vars[i].hash == hash
                &&& forall|j: int| 0 <= j < i ==> vars[j].hash != hash
                &&& post == vars.update(i, VarBinding { hash, val: v })
            }
    } else {
        post == vars.push(VarBinding { hash, val: v })
    }
}

/// `Var`: bind the source register's value under `hash` in the active
/// frame.
pub open spec fn var_rel(pre: Vm, post: Vm, r: StepResult, hash: u64, src: u8) -> bool {
    if read_err(pre, src) is Some {
        fatal_rel(pre, post, r, read_err(pre, src)->0)
    } else {
        &&& post.registers@ == pre.registers@
        &&& post.bytecode@ == pre.bytecode@
        &&& post.globals@ == pre.globals@
        &&& post.heap@ == pre.heap@
        &&& post.heap_free@ == pre.heap_free@
        &&& post.gc_threshold == pre.gc_threshold
        &&& post.frames@.len() == pre.frames@.len()
        &&& forall|f: int| 0 <= f < pre.frames@.len() - 1 ==> post.frames@[f] == pre.frames@[f]
        &&& post.frames@.last().return_to == pre.frames@.last().return_to
        &&& bind_post(pre.frames@.last().vars@, hash, reg_val(pre, src), post.frames@.last().vars@)
        &&& post.pc == pre.pc + 1
        &&& r == StepResult::Continue
    }
}

/// `LoadV`: load the value bound under `hash` into a register; an
/// unresolved hash is fatal.
pub open spec fn loadv_rel(pre: Vm, post: Vm, r: StepResult, hash: u64, dst: u8) -> bool {
    match frames_lookup(pre.frames@, hash) {
        None => fatal_rel(pre, post, r, VmErrorKind::UnresolvedName),
        Some(v) => write_reg_rel(pre, post, r, dst, v),
    }
}

/// `Jmp`: set the pc to an absolute instruction index.
pub open spec fn jmp_rel(pre: Vm, post: Vm, r: StepResult, target: usize) -> bool {
    if target > pre.bytecode@.len() {
        fatal_rel(pre, post, r, VmErrorKind::OutOfRangeTarget)
    } else {
        &&& only_regs_pc_change(pre, post)
        &&& post.registers@ == pre.registers@
        &&& post.pc == target
        &&& r == StepResult::Continue
    }
}

/// `JmpF`: branch iff the condition register holds the canonical false
/// value; any other value is truthy.
pub open spec fn jmpf_rel(pre: Vm, post: Vm, r: StepResult, cond: u8, target: usize) -> bool {
    if read_err(pre, cond) is Some {
        fatal_rel(pre, post, r, read_err(pre, cond)->0)
    } else if target > pre.bytecode@.len() {
        fatal_rel(pre, post, r, VmErrorKind::OutOfRangeTarget)
    } else {
        &&& only_regs_pc_change(pre, post)
        &&& post.registers@ == pre.registers@
        &&& post.pc == (if reg_val(pre, cond) is False {
            target as int
        } else {
            pre.pc + 1
        })
        &&& r == StepResult::Continue
    }
}

/// `Call`: push a fresh frame recording the return address (the
/// instruction after the call) and jump to the callee.  The argument
/// window must lie inside the register file; the registers themselves
/// are untouched, so the callee sees the arguments in place.
pub open spec fn call_rel(
    pre: Vm,
    post: Vm,
    r: StepResult,
    func: u16,
    args_start: u8,
    args_len: u8,
) -> bool {
    if args_start as int + args_len as int > REGISTER_COUNT as int {
        fatal_rel(pre, post, r, VmErrorKind::OutOfRangeRegister)
    } else if func as int > pre.bytecode@.len() {
        fatal_rel(pre, post, r, VmErrorKind::OutOfRangeTarget)
    } else {
        &&& post.registers@ == pre.registers@
        &&& post.bytecode@ == pre.bytecode@
        &&& post.globals@ == pre.globals@
        &&& post.heap@ == pre.heap@
        &&& post.heap_free@ == pre.heap_free@
        &&& post.gc_threshold == pre.gc_threshold
        &&& post.frames@.len() == pre.frames@.len() + 1
        &&& forall|f: int| 0 <= f < pre.frames@.len() ==> post.frames@[f] == pre.frames@[f]
        &&& post.frames@.last().vars@.len() == 0
        &&& post.frames@.last().return_to == pre.pc + 1
        &&& post.pc == func as int
        &&& r == StepResult::Continue
    }
}

/// `Ret`: pop `times` frames at once and resume at the outermost popped
/// frame's return address.  The base frame is not poppable; asking for
/// more frames than the stack holds above it is a stack underflow.
pub open spec fn ret_rel(pre: Vm, post: Vm, r: StepResult, times: u8) -> bool {
    let t = times as int;
    if t == 0 {
        &&& only_regs_pc_change(pre, post)
        &&& post.registers@ == pre.registers@
        &&& post.pc == pre.pc + 1
        &&& r == StepResult::Continue
    } else if t >= pre.frames@.len() {
        fatal_rel(pre, post, r, VmErrorKind::StackUnderflow)
    } else {
        &&& post.registers@ == pre.registers@
        &&& post.bytecode@ == pre.bytecode@
        &&& post.globals@ == pre.globals@
        &&& post.heap@ == pre.heap@
        &&& post.heap_free@ == pre.heap_free@
        &&& post.gc_threshold == pre.gc_threshold
        &&& post.frames@ == pre.frames@.subrange(0, pre.frames@.len() - t)
        &&& post.pc == pre.frames@[pre.frames@.len() - t].return_to
        &&& r == StepResult::Continue
    }
}

/// `Sys`: hand the builtin id and its register window to the host; the
/// machine only advances the pc.
pub open spec fn sys_rel(
    pre: Vm,
    post: Vm,
    r: StepResult,
    func: u16,
    args_start: u8,
    args_len: u8,
) -> bool {
    if args_start as int + args_len as int > REGISTER_COUNT as int {
        fatal_rel(pre, post, r, VmErrorKind::OutOfRangeRegister)
    } else {
        &&& only_regs_pc_change(pre, post)
        &&& post.registers@ == pre.registers@
        &&& post.pc == pre.pc + 1
        &&& r == StepResult::Sys { func, args_start, args_len }
    }
}

// ---------------------------------------------------------------------
// Executable arithmetic helpers.
// ---------------------------------------------------------------------

/// The magnitude of a 64-bit integer, as an unsigned value.
fn abs_u64(x: i64) -> (r: u64)
    ensures
        r as int == (if x >= 0 {
            x as int
        } else {
            -(x as int)
        }),
{
    if x >= 0 {
        x as u64
    } else if x == i64::MIN {
        9223372036854775808u64
    } else {
        (-x) as u64
    }
}

/// Truncating division on 64-bit integers; `i64::MIN / -1` wraps.
fn div_i64(x: i64, y: i64) -> (r: i64)
    requires
        y != 0,
    ensures
        r == div_trunc(x, y),
{
    if x == i64::MIN && y == -1 {
        i64::MIN
    } else {
        let neg = (x < 0) != (y < 0);
        let ax = abs_u64(x);
        let ay = abs_u64(y);
        let q = ax / ay;
        proof {
            assert(ax as int / ay as int <= ax as int) by (nonlinear_arith)
                requires
                    ay as int >= 1,
                    ax as int >= 0,
            ;
            if ax == 9223372036854775808u64 && !neg {
                assert(ay >= 2);
                assert(ax as int / ay as int <= ax as int / 2) by (nonlinear_arith)
                    requires
                        ay as int >= 2,
                        ax as int >= 0,
                ;
            }
        }
        if neg {
            if q == 9223372036854775808u64 {
                i64::MIN
            } else {
                -(q as i64)
            }
        } else {
            q as i64
        }
    }
}

impl Vm {
    // -----------------------------------------------------------------
    // Executable helpers shared by the instruction arms.
    // -----------------------------------------------------------------

    /// Reads register operand `r`, reporting the fatal condition the
    /// instruction semantics assign to a bad operand.
    fn get_reg(&self, r: u8) -> (res: Result<Value, VmErrorKind>)
        requires
            self.wf(),
        ensures
            match res {
                Ok(v) => read_err(*self, r) is None && v == reg_val(*self, r) && value_ok(
                    v,
                    self.heap@,
                ),
                Err(k) => read_err(*self, r) == Some(k),
            },
    {
        if r as usize >= REGISTER_COUNT {
            Err(VmErrorKind::OutOfRangeRegister)
        } else {
            match &self.registers[r as usize] {
                Some(v) => Ok(v.duplicate()),
                None => Err(VmErrorKind::EmptyRegister),
            }
        }
    }

    /// Writes `v` to register `dst` and advances the pc.
    fn finish_write(&mut self, dst: u8, v: Value) -> (r: StepResult)
        requires
            old(self).wf(),
            old(self).pc < old(self).bytecode@.len(),
            value_ok(v, old(self).heap@),
        ensures
            final(self).wf(),
            write_reg_rel(*old(self), *final(self), r, dst, v),
    {
        if dst as usize >= REGISTER_COUNT {
            return StepResult::Fatal(VmError { kind: VmErrorKind::OutOfRangeRegister, pc: self.pc });
        }
        self.registers[dst as usize] = Some(v);
        let pc_bound = self.bytecode.len();  // pc < this, so pc + 1 fits in usize
        self.pc = self.pc + 1;
        StepResult::Continue
    }

    /// What a binary instruction computes from its operand values.
    fn eval_binop_exec(k: BinKind, a: &Value, b: &Value) -> (r: Result<Value, VmErrorKind>)
        ensures
            r == eval_binop(k, *a, *b),
    {
        match k {
            BinKind::Eq => Ok(if a.eq(b) {
                Value::True
            } else {
                Value::False
            }),
            _ => match (a, b) {
                (Value::Int(xr), Value::Int(yr)) => {
                    let x = *xr;
                    let y = *yr;
                    match k {
                        BinKind::Add => Ok(Value::Int(x.wrapping_add(y))),
                        BinKind::Sub => Ok(Value::Int(x.wrapping_sub(y))),
                        BinKind::Mul => Ok(Value::Int(x.wrapping_mul(y))),
                        BinKind::Div => if y == 0 {
                            Err(VmErrorKind::DivByZero)
                        } else {
                            Ok(Value::Int(div_i64(x, y)))
                        },
                        BinKind::Lt => Ok(if x < y {
                            Value::True
                        } else {
                            Value::False
                        }),
                        BinKind::Gt => Ok(if x > y {
                            Value::True
                        } else {
                            Value::False
                        }),
                        BinKind::Eq => unreached(),
                    }
                },
                _ => Err(VmErrorKind::TypeMismatch),
            },
        }
    }

    // -----------------------------------------------------------------
    // One executable arm per instruction group.
    // -----------------------------------------------------------------

    fn exec_binop(&mut self, k: BinKind, dst: u8, lhs: u8, rhs: u8) -> (r: StepResult)
        requires
            old(self).wf(),
            old(self).pc < old(self).bytecode@.len(),
        ensures
            final(self).wf(),
            binop_rel(*old(self), *final(self), r, k, dst, lhs, rhs),
    {
        let a = match self.get_reg(lhs) {
            Ok(v) => v,
            Err(k2) => {
                return StepResult::Fatal(VmError { kind: k2, pc: self.pc });
            },
        };
        let b = match self.get_reg(rhs) {
            Ok(v) => v,
            Err(k2) => {
                return StepResult::Fatal(VmError { kind: k2, pc: self.pc });
            },
        };
        match Self::eval_binop_exec(k, &a, &b) {
            Err(k2) => StepResult::Fatal(VmError { kind: k2, pc: self.pc }),
            Ok(v) => {
                proof {
                    assert(value_ok(v, self.heap@));
                }
                self.finish_write(dst, v)
            },
        }
    }

    fn exec_mov(&mut self, dst: u8, src: u8) -> (r: StepResult)
        requires
            old(self).wf(),
            old(self).pc < old(self).bytecode@.len(),
        ensures
            final(self).wf(),
            mov_rel(*old(self), *final(self), r, dst, src),
    {
        match self.get_reg(src) {
            Err(k) => StepResult::Fatal(VmError { kind: k, pc: self.pc }),
            Ok(v) => self.finish_write(dst, v),
        }
    }

    fn exec_loadg(&mut self, dst: u8, idx: u32) -> (r: StepResult)
        requires
            old(self).wf(),
            old(self).pc < old(self).bytecode@.len(),
        ensures
            final(self).wf(),
            loadg_rel(*old(self), *final(self), r, dst, idx),
    {
        if idx as usize >= self.globals.len() {
            return StepResult::Fatal(VmError { kind: VmErrorKind::OutOfRangeGlobal, pc: self.pc });
        }
        let v = self.globals[idx as usize].duplicate();
        self.finish_write(dst, v)
    }

    /// Finds the first binding of `hash` in a frame's variables.
    fn find_binding(vars: &Vec<VarBinding>, hash: u64) -> (r: Option<usize>)
        ensures
            match r {
                Some(i) => (i as int) < vars@.len() && vars@[i as int].hash == hash && (forall|
                    j: int,
                |
                    0 <= j < i ==> vars@[j].hash != hash),
                None => !frame_has(vars@, hash),
            },
    {
        let n = vars.len();
        let mut i: usize = 0;
        while i < n
            invariant
                n == vars@.len(),
                i <= n,
                forall|j: int| 0 <= j < i ==> vars@[j].hash != hash,
            decreases n - i,
        {
            if vars[i].hash == hash {
                return Some(i);
            }
            i = i + 1;
        }
        None
    }

    fn exec_var(&mut self, hash: u64, src: u8) -> (r: StepResult)
        requires
            old(self).wf(),
            old(self).pc < old(self).bytecode@.len(),
        ensures
            final(self).wf(),
            var_rel(*old(self), *final(self), r, hash, src),
    {
        let v = match self.get_reg(src) {
            Ok(v) => v,
            Err(k) => {
                return StepResult::Fatal(VmError { kind: k, pc: self.pc });
            },
        };
        let mut top = if let Some(f) = self.frames.pop() {
            f
        } else {
            unreached()
        };
        match Self::find_binding(&top.vars, hash) {
            Some(i) => {
                top.vars[i] = VarBinding { hash, val: v };
            },
            None => {
                top.vars.push(VarBinding { hash, val: v });
            },
        }
        self.frames.push(top);
        let pc_bound = self.bytecode.len();  // pc < this, so pc + 1 fits in usize
        proof {
            assert(self.frames@.len() == old(self).frames@.len());
            assert forall|f: int| 0 <= f < old(self).frames@.len() - 1 implies self.frames@[f]
                == old(self).frames@[f] by {
            }
            assert(bind_post(
                old(self).frames@.last().vars@,
                hash,
                reg_val(*old(self), src),
                self.frames@.last().vars@,
            ));
        }
        self.pc = self.pc + 1;
        StepResult::Continue
    }

    /// Finds the most recent binding of `hash` in one frame.
    fn lookup_in_frame(vars: &Vec<VarBinding>, hash: u64) -> (r: Option<Value>)
        ensures
            r == frame_lookup(vars@, hash),
    {
        let mut i = vars.len();
        proof {
            assert(vars@.subrange(0, vars@.len() as int) =~= vars@);
        }
        while i > 0
            invariant
                i <= vars@.len(),
                frame_lookup(vars@, hash) == frame_lookup(vars@.subrange(0, i as int), hash),
            decreases i,
        {
            i = i - 1;
            proof {
                assert(vars@.subrange(0, i + 1 as int).last() == vars@[i as int]);
                assert(vars@.subrange(0, i + 1 as int).drop_last() =~= vars@.subrange(0, i as int));
            }
            if vars[i].hash == hash {
                return Some(vars[i].val.duplicate());
            }
        }
        None
    }

    /// Finds the value bound under `hash`, searching the active frame and
    /// then its caller chain.
    fn lookup_hash(&self, hash: u64) -> (r: Option<Value>)
        requires
            self.wf(),
        ensures
            r == frames_lookup(self.frames@, hash),
            r matches Some(v) ==> value_ok(v, self.heap@),
    {
        let mut fi = self.frames.len();
        proof {
            assert(self.frames@.subrange(0, self.frames@.len() as int) =~= self.frames@);
        }
        while fi > 0
            invariant
                self.wf(),
                fi <= self.frames@.len(),
                frames_lookup(self.frames@, hash) == frames_lookup(
                    self.frames@.subrange(0, fi as int),
                    hash,
                ),
            decreases fi,
        {
            fi = fi - 1;
            proof {
                assert(self.frames@.subrange(0, fi + 1 as int).last() == self.frames@[fi as int]);
                assert(self.frames@.subrange(0, fi + 1 as int).drop_last() =~= self.frames@.subrange(
                    0,
                    fi as int,
                ));
            }
            if let Some(v) = Self::lookup_in_frame(&self.frames[fi].vars, hash) {
                proof {
                    lemma_frame_lookup_value_ok(*self, fi as int, hash, v);
                }
                return Some(v);
            }
        }
        None
    }

    fn exec_loadv(&mut self, hash: u64, dst: u8) -> (r: StepResult)
        requires
            old(self).wf(),
            old(self).pc < old(self).bytecode@.len(),
        ensures
            final(self).wf(),
            loadv_rel(*old(self), *final(self), r, hash, dst),
    {
        match self.lookup_hash(hash) {
            None => StepResult::Fatal(VmError { kind: VmErrorKind::UnresolvedName, pc: self.pc }),
            Some(v) => self.finish_write(dst, v),
        }
    }

    fn exec_jmp(&mut self, target: usize) -> (r: StepResult)
        requires
            old(self).wf(),
        ensures
            final(self).wf(),
            jmp_rel(*old(self), *final(self), r, target),
    {
        if target > self.bytecode.len() {
            return StepResult::Fatal(VmError { kind: VmErrorKind::OutOfRangeTarget, pc: self.pc });
        }
        self.pc = target;
        StepResult::Continue
    }

    fn exec_jmpf(&mut self, cond: u8, target: usize) -> (r: StepResult)
        requires
            old(self).wf(),
            old(self).pc < old(self).bytecode@.len(),
        ensures
            final(self).wf(),
            jmpf_rel(*old(self), *final(self), r, cond, target),
    {
        let v = match self.get_reg(cond) {
            Ok(v) => v,
            Err(k) => {
                return StepResult::Fatal(VmError { kind: k, pc: self.pc });
            },
        };
        if target > self.bytecode.len() {
            return StepResult::Fatal(VmError { kind: VmErrorKind::OutOfRangeTarget, pc: self.pc });
        }
        let is_false = match v {
            Value::False => true,
            _ => false,
        };
        let pc_bound = self.bytecode.len();  // pc < this, so pc + 1 fits in usize
        if is_false {
            self.pc = target;
        } else {
            self.pc = self.pc + 1;
        }
        StepResult::Continue
    }

    fn exec_call(&mut self, func: u16, args_start: u8, args_len: u8) -> (r: StepResult)
        requires
            old(self).wf(),
            old(self).pc < old(self).bytecode@.len(),
        ensures
            final(self).wf(),
            call_rel(*old(self), *final(self), r, func, args_start, args_len),
    {
        if args_start as usize + args_len as usize > REGISTER_COUNT {
            return StepResult::Fatal(
                VmError { kind: VmErrorKind::OutOfRangeRegister, pc: self.pc },
            );
        }
        if func as usize > self.bytecode.len() {
            return StepResult::Fatal(VmError { kind: VmErrorKind::OutOfRangeTarget, pc: self.pc });
        }
        let return_to = self.pc + 1;
        self.frames.push(Frame { vars: Vec::new(), return_to });
        self.pc = func as usize;
        StepResult::Continue
    }

    fn exec_ret(&mut self, times: u8) -> (r: StepResult)
        requires
            old(self).wf(),
            old(self).pc < old(self).bytecode@.len(),
        ensures
            final(self).wf(),
            ret_rel(*old(self), *final(self), r, times),
    {
        let t = times as usize;
        let pc_bound = self.bytecode.len();  // pc < this, so pc + 1 fits in usize
        if t == 0 {
            self.pc = self.pc + 1;
            return StepResult::Continue;
        }
        if t >= self.frames.len() {
            return StepResult::Fatal(VmError { kind: VmErrorKind::StackUnderflow, pc: self.pc });
        }
        let new_len = self.frames.len() - t;
        let ret_pc = self.frames[new_len].return_to;
        self.frames.truncate(new_len);
        self.pc = ret_pc;
        StepResult::Continue
    }

    fn exec_sys(&mut self, func: u16, args_start: u8, args_len: u8) -> (r: StepResult)
        requires
            old(self).wf(),
            old(self).pc < old(self).bytecode@.len(),
        ensures
            final(self).wf(),
            sys_rel(*old(self), *final(self), r, func, args_start, args_len),
    {
        if args_start as usize + args_len as usize > REGISTER_COUNT {
            return StepResult::Fatal(
                VmError { kind: VmErrorKind::OutOfRangeRegister, pc: self.pc },
            );
        }
        let pc_bound = self.bytecode.len();  // pc < this, so pc + 1 fits in usize
        self.pc = self.pc + 1;
        StepResult::Sys { func, args_start, args_len }
    }
}

/// A value found in some frame's bindings is valid for the heap.
proof fn lemma_frame_lookup_value_ok(vm: Vm, f: int, hash: u64, v: Value)
    requires
        vm.wf(),
        0 <= f < vm.frames@.len(),
        frame_lookup(vm.frames@[f].vars@, hash) == Some(v),
    ensures
        value_ok(v, vm.heap@),
{
    lemma_frame_lookup_is_binding(vm.frames@[f].vars@, hash, v);
    let b = choose|b: int| 0 <= b < vm.frames@[f].vars@.len() && vm.frames@[f].vars@[b].val == v;
    assert(value_ok(vm.frames@[f].vars@[b].val, vm.heap@));
}

/// A successful frame lookup returns one of the frame's bound values.
proof fn lemma_frame_lookup_is_binding(vars: Seq<VarBinding>, hash: u64, v: Value)
    requires
        frame_lookup(vars, hash) == Some(v),
    ensures
        exists|b: int| 0 <= b < vars.len() && vars[b].val == v,
    decreases vars.len(),
{
    if vars.len() > 0 {
        if vars.last().hash == hash {
            assert(vars[vars.len() - 1].val == v);
        } else {
            lemma_frame_lookup_is_binding(vars.drop_last(), hash, v);
            let b = choose|b: int| 0 <= b < vars.drop_last().len() && vars.drop_last()[b].val == v;
            assert(vars[b].val == v);
        }
    }
}

// ---------------------------------------------------------------------
// Aggregate (heap) instructions.
// ---------------------------------------------------------------------

/// `New`: allocate a fresh empty aggregate and put its handle in `dst`.
/// Allocation may first trigger a collection, so the contract promises
/// only that every block reachable before the instruction survives
/// unchanged, at its index, and that the fresh block is none of those.
pub open spec fn new_rel(pre: Vm, post: Vm, r: StepResult, dst: u8, size: u8, nt: New) -> bool {
    if dst as int >= REGISTER_COUNT as int {
        fatal_rel(pre, post, r, VmErrorKind::OutOfRangeRegister)
    } else {
        exists|h: usize|
            {
                &&& 0 <= (h as int) < post.heap@.len()
                &&& post.heap@.len() >= pre.heap@.len()
                &&& forall|j: int|
                    reachable(pre, j) ==> (0 <= j < post.heap@.len() && post.heap@[j]
                        == pre.heap@[j] && j != h as int)
                &&& (match nt {
                    New::Array => post.heap@[h as int] matches Slot::Arr(vs) && vs@.len() == 0,
                    New::Object => post.heap@[h as int] matches Slot::Obj(fs) && fs@.len() == 0,
                })
                &&& post.registers@ == pre.registers@.update(
                    dst as int,
                    Some(
                        match nt {
                            New::Array => Value::Arr(h),
                            New::Object => Value::Obj(h),
                        },
                    ),
                )
                &&& post.frames@ == pre.frames@
                &&& post.globals@ == pre.globals@
                &&& post.bytecode@ == pre.bytecode@
                &&& post.gc_threshold == pre.gc_threshold
                &&& post.pc == pre.pc + 1
                &&& r == StepResult::Continue
            }
    }
}

/// `Append`: push the source value onto the array the container register
/// references.
pub open spec fn append_rel(pre: Vm, post: Vm, r: StepResult, container: u8, src: u8) -> bool {
    if read_err(pre, container) is Some {
        fatal_rel(pre, post, r, read_err(pre, container)->0)
    } else if read_err(pre, src) is Some {
        fatal_rel(pre, post, r, read_err(pre, src)->0)
    } else {
        match reg_val(pre, container) {
            Value::Arr(h) => {
                &&& post.registers@ == pre.registers@
                &&& post.frames@ == pre.frames@
                &&& post.bytecode@ == pre.bytecode@
                &&& post.globals@ == pre.globals@
                &&& post.heap_free@ == pre.heap_free@
                &&& post.gc_threshold == pre.gc_threshold
                &&& post.heap@.len() == pre.heap@.len()
                &&& forall|j: int|
                    0 <= j < pre.heap@.len() && j != h as int ==> post.heap@[j] == pre.heap@[j]
                &&& slot_values(post.heap@[h as int]) == slot_values(pre.heap@[h as int]).push(
                    reg_val(pre, src),
                )
                &&& post.heap@[h as int] is Arr
                &&& post.pc == pre.pc + 1
                &&& r == StepResult::Continue
            },
            _ => fatal_rel(pre, post, r, VmErrorKind::TypeMismatch),
        }
    }
}

/// `Len`: the length of the array the source register references.
pub open spec fn len_rel(pre: Vm, post: Vm, r: StepResult, dst: u8, src: u8) -> bool {
    if read_err(pre, src) is Some {
        fatal_rel(pre, post, r, read_err(pre, src)->0)
    } else {
        match reg_val(pre, src) {
            Value::Arr(h) => {
                let n = slot_values(pre.heap@[h as int]).len();
                if n > i64::MAX {
                    fatal_rel(pre, post, r, VmErrorKind::Overflow)
                } else {
                    write_reg_rel(pre, post, r, dst, Value::Int(n as i64))
                }
            },
            _ => fatal_rel(pre, post, r, VmErrorKind::TypeMismatch),
        }
    }
}

/// `Idx`: the element at an integer index of the array the container
/// register references.
pub open spec fn idx_rel(
    pre: Vm,
    post: Vm,
    r: StepResult,
    dst: u8,
    container: u8,
    index: u8,
) -> bool {
    if read_err(pre, container) is Some {
        fatal_rel(pre, post, r, read_err(pre, container)->0)
    } else if read_err(pre, index) is Some {
        fatal_rel(pre, post, r, read_err(pre, index)->0)
    } else {
        match (reg_val(pre, container), reg_val(pre, index)) {
            (Value::Arr(h), Value::Int(i)) => {
                let vs = slot_values(pre.heap@[h as int]);
                if 0 <= i && (i as int) < vs.len() {
                    write_reg_rel(pre, post, r, dst, vs[i as int])
                } else {
                    fatal_rel(pre, post, r, VmErrorKind::OutOfRangeIndex)
                }
            },
            _ => fatal_rel(pre, post, r, VmErrorKind::TypeMismatch),
        }
    }
}

/// Validity of a value depends only on the length and block kinds of the
/// heap, not on block contents.
pub proof fn lemma_value_ok_same_kinds(v: Value, h1: Seq<Slot>, h2: Seq<Slot>)
    requires
        h2.len() == h1.len(),
        forall|i: int|
            0 <= i < h1.len() ==> (((#[trigger] h1[i]) is Arr <==> (#[trigger] h2[i]) is Arr) && (
            h1[i] is Obj <==> h2[i] is Obj)),
        value_ok(v, h1),
    ensures
        value_ok(v, h2),
{
}

impl Vm {
    fn exec_append(&mut self, container: u8, src: u8) -> (r: StepResult)
        requires
            old(self).wf(),
            old(self).pc < old(self).bytecode@.len(),
        ensures
            final(self).wf(),
            append_rel(*old(self), *final(self), r, container, src),
    {
        let c = match self.get_reg(container) {
            Ok(v) => v,
            Err(k) => {
                return StepResult::Fatal(VmError { kind: k, pc: self.pc });
            },
        };
        let v = match self.get_reg(src) {
            Ok(v) => v,
            Err(k) => {
                return StepResult::Fatal(VmError { kind: k, pc: self.pc });
            },
        };
        let h: usize = match c {
            Value::Arr(h) => h,
            _ => {
                return StepResult::Fatal(VmError { kind: VmErrorKind::TypeMismatch, pc: self.pc });
            },
        };
        let mut slot = Slot::Free;
        vstd::pervasive::VecAdditionalExecFns::set_and_swap(&mut self.heap, h, &mut slot);
        let mut vs = match slot {
            Slot::Arr(vs) => vs,
            _ => unreached(),
        };
        vs.push(v);
        self.heap[h] = Slot::Arr(vs);
        proof {
            let pre = *old(self);
            let hp1 = pre.heap@;
            let hp2 = self.heap@;
            assert(slot_values(hp2[h as int]) == slot_values(hp1[h as int]).push(
                reg_val(pre, src),
            ));
            assert forall|i: int|
                0 <= i < hp1.len() implies (((#[trigger] hp1[i]) is Arr <==> (#[trigger] hp2[i])
                is Arr) && (hp1[i] is Obj <==> hp2[i] is Obj)) by {
                if i != h as int {
                    assert(hp2[i] == hp1[i]);
                }
            }
            assert forall|rr: int|
                0 <= rr < self.registers@.len() implies ((#[trigger] self.registers@[rr]) matches Some(v2)
                ==> value_ok(v2, hp2)) by {
                if self.registers@[rr] is Some {
                    lemma_value_ok_same_kinds(self.registers@[rr]->0, hp1, hp2);
                }
            }
            assert forall|f: int, b: int|
                0 <= f < self.frames@.len() && 0 <= b < (#[trigger] self.frames@[f]).vars@.len()
                implies value_ok(#[trigger] self.frames@[f].vars@[b].val, hp2) by {
                lemma_value_ok_same_kinds(self.frames@[f].vars@[b].val, hp1, hp2);
            }
            assert forall|g: int|
                0 <= g < self.globals@.len() implies value_ok(#[trigger] self.globals@[g], hp2) by {
                lemma_value_ok_same_kinds(self.globals@[g], hp1, hp2);
            }
            assert forall|i: int| 0 <= i < hp2.len() implies slot_ok(#[trigger] hp2[i], hp2) by {
                assert(slot_ok(hp1[i], hp1));
                assert forall|k: int|
                    0 <= k < slot_values(hp2[i]).len() implies value_ok(
                    slot_values(hp2[i])[k],
                    hp2,
                ) by {
                    if i == h as int && k == slot_values(hp2[i]).len() - 1 {
                        assert(slot_values(hp2[i])[k] == reg_val(pre, src));
                        lemma_value_ok_same_kinds(reg_val(pre, src), hp1, hp2);
                    } else {
                        if i == h as int {
                            assert(slot_values(hp2[i])[k] == slot_values(hp1[i])[k]);
                        }
                        assert(value_ok(slot_values(hp1[i])[k], hp1));
                        lemma_value_ok_same_kinds(slot_values(hp1[i])[k], hp1, hp2);
                    }
                }
            }
        }
        let pc_bound = self.bytecode.len();  // pc < this, so pc + 1 fits in usize
        self.pc = self.pc + 1;
        StepResult::Continue
    }

    fn exec_len(&mut self, dst: u8, src: u8) -> (r: StepResult)
        requires
            old(self).wf(),
            old(self).pc < old(self).bytecode@.len(),
        ensures
            final(self).wf(),
            len_rel(*old(self), *final(self), r, dst, src),
    {
        let c = match self.get_reg(src) {
            Ok(v) => v,
            Err(k) => {
                return StepResult::Fatal(VmError { kind: k, pc: self.pc });
            },
        };
        let h: usize = match c {
            Value::Arr(h) => h,
            _ => {
                return StepResult::Fatal(VmError { kind: VmErrorKind::TypeMismatch, pc: self.pc });
            },
        };
        let n: usize = match &self.heap[h] {
            Slot::Arr(vs) => vs.len(),
            _ => unreached(),
        };
        if n as u64 > i64::MAX as u64 {
            return StepResult::Fatal(VmError { kind: VmErrorKind::Overflow, pc: self.pc });
        }
        self.finish_write(dst, Value::Int(n as i64))
    }

    fn exec_idx(&mut self, dst: u8, container: u8, index: u8) -> (r: StepResult)
        requires
            old(self).wf(),
            old(self).pc < old(self).bytecode@.len(),
        ensures
            final(self).wf(),
            idx_rel(*old(self), *final(self), r, dst, container, index),
    {
        let c = match self.get_reg(container) {
            Ok(v) => v,
            Err(k) => {
                return StepResult::Fatal(VmError { kind: k, pc: self.pc });
            },
        };
        let iv = match self.get_reg(index) {
            Ok(v) => v,
            Err(k) => {
                return StepResult::Fatal(VmError { kind: k, pc: self.pc });
            },
        };
        let (h, i): (usize, i64) = match (&c, &iv) {
            (Value::Arr(h), Value::Int(i)) => (*h, *i),
            _ => {
                return StepResult::Fatal(VmError { kind: VmErrorKind::TypeMismatch, pc: self.pc });
            },
        };
        let element: Option<Value> = match &self.heap[h] {
            Slot::Arr(vs) => {
                if i >= 0 && (i as u64) < (vs.len() as u64) {
                    let iu = i as usize;
                    proof {
                        assert(slot_ok(self.heap@[h as int], self.heap@));
                        assert(value_ok(slot_values(self.heap@[h as int])[i as int], self.heap@));
                    }
                    Some(vs[iu].duplicate())
                } else {
                    None
                }
            },
            _ => unreached(),
        };
        match element {
            Some(v) => self.finish_write(dst, v),
            None => StepResult::Fatal(VmError { kind: VmErrorKind::OutOfRangeIndex, pc: self.pc }),
        }
    }
}

// ---------------------------------------------------------------------
// The mark-and-sweep collector.
// ---------------------------------------------------------------------

/// How many entries of a mark array are still false.
pub open spec fn count_false(s: Seq<bool>) -> nat
    decreases s.len(),
{
    if s.len() == 0 {
        0
    } else {
        (if s[0] {
            0nat
        } else {
            1nat
        }) + count_false(s.drop_first())
    }
}

proof fn lemma_count_false_update(s: Seq<bool>, j: int)
    requires
        0 <= j < s.len(),
        !s[j],
    ensures
        count_false(s.update(j, true)) + 1 == count_false(s),
    decreases s.len(),
{
    if j == 0 {
        assert(s.update(0, true).drop_first() =~= s.drop_first());
    } else {
        assert(s.update(j, true).drop_first() =~= s.drop_first().update(j - 1, true));
        lemma_count_false_update(s.drop_first(), j - 1);
    }
}

/// The block a value references, if any, is marked.
pub open spec fn value_handle_marked(v: Value, marked: Seq<bool>) -> bool {
    value_handle(v) matches Some(j) ==> 0 <= j < marked.len() && marked[j]
}

/// The block an occupied register references, if any, is marked.
pub open spec fn opt_handle_marked(ov: Option<Value>, marked: Seq<bool>) -> bool {
    ov matches Some(v) ==> value_handle_marked(v, marked)
}

/// The marking invariant.  Marks cover only reachable blocks; the
/// worklist holds marked blocks awaiting a scan; and every marked block
/// that neither awaits a scan nor is the one being scanned already has
/// every block it references marked.
pub open spec fn mark_inv(
    vm0: Vm,
    marked: Seq<bool>,
    stack: Seq<usize>,
    scanning: Option<int>,
) -> bool {
    &&& marked.len() == vm0.heap@.len()
    &&& forall|j: int| 0 <= j < marked.len() && marked[j] ==> reachable(vm0, j)
    &&& forall|k: int|
        0 <= k < stack.len() ==> ((#[trigger] stack[k] as int) < marked.len() && marked[stack[k] as int])
    &&& forall|i: int, j: int|
        0 <= i < marked.len() && marked[i] && !stack.contains(i as usize) && Some(i) != scanning
            && heap_edge(vm0.heap@, i, j) ==> (0 <= j < marked.len() && marked[j])
}

/// Marks the block a value references, if any, scheduling it for a scan.
fn mark_value(
    v: &Value,
    marked: &mut Vec<bool>,
    stack: &mut Vec<usize>,
    Ghost(vm0): Ghost<Vm>,
    Ghost(scanning): Ghost<Option<int>>,
)
    requires
        vm0.wf(),
        mark_inv(vm0, old(marked)@, old(stack)@, scanning),
        value_ok(*v, vm0.heap@),
        value_handle(*v) matches Some(j) ==> reachable(vm0, j),
    ensures
        mark_inv(vm0, final(marked)@, final(stack)@, scanning),
        final(marked)@.len() == old(marked)@.len(),
        match value_handle(*v) {
            None => final(marked)@ == old(marked)@ && final(stack)@ == old(stack)@,
            Some(j) => {
                &&& final(marked)@[j]
                &&& if old(marked)@[j] {
                    final(marked)@ == old(marked)@ && final(stack)@ == old(stack)@
                } else {
                    final(marked)@ == old(marked)@.update(j, true) && final(stack)@ == old(
                        stack,
                    )@.push(j as usize)
                }
            },
        },
{
    let h: usize = match v {
        Value::Arr(h) => *h,
        Value::Obj(h) => *h,
        _ => {
            return ;
        },
    };
    if !marked[h] {
        marked[h] = true;
        stack.push(h);
        proof {
            let m2 = marked@;
            let s2 = stack@;
            assert(s2[s2.len() - 1] == h);
            assert(s2.contains(h));
            assert forall|i: int, j: int|
                0 <= i < m2.len() && m2[i] && !s2.contains(i as usize) && Some(i) != scanning
                    && heap_edge(vm0.heap@, i, j) implies (0 <= j < m2.len() && m2[j]) by {
                assert(i != h as int);
                assert(old(marked)@[i]);
                assert forall|k: int|
                    0 <= k < old(stack)@.len() implies s2[k] == old(stack)@[k] by {}
                if old(stack)@.contains(i as usize) {
                    let k = choose|k: int|
                        0 <= k < old(stack)@.len() && old(stack)@[k] == i as usize;
                    assert(s2[k] == i as usize);
                    assert(false);
                }
                assert(old(marked)@[j]);
            }
        }
    }
}

/// Every block a path leads to is marked, provided roots are marked and
/// marks are closed under the heap's edges.
proof fn lemma_path_marked(vm0: Vm, marked: Seq<bool>, p: Seq<int>)
    requires
        vm0.wf(),
        marked.len() == vm0.heap@.len(),
        path_ok(vm0, p),
        forall|j: int| is_root(vm0, j) ==> 0 <= j < marked.len() && marked[j],
        forall|i: int, j: int|
            0 <= i < marked.len() && marked[i] && heap_edge(vm0.heap@, i, j) ==> (0 <= j
                < marked.len() && marked[j]),
    ensures
        0 <= p.last() < marked.len() && marked[p.last()],
    decreases p.len(),
{
    if p.len() == 1 {
        assert(is_root(vm0, p[0]));
    } else {
        let q = p.drop_last();
        assert(path_ok(vm0, q));
        lemma_path_marked(vm0, marked, q);
        assert(heap_edge(vm0.heap@, p[p.len() - 2], p[p.len() - 1]));
    }
}

/// Scans one block's held values, marking and scheduling every block
/// they reference.  Restores the closure part of the marking invariant
/// for the scanned block.
#[verifier::rlimit(100)]
fn scan_children(
    slot: &Slot,
    i: usize,
    marked: &mut Vec<bool>,
    stack: &mut Vec<usize>,
    Ghost(vm0): Ghost<Vm>,
)
    requires
        vm0.wf(),
        (i as int) < vm0.heap@.len(),
        vm0.heap@[i as int] == *slot,
        mark_inv(vm0, old(marked)@, old(stack)@, Some(i as int)),
        old(marked)@.len() == vm0.heap@.len(),
        old(marked)@[i as int],
    ensures
        mark_inv(vm0, final(marked)@, final(stack)@, None::<int>),
        final(marked)@.len() == old(marked)@.len(),
        forall|j: int| 0 <= j < old(marked)@.len() && old(marked)@[j] ==> final(marked)@[j],
        final(stack)@.len() + count_false(final(marked)@) <= old(stack)@.len() + count_false(
            old(marked)@,
        ),
        count_false(final(marked)@) <= count_false(old(marked)@),
{
    let ghost n = vm0.heap@.len();
    let ghost count0 = count_false(old(marked)@);
    let ghost stacklen0 = old(stack)@.len();
    match slot {
        Slot::Free => {
            proof {
                assert(slot_values(vm0.heap@[i as int]) =~= Seq::<Value>::empty());
                assert forall|i2: int, j: int|
                    0 <= i2 < marked@.len() && marked@[i2] && !stack@.contains(i2 as usize)
                        && heap_edge(vm0.heap@, i2, j) implies (0 <= j < marked@.len()
                    && marked@[j]) by {
                    if i2 == i as int {
                        assert(slot_values(vm0.heap@[i2]).len() == 0);
                    }
                }
            }
        },
        Slot::Arr(vs) => {
            let m = vs.len();
            let mut k: usize = 0;
            while k < m
                invariant
                    vm0.wf(),
                    n == vm0.heap@.len(),
                    marked@.len() == n,
                    (i as int) < n,
                    marked@[i as int],
                    vm0.heap@[i as int] matches Slot::Arr(vs2) && vs2@ == vs@,
                    m == vs@.len(),
                    k <= m,
                    mark_inv(vm0, marked@, stack@, Some(i as int)),
                    forall|j: int| 0 <= j < n && old(marked)@[j] ==> marked@[j],
                    forall|kk: int|
                        0 <= kk < k ==> value_handle_marked(#[trigger] vs@[kk], marked@),
                    stack@.len() + count_false(marked@) <= stacklen0 + count0,
                    count_false(marked@) <= count0,
                decreases m - k,
            {
                proof {
                    assert(slot_values(vm0.heap@[i as int]) == vs@);
                    assert(slot_ok(vm0.heap@[i as int], vm0.heap@));
                    assert(value_ok(vs@[k as int], vm0.heap@));
                    if value_handle(vs@[k as int]) is Some {
                        let j = value_handle(vs@[k as int])->0;
                        assert(heap_edge(vm0.heap@, i as int, j));
                        assert(reachable(vm0, i as int));
                        lemma_reachable_step(vm0, i as int, j);
                    }
                }
                let ghost marked_before = marked@;
                mark_value(&vs[k], marked, stack, Ghost(vm0), Ghost(Some(i as int)));
                proof {
                    if marked@ != marked_before {
                        let j = value_handle(vs@[k as int])->0;
                        lemma_count_false_update(marked_before, j);
                    }
                }
                k = k + 1;
            }
            proof {
                assert forall|i2: int, j: int|
                    0 <= i2 < marked@.len() && marked@[i2] && !stack@.contains(i2 as usize)
                        && heap_edge(vm0.heap@, i2, j) implies (0 <= j < marked@.len()
                    && marked@[j]) by {
                    if i2 == i as int {
                        let kk = choose|kk: int|
                            0 <= kk < slot_values(vm0.heap@[i2]).len() && value_handle(
                                slot_values(vm0.heap@[i2])[kk],
                            ) == Some(j);
                        assert(slot_values(vm0.heap@[i2]) == vs@);
                        assert(value_handle_marked(vs@[kk], marked@));
                        assert(slot_ok(vm0.heap@[i2], vm0.heap@));
                        assert(value_ok(vs@[kk], vm0.heap@));
                    }
                }
                assert(mark_inv(vm0, marked@, stack@, None::<int>));
            }
        },
        Slot::Obj(fs) => {
            let m = fs.len();
            let mut k: usize = 0;
            while k < m
                invariant
                    vm0.wf(),
                    n == vm0.heap@.len(),
                    marked@.len() == n,
                    (i as int) < n,
                    marked@[i as int],
                    vm0.heap@[i as int] matches Slot::Obj(fs2) && fs2@ == fs@,
                    m == fs@.len(),
                    k <= m,
                    mark_inv(vm0, marked@, stack@, Some(i as int)),
                    forall|j: int| 0 <= j < n && old(marked)@[j] ==> marked@[j],
                    forall|kk: int|
                        0 <= kk < k ==> value_handle_marked(#[trigger] fs@[kk].val, marked@),
                    stack@.len() + count_false(marked@) <= stacklen0 + count0,
                    count_false(marked@) <= count0,
                decreases m - k,
            {
                proof {
                    assert(slot_values(vm0.heap@[i as int]) =~= fs@.map_values(
                        |f: ObjField| f.val,
                    ));
                    assert(slot_values(vm0.heap@[i as int])[k as int] == fs@[k as int].val);
                    assert(slot_ok(vm0.heap@[i as int], vm0.heap@));
                    assert(value_ok(fs@[k as int].val, vm0.heap@));
                    if value_handle(fs@[k as int].val) is Some {
                        let j = value_handle(fs@[k as int].val)->0;
                        assert(heap_edge(vm0.heap@, i as int, j));
                        assert(reachable(vm0, i as int));
                        lemma_reachable_step(vm0, i as int, j);
                    }
                }
                let ghost marked_before = marked@;
                mark_value(&fs[k].val, marked, stack, Ghost(vm0), Ghost(Some(i as int)));
                proof {
                    if marked@ != marked_before {
                        let j = value_handle(fs@[k as int].val)->0;
                        lemma_count_false_update(marked_before, j);
                    }
                }
                k = k + 1;
            }
            proof {
                assert forall|i2: int, j: int|
                    0 <= i2 < marked@.len() && marked@[i2] && !stack@.contains(i2 as usize)
                        && heap_edge(vm0.heap@, i2, j) implies (0 <= j < marked@.len()
                    && marked@[j]) by {
                    if i2 == i as int {
                        let kk = choose|kk: int|
                            0 <= kk < slot_values(vm0.heap@[i2]).len() && value_handle(
                                slot_values(vm0.heap@[i2])[kk],
                            ) == Some(j);
                        assert(slot_values(vm0.heap@[i2]) =~= fs@.map_values(|f: ObjField| f.val));
                        assert(slot_values(vm0.heap@[i2])[kk] == fs@[kk].val);
                        assert(value_handle_marked(fs@[kk].val, marked@));
                    }
                }
                assert(mark_inv(vm0, marked@, stack@, None::<int>));
            }
        },
    }
}

impl Vm {
    /// Mark-and-sweep collection.  The root set is every occupied
    /// register (scanned unconditionally — a register the compiler
    /// considers freed still holds a live value until overwritten),
    /// every binding reachable through the frame chain, and every
    /// heap-managed global.  Marking visits array elements and object
    /// fields recursively; the sweep frees exactly the unmarked blocks
    /// and rebuilds the free list.
    #[verifier::rlimit(100)]
    pub fn collect(&mut self)
        requires
            old(self).wf(),
        ensures
            final(self).wf(),
            final(self).heap@.len() == old(self).heap@.len(),
            forall|j: int|
                reachable(*old(self), j) ==> final(self).heap@[j] == old(self).heap@[j],
            forall|j: int|
                0 <= j < old(self).heap@.len() && !reachable(*old(self), j)
                    ==> final(self).heap@[j] is Free,
            final(self).registers@ == old(self).registers@,
            final(self).frames@ == old(self).frames@,
            final(self).globals@ == old(self).globals@,
            final(self).bytecode@ == old(self).bytecode@,
            final(self).pc == old(self).pc,
            final(self).gc_threshold == old(self).gc_threshold,
    {
        let ghost vm0 = *old(self);
        let n = self.heap.len();

        let mut marked: Vec<bool> = Vec::new();
        let mut t: usize = 0;
        while t < n
            invariant
                t <= n,
                marked@.len() == t,
                forall|j: int| 0 <= j < t ==> !marked@[j],
            decreases n - t,
        {
            marked.push(false);
            t = t + 1;
        }
        let mut stack: Vec<usize> = Vec::new();

        proof {
            assert(mark_inv(vm0, marked@, stack@, None::<int>));
        }

        // Roots: every occupied register slot.
        let mut ri: usize = 0;
        while ri < self.registers.len()
            invariant
                *self == vm0,
                vm0.wf(),
                n == vm0.heap@.len(),
                ri <= vm0.registers@.len(),
                marked@.len() == n,
                mark_inv(vm0, marked@, stack@, None::<int>),
                forall|rr: int|
                    0 <= rr < ri ==> opt_handle_marked(#[trigger] vm0.registers@[rr], marked@),
            decreases vm0.registers@.len() - ri,
        {
            match &self.registers[ri] {
                Some(v) => {
                    proof {
                        if value_handle(*v) is Some {
                            let j = value_handle(*v)->0;
                            assert(vm0.registers@[ri as int] matches Some(v2) && value_handle(v2)
                                == Some(j));
                            assert(is_root(vm0, j));
                            lemma_root_reachable(vm0, j);
                        }
                    }
                    mark_value(v, &mut marked, &mut stack, Ghost(vm0), Ghost(None::<int>));
                },
                None => {},
            }
            ri = ri + 1;
        }

        // Roots: every binding in the frame chain.
        let mut fi: usize = 0;
        while fi < self.frames.len()
            invariant
                *self == vm0,
                vm0.wf(),
                n == vm0.heap@.len(),
                fi <= vm0.frames@.len(),
                marked@.len() == n,
                mark_inv(vm0, marked@, stack@, None::<int>),
                forall|rr: int|
                    0 <= rr < vm0.registers@.len() ==> opt_handle_marked(
                        #[trigger] vm0.registers@[rr],
                        marked@,
                    ),
                forall|f: int, b: int|
                    0 <= f < fi && 0 <= b < (#[trigger] vm0.frames@[f]).vars@.len()
                        ==> value_handle_marked(#[trigger] vm0.frames@[f].vars@[b].val, marked@),
            decreases vm0.frames@.len() - fi,
        {
            let nb = self.frames[fi].vars.len();
            let mut bi: usize = 0;
            while bi < nb
                invariant
                    *self == vm0,
                    vm0.wf(),
                    n == vm0.heap@.len(),
                    fi < vm0.frames@.len(),
                    nb == vm0.frames@[fi as int].vars@.len(),
                    bi <= nb,
                    marked@.len() == n,
                    mark_inv(vm0, marked@, stack@, None::<int>),
                    forall|rr: int|
                        0 <= rr < vm0.registers@.len() ==> opt_handle_marked(
                            #[trigger] vm0.registers@[rr],
                            marked@,
                        ),
                    forall|f: int, b: int|
                        0 <= f < fi && 0 <= b < (#[trigger] vm0.frames@[f]).vars@.len()
                            ==> value_handle_marked(#[trigger] vm0.frames@[f].vars@[b].val, marked@),
                    forall|b: int|
                        0 <= b < bi ==> value_handle_marked(
                            #[trigger] vm0.frames@[fi as int].vars@[b].val,
                            marked@,
                        ),
                decreases nb - bi,
            {
                proof {
                    let v = vm0.frames@[fi as int].vars@[bi as int].val;
                    assert(value_ok(v, vm0.heap@));
                    if value_handle(v) is Some {
                        let j = value_handle(v)->0;
                        assert(is_root(vm0, j));
                        lemma_root_reachable(vm0, j);
                    }
                }
                mark_value(
                    &self.frames[fi].vars[bi].val,
                    &mut marked,
                    &mut stack,
                    Ghost(vm0),
                    Ghost(None::<int>),
                );
                bi = bi + 1;
            }
            fi = fi + 1;
        }

        // Roots: every heap-managed global.
        let mut gi: usize = 0;
        while gi < self.globals.len()
            invariant
                *self == vm0,
                vm0.wf(),
                n == vm0.heap@.len(),
                gi <= vm0.globals@.len(),
                marked@.len() == n,
                mark_inv(vm0, marked@, stack@, None::<int>),
                forall|rr: int|
                    0 <= rr < vm0.registers@.len() ==> opt_handle_marked(
                        #[trigger] vm0.registers@[rr],
                        marked@,
                    ),
                forall|f: int, b: int|
                    0 <= f < vm0.frames@.len() && 0 <= b < (#[trigger] vm0.frames@[f]).vars@.len()
                        ==> value_handle_marked(#[trigger] vm0.frames@[f].vars@[b].val, marked@),
                forall|g: int|
                    0 <= g < gi ==> value_handle_marked(#[trigger] vm0.globals@[g], marked@),
            decreases vm0.globals@.len() - gi,
        {
            proof {
                let v = vm0.globals@[gi as int];
                if value_handle(v) is Some {
                    let j = value_handle(v)->0;
                    assert(is_root(vm0, j));
                    lemma_root_reachable(vm0, j);
                }
            }
            mark_value(&self.globals[gi], &mut marked, &mut stack, Ghost(vm0), Ghost(None::<int>));
            gi = gi + 1;
        }

        proof {
            assert forall|j: int| is_root(vm0, j) implies 0 <= j < n && marked@[j] by {
                root_handle_valid(vm0, j);
            }
        }

        // Scan the worklist until every marked block's references are
        // themselves marked.
        while stack.len() > 0
            invariant
                *self == vm0,
                vm0.wf(),
                n == vm0.heap@.len(),
                marked@.len() == n,
                mark_inv(vm0, marked@, stack@, None::<int>),
                forall|j: int| is_root(vm0, j) ==> 0 <= j < n && marked@[j],
            decreases count_false(marked@), stack@.len(),
        {
            let ghost stack_pre = stack@;
            let i: usize = if let Some(i) = stack.pop() {
                i
            } else {
                unreached()
            };
            proof {
                assert(stack_pre[stack_pre.len() - 1] == i);
                assert forall|i2: int, j: int|
                    0 <= i2 < marked@.len() && marked@[i2] && !stack@.contains(i2 as usize)
                        && Some(i2) != Some(i as int) && heap_edge(vm0.heap@, i2, j) implies (0 <= j
                    < marked@.len() && marked@[j]) by {
                    if stack_pre.contains(i2 as usize) {
                        let k = choose|k: int|
                            0 <= k < stack_pre.len() && stack_pre[k] == i2 as usize;
                        assert(k < stack_pre.len() - 1);
                        assert(stack@[k] == i2 as usize);
                        assert(false);
                    }
                }
                assert(mark_inv(vm0, marked@, stack@, Some(i as int)));
            }
            let ghost marked0 = marked@;
            scan_children(&self.heap[i], i, &mut marked, &mut stack, Ghost(vm0));
            proof {
                assert forall|j: int| is_root(vm0, j) implies 0 <= j < n && marked@[j] by {
                    assert(marked0[j]);
                }
            }
        }

        // Sweep: free exactly the unmarked blocks and rebuild the free
        // list.
        proof {
            assert forall|j: int| reachable(vm0, j) implies 0 <= j < n && marked@[j] by {
                let p = choose|p: Seq<int>| path_ok(vm0, p) && p.last() == j;
                lemma_path_marked(vm0, marked@, p);
            }
        }
        let mut new_free: Vec<usize> = Vec::new();
        let mut si: usize = 0;
        while si < n
            invariant
                vm0.wf(),
                n == vm0.heap@.len(),
                marked@.len() == n,
                si <= n,
                self.registers@ == vm0.registers@,
                self.frames@ == vm0.frames@,
                self.globals@ == vm0.globals@,
                self.bytecode@ == vm0.bytecode@,
                self.pc == vm0.pc,
                self.gc_threshold == vm0.gc_threshold,
                self.heap@.len() == n,
                forall|j: int| si <= j < n ==> self.heap@[j] == vm0.heap@[j],
                forall|j: int| 0 <= j < si && marked@[j] ==> self.heap@[j] == vm0.heap@[j],
                forall|j: int| 0 <= j < si && !marked@[j] ==> self.heap@[j] is Free,
                forall|k: int|
                    0 <= k < new_free@.len() ==> ((#[trigger] new_free@[k] as int) < si && !marked@[new_free@[k] as int]),
                forall|j: int| 0 <= j < si && !marked@[j] ==> new_free@.contains(j as usize),
                forall|k1: int, k2: int|
                    0 <= k1 < k2 < new_free@.len() ==> new_free@[k1] < new_free@[k2],
            decreases n - si,
        {
            if !marked[si] {
                self.heap[si] = Slot::Free;
                let ghost free_before = new_free@;
                new_free.push(si);
                proof {
                    assert(new_free@[new_free@.len() - 1] == si);
                    assert forall|j: int|
                        0 <= j < si + 1 && !marked@[j] implies new_free@.contains(j as usize) by {
                        if j < si {
                            let k = choose|k: int|
                                0 <= k < free_before.len() && free_before[k] == j as usize;
                            assert(new_free@[k] == j as usize);
                        } else {
                            assert(new_free@[new_free@.len() - 1] == j as usize);
                        }
                    }
                }
            }
            si = si + 1;
        }
        self.heap_free = new_free;

        proof {
            let hp1 = vm0.heap@;
            let hp2 = self.heap@;
            // Marked blocks survive with their contents; their references
            // are marked too, so no kept value dangles.
            assert forall|j: int| 0 <= j < n && marked@[j] implies !(hp1[j] is Free) by {
                assert(reachable(vm0, j));
                lemma_reachable_valid(vm0, j);
            }
            assert forall|v: Value, jj: int|
                value_ok(v, hp1) && value_handle(v) == Some(jj) && marked@[jj] implies value_ok(
                v,
                hp2,
            ) by {
                assert(hp2[jj] == hp1[jj]);
            }
            assert(self.heap_free@.no_duplicates()) by {
                assert forall|k1: int, k2: int|
                    0 <= k1 < self.heap_free@.len() && 0 <= k2 < self.heap_free@.len() && k1 != k2
                    implies self.heap_free@[k1] != self.heap_free@[k2] by {}
            }
            // Register, frame and global values reference marked blocks.
            assert forall|rr: int|
                0 <= rr < self.registers@.len() implies ((#[trigger] self.registers@[rr]) matches Some(
                v,
            ) ==> value_ok(v, hp2)) by {
                if self.registers@[rr] is Some {
                    let v = self.registers@[rr]->0;
                    assert(value_ok(v, hp1));
                    if value_handle(v) is Some {
                        let j = value_handle(v)->0;
                        assert(vm0.registers@[rr] matches Some(v2) && value_handle(v2) == Some(j));
                        assert(is_root(vm0, j));
                    }
                }
            }
            assert forall|f: int, b: int|
                0 <= f < self.frames@.len() && 0 <= b < (#[trigger] self.frames@[f]).vars@.len()
                implies value_ok(#[trigger] self.frames@[f].vars@[b].val, hp2) by {
                let v = self.frames@[f].vars@[b].val;
                assert(value_ok(v, hp1));
                if value_handle(v) is Some {
                    let j = value_handle(v)->0;
                    assert(value_handle(vm0.frames@[f].vars@[b].val) == Some(j));
                    assert(is_root(vm0, j));
                }
            }
            assert forall|g: int|
                0 <= g < self.globals@.len() implies value_ok(#[trigger] self.globals@[g], hp2) by {
                let v = self.globals@[g];
                assert(value_ok(v, hp1));
                if value_handle(v) is Some {
                    let j = value_handle(v)->0;
                    assert(value_handle(vm0.globals@[g]) == Some(j));
                    assert(is_root(vm0, j));
                }
            }
            assert forall|i: int| 0 <= i < hp2.len() implies slot_ok(#[trigger] hp2[i], hp2) by {
                if marked@[i] {
                    assert(hp2[i] == hp1[i]);
                    assert(slot_ok(hp1[i], hp1));
                    assert forall|k: int|
                        0 <= k < slot_values(hp2[i]).len() implies value_ok(
                        slot_values(hp2[i])[k],
                        hp2,
                    ) by {
                        let v = slot_values(hp1[i])[k];
                        assert(value_ok(v, hp1));
                        if value_handle(v) is Some {
                            let j = value_handle(v)->0;
                            assert(heap_edge(vm0.heap@, i, j)) by {
                                assert(0 <= k < slot_values(vm0.heap@[i]).len() && value_handle(
                                    slot_values(vm0.heap@[i])[k],
                                ) == Some(j));
                            }
                            assert(marked@[j]);
                        }
                    }
                } else {
                    assert(hp2[i] is Free);
                }
            }
            assert forall|i: int|
                0 <= i < hp2.len() implies ((hp2[i] is Free) <==> self.heap_free@.contains(
                i as usize,
            )) by {
                if hp2[i] is Free {
                    assert(!marked@[i]);
                } else {
                    if self.heap_free@.contains(i as usize) {
                        let k = choose|k: int|
                            0 <= k < self.heap_free@.len() && self.heap_free@[k] == i as usize;
                        assert(!marked@[i]);
                        assert(false);
                    }
                }
            }
        }
    }
}

/// A value stays valid when one free (or fresh) slot is turned into a
/// live block and nothing else changes.
proof fn lemma_value_ok_after_alloc(v: Value, hp1: Seq<Slot>, hp2: Seq<Slot>, h: int)
    requires
        hp2.len() >= hp1.len(),
        forall|j: int| 0 <= j < hp1.len() && j != h ==> hp2[j] == hp1[j],
        h >= hp1.len() || hp1[h] is Free,
        value_ok(v, hp1),
    ensures
        value_ok(v, hp2),
{
}

impl Vm {
    fn exec_new(&mut self, dst: u8, size: u8, nt: New) -> (r: StepResult)
        requires
            old(self).wf(),
            old(self).pc < old(self).bytecode@.len(),
        ensures
            final(self).wf(),
            new_rel(*old(self), *final(self), r, dst, size, nt),
    {
        if dst as usize >= REGISTER_COUNT {
            return StepResult::Fatal(
                VmError { kind: VmErrorKind::OutOfRangeRegister, pc: self.pc },
            );
        }
        let live = if self.heap.len() >= self.heap_free.len() {
            self.heap.len() - self.heap_free.len()
        } else {
            0
        };
        if live >= self.gc_threshold {
            self.collect();
        }
        proof {
            assert forall|j: int| reachable(*old(self), j) implies (0 <= j < self.heap@.len()
                && self.heap@[j] == old(self).heap@[j] && !(self.heap@[j] is Free)) by {
                lemma_reachable_valid(*old(self), j);
            }
        }
        let ghost hp1 = self.heap@;
        let ghost free1 = self.heap_free@;
        let block = match nt {
            New::Array => Slot::Arr(Vec::new()),
            New::Object => Slot::Obj(Vec::new()),
        };
        let h: usize = match self.heap_free.pop() {
            Some(h) => {
                proof {
                    assert(free1[free1.len() - 1] == h);
                    assert(free1.contains(h));
                    assert(self.heap@[h as int] is Free);
                }
                self.heap[h] = block;
                h
            },
            None => {
                self.heap.push(block);
                self.heap.len() - 1
            },
        };
        let hv = match nt {
            New::Array => Value::Arr(h),
            New::Object => Value::Obj(h),
        };
        proof {
            let hp2 = self.heap@;
            assert forall|rr: int|
                0 <= rr < self.registers@.len() implies ((#[trigger] self.registers@[rr]) matches Some(
                v,
            ) ==> value_ok(v, hp2)) by {
                if self.registers@[rr] is Some {
                    lemma_value_ok_after_alloc(self.registers@[rr]->0, hp1, hp2, h as int);
                }
            }
            assert forall|f: int, b: int|
                0 <= f < self.frames@.len() && 0 <= b < (#[trigger] self.frames@[f]).vars@.len()
                implies value_ok(#[trigger] self.frames@[f].vars@[b].val, hp2) by {
                lemma_value_ok_after_alloc(self.frames@[f].vars@[b].val, hp1, hp2, h as int);
            }
            assert forall|g: int|
                0 <= g < self.globals@.len() implies value_ok(#[trigger] self.globals@[g], hp2) by {
                lemma_value_ok_after_alloc(self.globals@[g], hp1, hp2, h as int);
            }
            assert forall|i: int| 0 <= i < hp2.len() implies slot_ok(#[trigger] hp2[i], hp2) by {
                if i == h as int {
                    assert(slot_values(hp2[i]).len() == 0);
                } else {
                    assert(hp2[i] == hp1[i]);
                    assert(slot_ok(hp1[i], hp1));
                    assert forall|k: int|
                        0 <= k < slot_values(hp2[i]).len() implies value_ok(
                        slot_values(hp2[i])[k],
                        hp2,
                    ) by {
                        lemma_value_ok_after_alloc(slot_values(hp1[i])[k], hp1, hp2, h as int);
                    }
                }
            }
            // The free list still lists exactly the free slots.
            assert forall|i: int|
                0 <= i < hp2.len() implies ((hp2[i] is Free) <==> self.heap_free@.contains(
                i as usize,
            )) by {
                if i != h as int && i < hp1.len() {
                    if hp1[i] is Free {
                        let k = choose|k: int|
                            0 <= k < free1.len() && free1[k] == (i as usize);
                        if k < self.heap_free@.len() {
                            assert(self.heap_free@[k] == i as usize);
                        } else {
                            assert(free1[free1.len() - 1] == (h as usize));
                            assert(false);
                        }
                    } else {
                        if self.heap_free@.contains(i as usize) {
                            let k = choose|k: int|
                                0 <= k < self.heap_free@.len() && self.heap_free@[k] == (i as usize);
                            assert(free1[k] == i as usize);
                            assert(false);
                        }
                    }
                } else {
                    if self.heap_free@.contains(h as usize) {
                        let k = choose|k: int|
                            0 <= k < self.heap_free@.len() && self.heap_free@[k] == (h as usize);
                        assert(free1[k] == h as usize);
                        assert(free1[free1.len() - 1] == (h as usize));
                        assert(false);
                    }
                }
            }
        }
        self.registers[dst as usize] = Some(hv);
        let pc_bound = self.bytecode.len();  // pc < this, so pc + 1 fits in usize
        self.pc = self.pc + 1;
        proof {
            assert forall|j: int| reachable(*old(self), j) implies (0 <= j < self.heap@.len()
                && self.heap@[j] == old(self).heap@[j] && j != h as int) by {
                lemma_reachable_valid(*old(self), j);
            }
        }
        StepResult::Continue
    }
}

// ---------------------------------------------------------------------
// The fetch-execute loop.
// ---------------------------------------------------------------------

/// What one step does, as a relation between the machine state before
/// and after it: fetch the instruction at the pc and apply its
/// semantics; past the end of the bytecode the machine halts untouched.
pub open spec fn step_rel(pre: Vm, post: Vm, r: StepResult) -> bool {
    if pre.pc >= pre.bytecode@.len() {
        post == pre && r == StepResult::Halted
    } else {
        match pre.bytecode@[pre.pc as int] {
            Op::Add { dst, lhs, rhs } => binop_rel(pre, post, r, BinKind::Add, dst, lhs, rhs),
            Op::Sub { dst, lhs, rhs } => binop_rel(pre, post, r, BinKind::Sub, dst, lhs, rhs),
            Op::Mul { dst, lhs, rhs } => binop_rel(pre, post, r, BinKind::Mul, dst, lhs, rhs),
            Op::Div { dst, lhs, rhs } => binop_rel(pre, post, r, BinKind::Div, dst, lhs, rhs),
            Op::Eq { dst, lhs, rhs } => binop_rel(pre, post, r, BinKind::Eq, dst, lhs, rhs),
            Op::Lt { dst, lhs, rhs } => binop_rel(pre, post, r, BinKind::Lt, dst, lhs, rhs),
            Op::Gt { dst, lhs, rhs } => binop_rel(pre, post, r, BinKind::Gt, dst, lhs, rhs),
            Op::Mov { dst, src } => mov_rel(pre, post, r, dst, src),
            Op::LoadI { dst, value } => write_reg_rel(pre, post, r, dst, Value::Int(value)),
            Op::LoadG { dst, idx } => loadg_rel(pre, post, r, dst, idx),
            Op::Var { hash, src } => var_rel(pre, post, r, hash, src),
            Op::LoadV { hash, dst } => loadv_rel(pre, post, r, hash, dst),
            Op::New { dst, size, new_type } => new_rel(pre, post, r, dst, size, new_type),
            Op::Append { container, src } => append_rel(pre, post, r, container, src),
            Op::Len { dst, src } => len_rel(pre, post, r, dst, src),
            Op::Idx { dst, container, index } => idx_rel(pre, post, r, dst, container, index),
            Op::Jmp { target } => jmp_rel(pre, post, r, target),
            Op::JmpF { cond, target } => jmpf_rel(pre, post, r, cond, target),
            Op::Call { func, args_start, args_len } => call_rel(
                pre,
                post,
                r,
                func,
                args_start,
                args_len,
            ),
            Op::Ret { times } => ret_rel(pre, post, r, times),
            Op::Sys { func, args_start, args_len } => sys_rel(
                pre,
                post,
                r,
                func,
                args_start,
                args_len,
            ),
        }
    }
}

impl Vm {
    /// A fresh machine over an immutable bytecode sequence and global
    /// table: empty registers, the pc at the start, one base frame, an
    /// empty heap.  The globals must be inline values, as a constant
    /// pool produces.
    pub fn new(bytecode: Vec<Op>, globals: Vec<Value>, gc_threshold: usize) -> (vm: Vm)
        requires
            forall|g: int| 0 <= g < globals@.len() ==> value_handle(#[trigger] globals@[g]) is None,
        ensures
            vm.wf(),
            vm.registers@.len() == REGISTER_COUNT,
            forall|r: int| 0 <= r < REGISTER_COUNT ==> vm.registers@[r] is None,
            vm.pc == 0,
            vm.frames@.len() == 1,
            vm.frames@[0].vars@.len() == 0,
            vm.frames@[0].return_to == 0,
            vm.bytecode@ == bytecode@,
            vm.globals@ == globals@,
            vm.heap@.len() == 0,
            vm.gc_threshold == gc_threshold,
    {
        let mut registers: Vec<Option<Value>> = Vec::new();
        let mut i: usize = 0;
        while i < REGISTER_COUNT
            invariant
                i <= REGISTER_COUNT,
                registers@.len() == i,
                forall|r: int| 0 <= r < i ==> registers@[r] is None,
            decreases REGISTER_COUNT - i,
        {
            registers.push(None);
            i = i + 1;
        }
        let mut frames: Vec<Frame> = Vec::new();
        frames.push(Frame { vars: Vec::new(), return_to: 0 });
        Vm {
            registers,
            pc: 0,
            frames,
            bytecode,
            globals,
            heap: Vec::new(),
            heap_free: Vec::new(),
            gc_threshold,
        }
    }

    /// One fetch-execute step.
    pub fn step(&mut self) -> (r: StepResult)
        requires
            old(self).wf(),
        ensures
            final(self).wf(),
            step_rel(*old(self), *final(self), r),
            final(self).bytecode@ == old(self).bytecode@,
            final(self).globals@ == old(self).globals@,
            final(self).gc_threshold == old(self).gc_threshold,
            r is Halted ==> final(self).pc >= final(self).bytecode@.len(),
    {
        if self.pc >= self.bytecode.len() {
            return StepResult::Halted;
        }
        let op = self.bytecode[self.pc];
        match op {
            Op::Add { dst, lhs, rhs } => self.exec_binop(BinKind::Add, dst, lhs, rhs),
            Op::Sub { dst, lhs, rhs } => self.exec_binop(BinKind::Sub, dst, lhs, rhs),
            Op::Mul { dst, lhs, rhs } => self.exec_binop(BinKind::Mul, dst, lhs, rhs),
            Op::Div { dst, lhs, rhs } => self.exec_binop(BinKind::Div, dst, lhs, rhs),
            Op::Eq { dst, lhs, rhs } => self.exec_binop(BinKind::Eq, dst, lhs, rhs),
            Op::Lt { dst, lhs, rhs } => self.exec_binop(BinKind::Lt, dst, lhs, rhs),
            Op::Gt { dst, lhs, rhs } => self.exec_binop(BinKind::Gt, dst, lhs, rhs),
            Op::Mov { dst, src } => self.exec_mov(dst, src),
            Op::LoadI { dst, value } => self.finish_write(dst, Value::Int(value)),
            Op::LoadG { dst, idx } => self.exec_loadg(dst, idx),
            Op::Var { hash, src } => self.exec_var(hash, src),
            Op::LoadV { hash, dst } => self.exec_loadv(hash, dst),
            Op::New { dst, size, new_type } => self.exec_new(dst, size, new_type),
            Op::Append { container, src } => self.exec_append(container, src),
            Op::Len { dst, src } => self.exec_len(dst, src),
            Op::Idx { dst, container, index } => self.exec_idx(dst, container, index),
            Op::Jmp { target } => self.exec_jmp(target),
            Op::JmpF { cond, target } => self.exec_jmpf(cond, target),
            Op::Call { func, args_start, args_len } => self.exec_call(func, args_start, args_len),
            Op::Ret { times } => self.exec_ret(times),
            Op::Sys { func, args_start, args_len } => self.exec_sys(func, args_start, args_len),
        }
    }

    /// Runs the fetch-execute loop for at most `fuel` steps.  Returns
    /// `Halted`, `Fatal` or `Sys` as soon as a step does; returns
    /// `Continue` if the fuel ran out with execution still in progress.
    pub fn run(&mut self, fuel: u64) -> (r: StepResult)
        requires
            old(self).wf(),
        ensures
            final(self).wf(),
            exists|states: Seq<Vm>| run_rel(*old(self), *final(self), r, fuel as int, states),
            final(self).bytecode@ == old(self).bytecode@,
            final(self).globals@ == old(self).globals@,
            final(self).gc_threshold == old(self).gc_threshold,
            r is Halted ==> final(self).pc >= final(self).bytecode@.len(),
    {
        let ghost mut states: Seq<Vm> = seq![*old(self)];
        let mut i: u64 = 0;
        while i < fuel
            invariant
                self.wf(),
                self.bytecode@ == old(self).bytecode@,
                self.globals@ == old(self).globals@,
                self.gc_threshold == old(self).gc_threshold,
                i <= fuel,
                states.len() == i + 1,
                states[0] == *old(self),
                states.last() == *self,
                forall|k: int|
                    0 <= k < states.len() - 1 ==> step_rel(
                        states[k],
                        #[trigger] states[k + 1],
                        StepResult::Continue,
                    ),
            decreases fuel - i,
        {
            let ghost states_pre = states;
            let res = self.step();
            proof {
                states = states.push(*self);
                assert forall|k: int| 0 <= k < states.len() - 1 && k < states_pre.len() - 1
                    implies step_rel(states[k], #[trigger] states[k + 1], StepResult::Continue) by {
                    assert(states[k] == states_pre[k] && states[k + 1] == states_pre[k + 1]);
                }
                assert(states[states.len() - 2] == states_pre.last());
            }
            match res {
                StepResult::Continue => {},
                _ => {
                    proof {
                        assert(run_rel(*old(self), *self, res, fuel as int, states));
                    }
                    return res;
                },
            }
            i = i + 1;
        }
        proof {
            assert(states.len() == fuel + 1);
            if states.len() >= 2 {
                let k = states.len() - 2;
                assert(0 <= k < states.len() - 1);
                assert(step_rel(states[k], states[k + 1], StepResult::Continue));
                assert(states.last() == states[k + 1]);
            }
            assert(run_rel(*old(self), *self, StepResult::Continue, fuel as int, states));
        }
        StepResult::Continue
    }
}

/// One loop pass of `run`: the machine moved from `pre` to `post`
/// through this chain of states, each reached from the previous by one
/// `step` that returned `Continue` — except the last step, which
/// returned the loop's own result.  The loop returns `Continue` itself
/// only when it spent all its fuel with every step continuing.
pub open spec fn run_rel(pre: Vm, post: Vm, r: StepResult, fuel: int, states: Seq<Vm>) -> bool {
    &&& 1 <= states.len() <= fuel + 1
    &&& states[0] == pre
    &&& states.last() == post
    &&& forall|k: int|
        0 <= k < states.len() - 2 ==> step_rel(states[k], #[trigger] states[k + 1], StepResult::Continue)
    &&& (states.len() >= 2 ==> step_rel(states[states.len() - 2], states.last(), r))
    &&& (r == StepResult::Continue ==> states.len() == fuel + 1)
    &&& (states.len() == 1 ==> r == StepResult::Continue && fuel == 0)
}

// ---------------------------------------------------------------------
// Laws of the call protocol and the collector.
// ---------------------------------------------------------------------

/// A `Call` pushes exactly one frame, recording the instruction after
/// the call as the return address, and resumes execution at the callee.
pub proof fn lemma_step_call(
    pre: Vm,
    post: Vm,
    r: StepResult,
    func: u16,
    args_start: u8,
    args_len: u8,
)
    requires
        pre.pc < pre.bytecode@.len(),
        pre.bytecode@[pre.pc as int] == (Op::Call { func, args_start, args_len }),
        step_rel(pre, post, r),
        args_start as int + args_len as int <= REGISTER_COUNT as int,
        func as int <= pre.bytecode@.len(),
    ensures
        r == StepResult::Continue,
        post.frames@.len() == pre.frames@.len() + 1,
        post.frames@.last().return_to == pre.pc + 1,
        post.pc == func as int,
        post.registers@ == pre.registers@,
{
}

/// `Ret { times }` pops exactly `times` frames in one instruction and
/// resumes at the outermost popped frame's return address.
pub proof fn lemma_step_ret(pre: Vm, post: Vm, r: StepResult, times: u8)
    requires
        pre.pc < pre.bytecode@.len(),
        pre.bytecode@[pre.pc as int] == (Op::Ret { times }),
        step_rel(pre, post, r),
        0 < (times as int) < pre.frames@.len(),
    ensures
        r == StepResult::Continue,
        post.frames@.len() == pre.frames@.len() - times as int,
        post.pc == pre.frames@[pre.frames@.len() - times as int].return_to,
{
}

/// A `Call` followed — once the callee's frame is back on top — by
/// `Ret { times: 1 }` pops exactly that one frame and resumes at the
/// instruction following the `Call`.
pub proof fn lemma_call_then_ret_resumes_after_call(
    pre: Vm,
    mid: Vm,
    mid2: Vm,
    post: Vm,
    r1: StepResult,
    r2: StepResult,
    func: u16,
    args_start: u8,
    args_len: u8,
)
    requires
        pre.pc < pre.bytecode@.len(),
        pre.bytecode@[pre.pc as int] == (Op::Call { func, args_start, args_len }),
        step_rel(pre, mid, r1),
        args_start as int + args_len as int <= REGISTER_COUNT as int,
        func as int <= pre.bytecode@.len(),
        mid2.frames@ == mid.frames@,
        mid2.bytecode@ == mid.bytecode@,
        mid2.pc < mid2.bytecode@.len(),
        mid2.bytecode@[mid2.pc as int] == (Op::Ret { times: 1u8 }),
        step_rel(mid2, post, r2),
        pre.frames@.len() >= 1,
    ensures
        r1 == StepResult::Continue,
        r2 == StepResult::Continue,
        post.pc == pre.pc + 1,
        post.frames@ == pre.frames@,
{
    lemma_step_call(pre, mid, r1, func, args_start, args_len);
    assert(mid.frames@.len() == pre.frames@.len() + 1);
    lemma_step_ret(mid2, post, r2, 1u8);
    assert(post.frames@ =~= pre.frames@);
}

/// No two bindings of a frame carry the same name hash.  Frames start
/// empty and only `Var` binds — rebinding in place — so every frame the
/// machine builds satisfies this.
pub open spec fn unique_hashes(vars: Seq<VarBinding>) -> bool {
    forall|i: int, j: int|
        0 <= i < j < vars.len() ==> vars[i].hash != vars[j].hash
}

proof fn lemma_lookup_at_unique(vars: Seq<VarBinding>, hash: u64, i: int)
    requires
        0 <= i < vars.len(),
        vars[i].hash == hash,
        forall|j: int| 0 <= j < vars.len() && j != i ==> vars[j].hash != hash,
    ensures
        frame_lookup(vars, hash) == Some(vars[i].val),
    decreases vars.len(),
{
    if i < vars.len() - 1 {
        assert(vars.last().hash != hash);
        assert(vars.drop_last()[i] == vars[i]);
        assert forall|j: int|
            0 <= j < vars.drop_last().len() && j != i implies vars.drop_last()[j].hash != hash by {
            assert(vars.drop_last()[j] == vars[j]);
        }
        lemma_lookup_at_unique(vars.drop_last(), hash, i);
    }
}

/// Binding and lookup agree: in a frame whose bindings carry distinct
/// hashes, binding `hash` to `v` and then looking `hash` up yields
/// exactly `v`, and the distinctness is preserved.
pub proof fn lemma_bind_then_lookup(
    vars: Seq<VarBinding>,
    hash: u64,
    v: Value,
    post: Seq<VarBinding>,
)
    requires
        unique_hashes(vars),
        bind_post(vars, hash, v, post),
    ensures
        unique_hashes(post),
        frame_lookup(post, hash) == Some(v),
{
    if frame_has(vars, hash) {
        let i = choose|i: int|
            {
                &&& 0 <= i < vars.len()
                &&& vars[i].hash == hash
                &&& forall|j: int| 0 <= j < i ==> vars[j].hash != hash
                &&& post == vars.update(i, VarBinding { hash, val: v })
            };
        assert forall|j: int| 0 <= j < post.len() && j != i implies post[j].hash != hash by {
            assert(post[j] == vars[j]);
            if j > i {
                assert(vars[i].hash == hash);
            }
        }
        lemma_lookup_at_unique(post, hash, i);
    } else {
        assert(post.last().hash == hash);
        assert forall|i: int, j: int|
            0 <= i < j < post.len() implies post[i].hash != post[j].hash by {
            if j < post.len() - 1 {
                assert(post[i] == vars[i] && post[j] == vars[j]);
            } else {
                assert(post[i] == vars[i]);
                assert(!frame_has(vars, hash));
            }
        }
    }
}

/// An aggregate value held in an occupied register is a collection
/// root: the block it references is reachable, so by the collector's
/// contract it survives a collection unchanged.  Once no root reaches a
/// block, it is unreachable and the next collection frees it.
pub proof fn lemma_occupied_register_is_root(vm: Vm, r: int, j: int)
    requires
        vm.wf(),
        0 <= r < vm.registers@.len(),
        vm.registers@[r] matches Some(v) && value_handle(v) == Some(j),
    ensures
        reachable(vm, j),
{
    assert(is_root(vm, j));
    lemma_root_reachable(vm, j);
}

/// A block that no root references and no heap block holds a value for
/// is unreachable: every path to it would have to end in a root (length
/// one) or in a value held by some block.  By the collector's contract,
/// the next collection therefore frees it.
pub proof fn lemma_unreferenced_block_unreachable(vm: Vm, j: int)
    requires
        !is_root(vm, j),
        forall|i: int| !heap_edge(vm.heap@, i, j),
    ensures
        !reachable(vm, j),
{
    if reachable(vm, j) {
        let p = choose|p: Seq<int>| path_ok(vm, p) && p.last() == j;
        if p.len() == 1 {
            assert(is_root(vm, p[0]));
        } else {
            assert(heap_edge(vm.heap@, p[p.len() - 2], p[p.len() - 1]));
        }
    }
}

} // verus!
