use vstd::prelude::*;

use crate::brackets::{balanced, open_of};
use crate::compiler::{chunk, count_opens, emitted, label_false, label_true, spec_compile};
use crate::interpreter::{exec_n, halts_with, init_state, step, wrap_dec, wrap_inc, State, MEM_SIZE};
use crate::lang::{
    CMD_CLOSE, CMD_DEC, CMD_INC, CMD_LEFT, CMD_OPEN, CMD_READ, CMD_RIGHT, CMD_WRITE,
};

verus! {

/// The instruction vocabulary of the external load/store, branch/jump
/// virtual machine the compiler targets: pointer and cell arithmetic, a
/// data register moved between memory and the two side channels, labels,
/// a labeled branch-if-zero, an unconditional jump and a terminating
/// return. Each loop draws a numbered label pair; `Label(k, true)` is the
/// loop-entry label and `Label(k, false)` the loop-exit label.
pub ghost enum AsmOp {
    IncDp,
    DecDp,
    IncCell,
    DecCell,
    ReadIn,
    Store,
    IncInPtr,
    Load,
    Output,
    Label(nat, bool),
    Branch(nat),
    Jump(nat),
    Return,
}

/// One machine configuration of the virtual machine: program counter, data
/// pointer, the data register, the input cursor, memory and output so far.
pub ghost struct VmState {
    pub pc: nat,
    pub dp: nat,
    pub data: i64,
    pub in_ptr: nat,
    pub mem: Seq<i64>,
    pub out: Seq<u8>,
}

/// The configuration a virtual-machine run starts from.
pub open spec fn vm_init() -> VmState {
    VmState {
        pc: 0,
        dp: 0,
        data: 0,
        in_ptr: 0,
        mem: Seq::new(MEM_SIZE as nat, |i: int| 0i64),
        out: Seq::empty(),
    }
}

/// The position of the unique label with number `k` and side `tr` in the
/// code.
pub open spec fn label_pos(code: Seq<AsmOp>, k: nat, tr: bool) -> int {
    choose|q: int| 0 <= q < code.len() && code[q] == AsmOp::Label(k, tr)
}

/// One execution step of the virtual machine on the instruction at `s.pc`.
/// `None` is a data-pointer move outside memory. A branch whose register is
/// zero lands on the loop-exit label; a jump lands on the loop-entry label;
/// reading past the end of the input yields the end-of-stream sentinel.
pub open spec fn vm_step(code: Seq<AsmOp>, input: Seq<u32>, s: VmState) -> Option<VmState> {
    match code[s.pc as int] {
        AsmOp::IncDp => if s.dp + 1 < s.mem.len() {
            Some(VmState { pc: s.pc + 1, dp: s.dp + 1, ..s })
        } else {
            None
        },
        AsmOp::DecDp => if s.dp >= 1 {
            Some(VmState { pc: s.pc + 1, dp: (s.dp - 1) as nat, ..s })
        } else {
            None
        },
        AsmOp::IncCell => Some(
            VmState { pc: s.pc + 1, mem: s.mem.update(s.dp as int, wrap_inc(s.mem[s.dp as int])), ..s },
        ),
        AsmOp::DecCell => Some(
            VmState { pc: s.pc + 1, mem: s.mem.update(s.dp as int, wrap_dec(s.mem[s.dp as int])), ..s },
        ),
        AsmOp::ReadIn => Some(
            VmState {
                pc: s.pc + 1,
                data: if s.in_ptr < input.len() {
                    input[s.in_ptr as int] as i64
                } else {
                    -1i64
                },
                ..s
            },
        ),
        AsmOp::Store => Some(
            VmState { pc: s.pc + 1, mem: s.mem.update(s.dp as int, s.data), ..s },
        ),
        AsmOp::IncInPtr => Some(VmState { pc: s.pc + 1, in_ptr: s.in_ptr + 1, ..s }),
        AsmOp::Load => Some(VmState { pc: s.pc + 1, data: s.mem[s.dp as int], ..s }),
        AsmOp::Output => Some(VmState { pc: s.pc + 1, out: s.out.push(s.data as u8), ..s }),
        AsmOp::Label(_, _) => Some(VmState { pc: s.pc + 1, ..s }),
        AsmOp::Branch(k) => if s.data == 0 {
            Some(VmState { pc: label_pos(code, k, false) as nat, ..s })
        } else {
            Some(VmState { pc: s.pc + 1, ..s })
        },
        AsmOp::Jump(k) => Some(VmState { pc: label_pos(code, k, true) as nat, ..s }),
        AsmOp::Return => None,
    }
}

/// The configuration `k` steps after `s`, or `None` if the run crashed or
/// reached the return instruction within fewer than `k` steps.
pub open spec fn vm_steps(code: Seq<AsmOp>, input: Seq<u32>, s: VmState, k: nat) -> Option<VmState>
    decreases k,
{
    if k == 0 {
        Some(s)
    } else {
        match vm_steps(code, input, s, (k - 1) as nat) {
            None => None,
            Some(t) => if t.pc < code.len() && !(code[t.pc as int] is Return) {
                vm_step(code, input, t)
            } else {
                None
            },
        }
    }
}

/// The virtual machine halts after `m` steps at the return instruction with
/// output `out`.
pub open spec fn vm_halts_with(code: Seq<AsmOp>, input: Seq<u32>, m: nat, out: Seq<u8>) -> bool {
    match vm_steps(code, input, vm_init(), m) {
        Some(v) => v.pc < code.len() && code[v.pc as int] is Return && v.out == out,
        None => false,
    }
}

/// The virtual-machine instructions emitted for position `i` of `p`; the
/// op-level counterpart of the compiler's text chunk for that position.
pub open spec fn ops_chunk(p: Seq<u32>, i: int) -> Seq<AsmOp> {
    let c = p[i];
    if c == CMD_RIGHT {
        seq![AsmOp::IncDp]
    } else if c == CMD_LEFT {
        seq![AsmOp::DecDp]
    } else if c == CMD_INC {
        seq![AsmOp::IncCell]
    } else if c == CMD_DEC {
        seq![AsmOp::DecCell]
    } else if c == CMD_READ {
        seq![AsmOp::ReadIn, AsmOp::Store, AsmOp::IncInPtr]
    } else if c == CMD_WRITE {
        seq![AsmOp::Load, AsmOp::Output]
    } else if c == CMD_OPEN {
        let k = count_opens(p.take(i));
        seq![AsmOp::Label(k, true), AsmOp::Load, AsmOp::Branch(k)]
    } else if c == CMD_CLOSE {
        let k = count_opens(p.take(open_of(p, i)));
        seq![AsmOp::Jump(k), AsmOp::Label(k, false)]
    } else {
        Seq::empty()
    }
}

/// The instructions emitted for the first `n` positions of `p`, in order.
pub open spec fn ops_emitted(p: Seq<u32>, n: int) -> Seq<AsmOp>
    decreases n,
{
    if n <= 0 {
        Seq::empty()
    } else {
        ops_emitted(p, n - 1) + ops_chunk(p, n - 1)
    }
}

/// The whole virtual-machine program for `p`: the per-position instructions
/// followed by the final return.
pub open spec fn compile_ops(p: Seq<u32>) -> Seq<AsmOp> {
    ops_emitted(p, p.len() as int).push(AsmOp::Return)
}

/// The code offset where the instructions for position `i` of `p` start.
pub open spec fn off(p: Seq<u32>, i: int) -> int {
    ops_emitted(p, i).len() as int
}

/// The code position corresponding to interpreter position `i`: the start
/// of its instructions, past the loop-entry label if `i` is a loop-open
/// (labels are transparent, so control entering a loop from either side
/// rests just after the label).
pub open spec fn norm(p: Seq<u32>, i: int) -> int {
    off(p, i) + if 0 <= i < p.len() && p[i] == CMD_OPEN {
        1int
    } else {
        0int
    }
}

/// `k` clipped to the input length.
pub open spec fn clip(k: nat, len: nat) -> nat {
    if k <= len {
        k
    } else {
        len
    }
}

/// The simulation relation between an interpreter configuration and a
/// virtual-machine configuration: same memory, data pointer and output, the
/// interpreter's remaining input is what the input cursor has not consumed,
/// and the machine's control rests at the code position for the
/// interpreter's program counter. The data register is scratch: every use
/// in the emitted code is preceded by a definition in the same block.
pub open spec fn rel(p: Seq<u32>, input: Seq<u32>, t: State, v: VmState) -> bool {
    &&& rel_data(input, t, v)
    &&& v.pc == norm(p, t.pc as int)
}

/// The data half of the simulation relation: everything but the program
/// counter.
pub open spec fn rel_data(input: Seq<u32>, t: State, v: VmState) -> bool {
    &&& v.dp == t.dp
    &&& v.mem == t.mem
    &&& v.out == t.out
    &&& t.input == input.skip(clip(v.in_ptr, input.len()) as int)
}

/// Virtual-machine runs compose: stepping `a + b` times is stepping `b`
/// times from wherever `a` steps arrived.
pub proof fn lemma_vm_steps_add(code: Seq<AsmOp>, input: Seq<u32>, s: VmState, a: nat, b: nat)
    ensures
        (match vm_steps(code, input, s, a) {
            Some(t) => vm_steps(code, input, s, (a + b) as nat) == vm_steps(code, input, t, b),
            None => true,
        }),
    decreases b,
{
    if b > 0 {
        lemma_vm_steps_add(code, input, s, a, (b - 1) as nat);
    }
}

/// Emitting one more position appends its instructions.
pub proof fn lemma_off_step(p: Seq<u32>, i: int)
    requires
        0 <= i,
    ensures
        off(p, i + 1) == off(p, i) + ops_chunk(p, i).len(),
{
}

/// The emitted code holds each position's instructions at that position's
/// offset.
pub proof fn lemma_emitted_index(p: Seq<u32>, n: int, i: int, j: int)
    requires
        0 <= i < n <= p.len(),
        0 <= j < ops_chunk(p, i).len(),
    ensures
        off(p, i) + ops_chunk(p, i).len() <= off(p, n),
        0 <= off(p, i) + j < off(p, n),
        ops_emitted(p, n)[off(p, i) + j] == ops_chunk(p, i)[j],
    decreases n,
{
    if i == n - 1 {
    } else {
        lemma_emitted_index(p, n - 1, i, j);
    }
}

/// Every emitted instruction comes from exactly one program position.
pub proof fn lemma_emitted_decompose(p: Seq<u32>, n: int, q: int) -> (r: (int, int))
    requires
        0 <= q < off(p, n),
        n <= p.len(),
    ensures
        ({
            let (i, j) = r;
            &&& 0 <= i < n
            &&& 0 <= j < ops_chunk(p, i).len()
            &&& q == off(p, i) + j
            &&& ops_emitted(p, n)[q] == ops_chunk(p, i)[j]
        }),
    decreases n,
{
    if n <= 0 {
        (0, 0)
    } else if q < off(p, n - 1) {
        lemma_emitted_decompose(p, n - 1, q)
    } else {
        (n - 1, q - off(p, n - 1))
    }
}

/// Crossing one position changes the loop-open count by whether it is a
/// loop-open.
pub proof fn lemma_count_opens_step(p: Seq<u32>, i: int)
    requires
        0 <= i < p.len(),
    ensures
        count_opens(p.take(i + 1)) == count_opens(p.take(i)) + if p[i] == CMD_OPEN {
            1int
        } else {
            0int
        },
{
    assert(p.take(i + 1).drop_last() =~= p.take(i));
    assert(p.take(i + 1).last() == p[i]);
}

/// The loop-open count never decreases along the program.
pub proof fn lemma_count_opens_mono(p: Seq<u32>, a: int, b: int)
    requires
        0 <= a <= b <= p.len(),
    ensures
        count_opens(p.take(a)) <= count_opens(p.take(b)),
    decreases b - a,
{
    if a < b {
        lemma_count_opens_mono(p, a, b - 1);
        lemma_count_opens_step(p, b - 1);
    }
}

/// Two loop-opens with the same number of loop-opens before them are the
/// same position: label numbers identify their loop-open.
pub proof fn lemma_open_label_injective(p: Seq<u32>, i1: int, i2: int)
    requires
        0 <= i1 < p.len(),
        0 <= i2 < p.len(),
        p[i1] == CMD_OPEN,
        p[i2] == CMD_OPEN,
        count_opens(p.take(i1)) == count_opens(p.take(i2)),
    ensures
        i1 == i2,
{
    if i1 < i2 {
        lemma_count_opens_step(p, i1);
        lemma_count_opens_mono(p, i1 + 1, i2);
    } else if i2 < i1 {
        lemma_count_opens_step(p, i2);
        lemma_count_opens_mono(p, i2 + 1, i1);
    }
}

/// In the compiled code of a balanced program, the loop-entry label of the
/// loop-open at `i` stands exactly at that position's offset.
pub proof fn lemma_label_pos_true(p: Seq<u32>, i: int)
    requires
        balanced(p),
        0 <= i < p.len(),
        p[i] == CMD_OPEN,
    ensures
        label_pos(compile_ops(p), count_opens(p.take(i)), true) == off(p, i),
{
    let code = compile_ops(p);
    let k = count_opens(p.take(i));
    lemma_emitted_index(p, p.len() as int, i, 0);
    assert(code[off(p, i)] == AsmOp::Label(k, true));
    let q = label_pos(code, k, true);
    assert(0 <= q < code.len() && code[q] == AsmOp::Label(k, true));
    if q != off(p, i) {
        assert(q < off(p, p.len() as int));
        let (i2, j2) = lemma_emitted_decompose(p, p.len() as int, q);
        assert(p[i2] == CMD_OPEN && j2 == 0 && count_opens(p.take(i2)) == k);
        lemma_open_label_injective(p, i, i2);
    }
}

/// In the compiled code of a balanced program, the loop-exit label of the
/// loop whose close is at `jc` stands just after that close's jump.
pub proof fn lemma_label_pos_false(p: Seq<u32>, jc: int)
    requires
        balanced(p),
        0 <= jc < p.len(),
        p[jc] == CMD_CLOSE,
    ensures
        label_pos(compile_ops(p), count_opens(p.take(open_of(p, jc))), false) == off(p, jc) + 1,
{
    let code = compile_ops(p);
    crate::brackets::lemma_close_has_match(p, jc);
    let k = count_opens(p.take(open_of(p, jc)));
    lemma_emitted_index(p, p.len() as int, jc, 1);
    assert(code[off(p, jc) + 1] == AsmOp::Label(k, false));
    let q = label_pos(code, k, false);
    assert(0 <= q < code.len() && code[q] == AsmOp::Label(k, false));
    if q != off(p, jc) + 1 {
        assert(q < off(p, p.len() as int));
        let (i2, j2) = lemma_emitted_decompose(p, p.len() as int, q);
        assert(p[i2] == CMD_CLOSE && j2 == 1 && count_opens(p.take(open_of(p, i2))) == k);
        crate::brackets::lemma_close_has_match(p, i2);
        lemma_open_label_injective(p, open_of(p, jc), open_of(p, i2));
        crate::brackets::lemma_match_unique_close(p, open_of(p, jc), jc, i2);
    }
}

/// Extends a virtual-machine run by one step.
proof fn lemma_vm_one(code: Seq<AsmOp>, input: Seq<u32>, s: VmState, k: nat, v: VmState)
    requires
        vm_steps(code, input, s, k) == Some(v),
        v.pc < code.len(),
        !(code[v.pc as int] is Return),
    ensures
        vm_steps(code, input, s, (k + 1) as nat) == vm_step(code, input, v),
{
    assert(vm_steps(code, input, s, (((k + 1) as nat) - 1) as nat) == Some(v));
}

/// From the plain offset of a position, at most one transparent label
/// separates the machine from that position's normalized control point.
proof fn lemma_land(p: Seq<u32>, input: Seq<u32>, t2: State, v2: VmState) -> (w: (nat, VmState))
    requires
        balanced(p),
        rel_data(input, t2, v2),
        v2.pc == off(p, t2.pc as int),
        t2.pc <= p.len(),
    ensures
        ({
            let (k, v3) = w;
            vm_steps(compile_ops(p), input, v2, k) == Some(v3) && rel(p, input, t2, v3)
        }),
{
    let code = compile_ops(p);
    let i = t2.pc as int;
    if i < p.len() && p[i] == CMD_OPEN {
        lemma_emitted_index(p, p.len() as int, i, 0);
        assert(code[v2.pc as int] == AsmOp::Label(count_opens(p.take(i)), true));
        let v3 = VmState { pc: v2.pc + 1, ..v2 };
        assert(vm_step(code, input, v2) == Some(v3));
        assert(vm_steps(code, input, v2, 0) == Some(v2));
        assert(vm_steps(code, input, v2, 1) == Some(v3));
        (1, v3)
    } else {
        (0, v2)
    }
}

/// One interpreter step is matched by a short burst of virtual-machine
/// steps that restores the simulation relation.
proof fn lemma_sim_step(p: Seq<u32>, input: Seq<u32>, t: State, v: VmState) -> (w: (nat, VmState))
    requires
        balanced(p),
        rel(p, input, t, v),
        t.pc < p.len(),
        step(p, t) is Some,
    ensures
        (match step(p, t) {
            Some(t2) => vm_steps(compile_ops(p), input, v, w.0) == Some(w.1) && rel(
                p,
                input,
                t2,
                w.1,
            ),
            None => false,
        }),
{
    let code = compile_ops(p);
    let i = t.pc as int;
    let c = p[i];
    let t2 = (match step(p, t) {
        Some(x) => x,
        None => t,
    });
    if c == CMD_RIGHT {
        lemma_emitted_index(p, p.len() as int, i, 0);
        lemma_off_step(p, i);
        assert(code[v.pc as int] == AsmOp::IncDp);
        let v1 = VmState { pc: v.pc + 1, dp: v.dp + 1, ..v };
        assert(vm_steps(code, input, v, 0) == Some(v));
        lemma_vm_one(code, input, v, 0, v);
        assert(vm_steps(code, input, v, 1) == Some(v1));
        assert(v1.pc == off(p, i + 1));
        let (kl, v3) = lemma_land(p, input, t2, v1);
        lemma_vm_steps_add(code, input, v, 1, kl);
        ((1 + kl) as nat, v3)
    } else if c == CMD_LEFT {
        lemma_emitted_index(p, p.len() as int, i, 0);
        lemma_off_step(p, i);
        assert(code[v.pc as int] == AsmOp::DecDp);
        let v1 = VmState { pc: v.pc + 1, dp: (v.dp - 1) as nat, ..v };
        assert(vm_steps(code, input, v, 0) == Some(v));
        lemma_vm_one(code, input, v, 0, v);
        assert(vm_steps(code, input, v, 1) == Some(v1));
        assert(v1.pc == off(p, i + 1));
        let (kl, v3) = lemma_land(p, input, t2, v1);
        lemma_vm_steps_add(code, input, v, 1, kl);
        ((1 + kl) as nat, v3)
    } else if c == CMD_INC {
        lemma_emitted_index(p, p.len() as int, i, 0);
        lemma_off_step(p, i);
        assert(code[v.pc as int] == AsmOp::IncCell);
        let v1 = VmState {
            pc: v.pc + 1,
            mem: v.mem.update(v.dp as int, wrap_inc(v.mem[v.dp as int])),
            ..v
        };
        assert(vm_steps(code, input, v, 0) == Some(v));
        lemma_vm_one(code, input, v, 0, v);
        assert(vm_steps(code, input, v, 1) == Some(v1));
        assert(v1.pc == off(p, i + 1));
        let (kl, v3) = lemma_land(p, input, t2, v1);
        lemma_vm_steps_add(code, input, v, 1, kl);
        ((1 + kl) as nat, v3)
    } else if c == CMD_DEC {
        lemma_emitted_index(p, p.len() as int, i, 0);
        lemma_off_step(p, i);
        assert(code[v.pc as int] == AsmOp::DecCell);
        let v1 = VmState {
            pc: v.pc + 1,
            mem: v.mem.update(v.dp as int, wrap_dec(v.mem[v.dp as int])),
            ..v
        };
        assert(vm_steps(code, input, v, 0) == Some(v));
        lemma_vm_one(code, input, v, 0, v);
        assert(vm_steps(code, input, v, 1) == Some(v1));
        assert(v1.pc == off(p, i + 1));
        let (kl, v3) = lemma_land(p, input, t2, v1);
        lemma_vm_steps_add(code, input, v, 1, kl);
        ((1 + kl) as nat, v3)
    } else if c == CMD_READ {
        lemma_emitted_index(p, p.len() as int, i, 0);
        lemma_emitted_index(p, p.len() as int, i, 1);
        lemma_emitted_index(p, p.len() as int, i, 2);
        lemma_off_step(p, i);
        assert(code[v.pc as int] == AsmOp::ReadIn);
        assert(code[v.pc as int + 1] == AsmOp::Store);
        assert(code[v.pc as int + 2] == AsmOp::IncInPtr);
        let dval = if v.in_ptr < input.len() {
            input[v.in_ptr as int] as i64
        } else {
            -1i64
        };
        let v1 = VmState { pc: v.pc + 1, data: dval, ..v };
        let v2 = VmState { pc: v.pc + 2, data: dval, mem: v.mem.update(v.dp as int, dval), ..v };
        let v3 = VmState {
            pc: v.pc + 3,
            data: dval,
            mem: v.mem.update(v.dp as int, dval),
            in_ptr: v.in_ptr + 1,
            ..v
        };
        assert(vm_steps(code, input, v, 0) == Some(v));
        lemma_vm_one(code, input, v, 0, v);
        assert(vm_steps(code, input, v, 1) == Some(v1));
        lemma_vm_one(code, input, v, 1, v1);
        assert(vm_steps(code, input, v, 2) == Some(v2));
        lemma_vm_one(code, input, v, 2, v2);
        assert(vm_steps(code, input, v, 3) == Some(v3));
        assert(v3.pc == off(p, i + 1));
        if t.input.len() > 0 {
            assert(clip(v.in_ptr, input.len()) < input.len());
            assert(v.in_ptr < input.len());
            assert(t.input[0] == input[v.in_ptr as int]);
            assert(t2.input =~= input.skip(clip(v.in_ptr + 1, input.len()) as int));
        } else {
            assert(v.in_ptr >= input.len());
            assert(t2.input =~= input.skip(clip(v.in_ptr + 1, input.len()) as int));
        }
        let (kl, v4) = lemma_land(p, input, t2, v3);
        lemma_vm_steps_add(code, input, v, 3, kl);
        ((3 + kl) as nat, v4)
    } else if c == CMD_WRITE {
        lemma_emitted_index(p, p.len() as int, i, 0);
        lemma_emitted_index(p, p.len() as int, i, 1);
        lemma_off_step(p, i);
        assert(code[v.pc as int] == AsmOp::Load);
        assert(code[v.pc as int + 1] == AsmOp::Output);
        let dval = v.mem[v.dp as int];
        let v1 = VmState { pc: v.pc + 1, data: dval, ..v };
        let v2 = VmState { pc: v.pc + 2, data: dval, out: v.out.push(dval as u8), ..v };
        assert(vm_steps(code, input, v, 0) == Some(v));
        lemma_vm_one(code, input, v, 0, v);
        assert(vm_steps(code, input, v, 1) == Some(v1));
        lemma_vm_one(code, input, v, 1, v1);
        assert(vm_steps(code, input, v, 2) == Some(v2));
        assert(v2.pc == off(p, i + 1));
        let (kl, v3) = lemma_land(p, input, t2, v2);
        lemma_vm_steps_add(code, input, v, 2, kl);
        ((2 + kl) as nat, v3)
    } else if c == CMD_OPEN {
        let k = count_opens(p.take(i));
        lemma_emitted_index(p, p.len() as int, i, 1);
        lemma_emitted_index(p, p.len() as int, i, 2);
        lemma_off_step(p, i);
        assert(v.pc == off(p, i) + 1);
        assert(code[v.pc as int] == AsmOp::Load);
        assert(code[v.pc as int + 1] == AsmOp::Branch(k));
        let dval = v.mem[v.dp as int];
        let v1 = VmState { pc: v.pc + 1, data: dval, ..v };
        assert(vm_steps(code, input, v, 0) == Some(v));
        lemma_vm_one(code, input, v, 0, v);
        assert(vm_steps(code, input, v, 1) == Some(v1));
        lemma_vm_one(code, input, v, 1, v1);
        if t.mem[t.dp as int] != 0 {
            let v2 = VmState { pc: v.pc + 2, data: dval, ..v };
            assert(vm_step(code, input, v1) == Some(v2));
            assert(vm_steps(code, input, v, 2) == Some(v2));
            assert(v2.pc == off(p, i + 1));
            assert(t2.pc == i + 1);
            let (kl, v3) = lemma_land(p, input, t2, v2);
            lemma_vm_steps_add(code, input, v, 2, kl);
            ((2 + kl) as nat, v3)
        } else {
            crate::brackets::lemma_open_has_match(p, i);
            let jc = crate::brackets::close_of(p, i);
            crate::brackets::lemma_close_has_match(p, jc);
            crate::brackets::lemma_match_unique_open(p, open_of(p, jc), i, jc);
            assert(open_of(p, jc) == i);
            lemma_label_pos_false(p, jc);
            assert(label_pos(code, k, false) == off(p, jc) + 1);
            let v2 = VmState { pc: (off(p, jc) + 1) as nat, data: dval, ..v };
            assert(vm_step(code, input, v1) == Some(v2));
            assert(vm_steps(code, input, v, 2) == Some(v2));
            lemma_emitted_index(p, p.len() as int, jc, 1);
            assert(code[v2.pc as int] == AsmOp::Label(k, false));
            lemma_vm_one(code, input, v, 2, v2);
            let v3 = VmState { pc: (off(p, jc) + 2) as nat, data: dval, ..v };
            assert(vm_step(code, input, v2) == Some(v3));
            assert(vm_steps(code, input, v, 3) == Some(v3));
            lemma_off_step(p, jc);
            assert(v3.pc == off(p, jc + 1));
            assert(t2.pc == jc + 1);
            let (kl, v4) = lemma_land(p, input, t2, v3);
            lemma_vm_steps_add(code, input, v, 3, kl);
            ((3 + kl) as nat, v4)
        }
    } else if c == CMD_CLOSE {
        crate::brackets::lemma_close_has_match(p, i);
        let io = open_of(p, i);
        let k = count_opens(p.take(io));
        lemma_emitted_index(p, p.len() as int, i, 0);
        assert(code[v.pc as int] == AsmOp::Jump(k));
        lemma_label_pos_true(p, io);
        assert(label_pos(code, k, true) == off(p, io));
        let v1 = VmState { pc: off(p, io) as nat, ..v };
        assert(vm_steps(code, input, v, 0) == Some(v));
        lemma_vm_one(code, input, v, 0, v);
        assert(vm_steps(code, input, v, 1) == Some(v1));
        lemma_emitted_index(p, p.len() as int, io, 0);
        assert(code[v1.pc as int] == AsmOp::Label(k, true));
        lemma_vm_one(code, input, v, 1, v1);
        let v2 = VmState { pc: (off(p, io) + 1) as nat, ..v };
        assert(vm_step(code, input, v1) == Some(v2));
        assert(vm_steps(code, input, v, 2) == Some(v2));
        assert(t2.pc == io);
        assert(v2.pc == norm(p, io));
        (2, v2)
    } else {
        lemma_off_step(p, i);
        assert(ops_chunk(p, i).len() == 0);
        assert(v.pc == off(p, i + 1));
        assert(t2.pc == i + 1);
        let (kl, v3) = lemma_land(p, input, t2, v);
        (kl, v3)
    }
}

/// A data-pointer move that crashes the interpreter crashes the virtual
/// machine from the matching configuration too.
proof fn lemma_sim_crash(p: Seq<u32>, input: Seq<u32>, t: State, v: VmState) -> (k: nat)
    requires
        balanced(p),
        rel(p, input, t, v),
        t.pc < p.len(),
        step(p, t) is None,
    ensures
        vm_steps(compile_ops(p), input, v, k) is None,
{
    let code = compile_ops(p);
    let i = t.pc as int;
    let c = p[i];
    lemma_emitted_index(p, p.len() as int, i, 0);
    if c == CMD_RIGHT {
        assert(code[v.pc as int] == AsmOp::IncDp);
        assert(vm_step(code, input, v) is None);
        assert(vm_steps(code, input, v, 0) == Some(v));
        assert(vm_steps(code, input, v, 1) is None);
        1
    } else {
        assert(c == CMD_LEFT);
        assert(code[v.pc as int] == AsmOp::DecDp);
        assert(vm_step(code, input, v) is None);
        assert(vm_steps(code, input, v, 0) == Some(v));
        assert(vm_steps(code, input, v, 1) is None);
        1
    }
}

/// Every configuration the interpreter reaches is matched by one the
/// virtual machine reaches.
proof fn lemma_sim_run(p: Seq<u32>, input: Seq<u32>, n: nat) -> (w: (nat, VmState))
    requires
        balanced(p),
        exec_n(p, input, n) is Some,
    ensures
        (match exec_n(p, input, n) {
            Some(t) => vm_steps(compile_ops(p), input, vm_init(), w.0) == Some(w.1) && rel(
                p,
                input,
                t,
                w.1,
            ),
            None => false,
        }),
    decreases n,
{
    if n == 0 {
        assert(input.skip(0) =~= input);
        lemma_land(p, input, init_state(input), vm_init())
    } else {
        let (m1, v1) = lemma_sim_run(p, input, (n - 1) as nat);
        let tprev = (match exec_n(p, input, (n - 1) as nat) {
            Some(x) => x,
            None => init_state(input),
        });
        let (k2, v2) = lemma_sim_step(p, input, tprev, v1);
        lemma_vm_steps_add(compile_ops(p), input, vm_init(), m1, k2);
        ((m1 + k2) as nat, v2)
    }
}

/// The assembly text for one virtual-machine instruction, as the compiler
/// writes it.
pub open spec fn render_op(op: AsmOp) -> Seq<char> {
    match op {
        AsmOp::IncDp => "inc_dp;\n"@,
        AsmOp::DecDp => "dec_dp;\n"@,
        AsmOp::IncCell => "inc_cell;\n"@,
        AsmOp::DecCell => "dec_cell;\n"@,
        AsmOp::ReadIn => "data <=X= ${ Query::Input(std::convert::int(std::prover::eval(in_ptr))) };\n"@,
        AsmOp::Store => "mstore data;\n"@,
        AsmOp::IncInPtr => "in_ptr <=X= in_ptr + 1;\n"@,
        AsmOp::Load => "data <== mload();\n"@,
        AsmOp::Output => "data <=X= ${ Query::Output(1, std::convert::int(std::prover::eval(data))) };\n"@,
        AsmOp::Label(k, tr) => if tr {
            label_true(k) + ":\n"@
        } else {
            label_false(k) + ":\n"@
        },
        AsmOp::Branch(k) => "branch_if_zero data, "@ + label_false(k) + ";\n"@,
        AsmOp::Jump(k) => "jump "@ + label_true(k) + ";\n"@,
        AsmOp::Return => "return;"@,
    }
}

/// The assembly text for a sequence of instructions.
pub open spec fn render_ops(ops: Seq<AsmOp>) -> Seq<char>
    decreases ops.len(),
{
    if ops.len() == 0 {
        Seq::empty()
    } else {
        render_ops(ops.drop_last()) + render_op(ops.last())
    }
}

/// Rendering distributes over concatenation.
proof fn lemma_render_concat(a: Seq<AsmOp>, b: Seq<AsmOp>)
    ensures
        render_ops(a + b) == render_ops(a) + render_ops(b),
    decreases b.len(),
{
    if b.len() == 0 {
        assert(a + b =~= a);
        assert(render_ops(a) + render_ops(b) =~= render_ops(a));
    } else {
        lemma_render_concat(a, b.drop_last());
        assert((a + b).drop_last() =~= a + b.drop_last());
        assert(render_ops(a) + render_ops(b.drop_last()) + render_op(b.last()) =~= render_ops(a)
            + render_ops(b));
    }
}

/// Rendering a single instruction.
proof fn lemma_render_one(op: AsmOp)
    ensures
        render_ops(seq![op]) == render_op(op),
{
    assert(seq![op].drop_last() =~= Seq::<AsmOp>::empty());
    assert(render_ops(Seq::<AsmOp>::empty()) =~= Seq::<char>::empty());
    assert(render_ops(seq![op]) =~= render_op(op));
}

/// Rendering a pair of instructions.
proof fn lemma_render_two(a: AsmOp, b: AsmOp)
    ensures
        render_ops(seq![a, b]) == render_op(a) + render_op(b),
{
    lemma_render_one(a);
    assert(seq![a, b].drop_last() =~= seq![a]);
    assert(render_ops(seq![a, b]) =~= render_op(a) + render_op(b));
}

/// Rendering a triple of instructions.
proof fn lemma_render_three(a: AsmOp, b: AsmOp, c: AsmOp)
    ensures
        render_ops(seq![a, b, c]) == render_op(a) + render_op(b) + render_op(c),
{
    lemma_render_two(a, b);
    assert(seq![a, b, c].drop_last() =~= seq![a, b]);
    assert(render_ops(seq![a, b, c]) =~= render_op(a) + render_op(b) + render_op(c));
}

/// Each position's text chunk is the rendering of its instruction chunk.
proof fn lemma_chunk_renders(p: Seq<u32>, i: int)
    requires
        0 <= i < p.len(),
    ensures
        chunk(p, i) == render_ops(ops_chunk(p, i)),
{
    let c = p[i];
    if c == CMD_READ {
        lemma_render_three(AsmOp::ReadIn, AsmOp::Store, AsmOp::IncInPtr);
        assert(chunk(p, i) =~= render_ops(ops_chunk(p, i)));
    } else if c == CMD_WRITE {
        lemma_render_two(AsmOp::Load, AsmOp::Output);
        assert(chunk(p, i) =~= render_ops(ops_chunk(p, i)));
    } else if c == CMD_OPEN {
        let k = count_opens(p.take(i));
        lemma_render_three(AsmOp::Label(k, true), AsmOp::Load, AsmOp::Branch(k));
        assert(chunk(p, i) =~= render_ops(ops_chunk(p, i)));
    } else if c == CMD_CLOSE {
        let k = count_opens(p.take(open_of(p, i)));
        lemma_render_two(AsmOp::Jump(k), AsmOp::Label(k, false));
        assert(chunk(p, i) =~= render_ops(ops_chunk(p, i)));
    } else if c == CMD_RIGHT || c == CMD_LEFT || c == CMD_INC || c == CMD_DEC {
        assert(ops_chunk(p, i).drop_last() =~= Seq::<AsmOp>::empty());
        assert(render_ops(Seq::<AsmOp>::empty()) =~= Seq::<char>::empty());
        assert(chunk(p, i) =~= render_ops(ops_chunk(p, i)));
    } else {
        assert(chunk(p, i) =~= render_ops(ops_chunk(p, i)));
    }
}

/// The text emitted for a prefix is the rendering of its instructions.
proof fn lemma_emitted_renders(p: Seq<u32>, n: int)
    requires
        n <= p.len(),
    ensures
        emitted(p, n) == render_ops(ops_emitted(p, n)),
    decreases n,
{
    if n > 0 {
        lemma_emitted_renders(p, n - 1);
        lemma_chunk_renders(p, n - 1);
        lemma_render_concat(ops_emitted(p, n - 1), ops_chunk(p, n - 1));
    }
}

/// The assembly text the compiler's contract pins is exactly the rendering
/// of the virtual-machine instructions whose execution the simulation
/// theorem relates to the interpreter.
pub proof fn lemma_compiled_text_renders_ops(p: Seq<u32>)
    ensures
        spec_compile(p) == render_ops(compile_ops(p)),
{
    lemma_emitted_renders(p, p.len() as int);
    let ops = ops_emitted(p, p.len() as int);
    assert(compile_ops(p).drop_last() =~= ops);
    assert(compile_ops(p).last() == AsmOp::Return);
    assert(render_ops(compile_ops(p)) =~= emitted(p, p.len() as int) + "return;"@);
}

/// Golden equivalence with the compiler's target: for every well-formed
/// program and input queue, when the reference interpreter halts with a
/// given output trace, the compiled instructions, run on the target virtual
/// machine with the same input, halt with byte-identical output.
pub proof fn lemma_compiled_output_matches(p: Seq<u32>, input: Seq<u32>, n: nat, out: Seq<u8>)
    requires
        balanced(p),
        halts_with(p, input, n, out),
    ensures
        exists|m: nat| #[trigger] vm_halts_with(compile_ops(p), input, m, out),
{
    let (m, v) = lemma_sim_run(p, input, n);
    let code = compile_ops(p);
    assert(v.pc == off(p, p.len() as int));
    assert(code[v.pc as int] == AsmOp::Return);
    assert(vm_halts_with(code, input, m, out));
}

/// Conformance on the error path as well: when the interpreter's run moves
/// the data pointer outside memory, the compiled code's virtual-machine run
/// ends early too, so no full output trace can come out of it either.
pub proof fn lemma_compiled_crash_matches(p: Seq<u32>, input: Seq<u32>, n: nat)
    requires
        balanced(p),
        crate::interpreter::crashes_at(p, input, n),
    ensures
        exists|m: nat| vm_steps(compile_ops(p), input, vm_init(), m) is None,
{
    let (m1, v) = lemma_sim_run(p, input, n);
    let t = (match exec_n(p, input, n) {
        Some(x) => x,
        None => init_state(input),
    });
    let k = lemma_sim_crash(p, input, t, v);
    lemma_vm_steps_add(compile_ops(p), input, vm_init(), m1, k);
    assert(vm_steps(compile_ops(p), input, vm_init(), (m1 + k) as nat) is None);
}

/// A run that has ended never resumes.
proof fn lemma_vm_none_stays(code: Seq<AsmOp>, input: Seq<u32>, s: VmState, a: nat, b: nat)
    requires
        vm_steps(code, input, s, a) is None,
        a <= b,
    ensures
        vm_steps(code, input, s, b) is None,
    decreases b - a,
{
    if a < b {
        lemma_vm_none_stays(code, input, s, a, (b - 1) as nat);
    }
}

/// The virtual machine is deterministic: it halts at one point only, so the
/// output it halts with is the output of the run.
pub proof fn lemma_vm_halt_unique(
    code: Seq<AsmOp>,
    input: Seq<u32>,
    m1: nat,
    m2: nat,
    out1: Seq<u8>,
    out2: Seq<u8>,
)
    requires
        vm_halts_with(code, input, m1, out1),
        vm_halts_with(code, input, m2, out2),
    ensures
        m1 == m2,
        out1 == out2,
{
    if m1 < m2 {
        assert(vm_steps(code, input, vm_init(), (m1 + 1) as nat) is None);
        lemma_vm_none_stays(code, input, vm_init(), (m1 + 1) as nat, m2);
    } else if m2 < m1 {
        assert(vm_steps(code, input, vm_init(), (m2 + 1) as nat) is None);
        lemma_vm_none_stays(code, input, vm_init(), (m2 + 1) as nat, m1);
    }
}

/// Golden equivalence, end to end: the text the compiler returns for a
/// well-formed program renders the instruction sequence whose
/// virtual-machine run produces exactly the output the reference
/// interpreter produces on the same input.
pub proof fn lemma_golden_equivalence(
    p: Seq<u32>,
    input: Seq<u32>,
    n: nat,
    out: Seq<u8>,
    text: Seq<char>,
)
    requires
        balanced(p),
        halts_with(p, input, n, out),
        text == spec_compile(p),
    ensures
        text == render_ops(compile_ops(p)),
        exists|m: nat| #[trigger] vm_halts_with(compile_ops(p), input, m, out),
{
    lemma_compiled_text_renders_ops(p);
    lemma_compiled_output_matches(p, input, n, out);
}

} // verus!
