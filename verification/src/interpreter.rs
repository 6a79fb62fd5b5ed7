use vstd::prelude::*;

use crate::brackets::{
    balanced, build_jump_table, close_of, is_jump_table, is_match, lemma_jump_table_agrees,
    lemma_match_unique_close, open_of,
};
use crate::lang::{
    CMD_CLOSE, CMD_DEC, CMD_INC, CMD_LEFT, CMD_OPEN, CMD_READ, CMD_RIGHT, CMD_WRITE, TERMINATOR,
};
use crate::Error;
use std::collections::VecDeque;

verus! {

/// Number of memory cells an interpreter run owns.
pub const MEM_SIZE: usize = 30000;

/// One machine configuration of the reference interpreter: program counter,
/// data pointer, memory, remaining input queue and output so far.
pub ghost struct State {
    pub pc: nat,
    pub dp: nat,
    pub mem: Seq<i64>,
    pub input: Seq<u32>,
    pub out: Seq<u8>,
}

/// The configuration a run starts from: everything at zero, memory cleared,
/// the caller's input queue untouched.
pub open spec fn init_state(input: Seq<u32>) -> State {
    State { pc: 0, dp: 0, mem: Seq::new(MEM_SIZE as nat, |i: int| 0i64), input, out: Seq::empty() }
}

/// Increment with the wrapping semantics of the cell width.
pub open spec fn wrap_inc(v: i64) -> i64 {
    if v == i64::MAX {
        i64::MIN
    } else {
        (v + 1) as i64
    }
}

/// Decrement with the wrapping semantics of the cell width.
pub open spec fn wrap_dec(v: i64) -> i64 {
    if v == i64::MIN {
        i64::MAX
    } else {
        (v - 1) as i64
    }
}

/// One execution step of the command at `s.pc` in the zero-free command
/// sequence `p`. `None` is a data-pointer move outside memory. Loop commands
/// transfer control through the unique matching bracket; any code that is not
/// a command is counted and skipped.
pub open spec fn step(p: Seq<u32>, s: State) -> Option<State> {
    let c = p[s.pc as int];
    if c == CMD_RIGHT {
        if s.dp + 1 < s.mem.len() {
            Some(State { pc: s.pc + 1, dp: s.dp + 1, ..s })
        } else {
            None
        }
    } else if c == CMD_LEFT {
        if s.dp >= 1 {
            Some(State { pc: s.pc + 1, dp: (s.dp - 1) as nat, ..s })
        } else {
            None
        }
    } else if c == CMD_INC {
        Some(State { pc: s.pc + 1, mem: s.mem.update(s.dp as int, wrap_inc(s.mem[s.dp as int])), ..s })
    } else if c == CMD_DEC {
        Some(State { pc: s.pc + 1, mem: s.mem.update(s.dp as int, wrap_dec(s.mem[s.dp as int])), ..s })
    } else if c == CMD_READ {
        if s.input.len() > 0 {
            Some(State {
                pc: s.pc + 1,
                mem: s.mem.update(s.dp as int, s.input[0] as i64),
                input: s.input.drop_first(),
                ..s
            })
        } else {
            Some(State { pc: s.pc + 1, mem: s.mem.update(s.dp as int, -1i64), ..s })
        }
    } else if c == CMD_WRITE {
        Some(State { pc: s.pc + 1, out: s.out.push(s.mem[s.dp as int] as u8), ..s })
    } else if c == CMD_OPEN {
        if s.mem[s.dp as int] == 0 {
            Some(State { pc: (close_of(p, s.pc as int) + 1) as nat, ..s })
        } else {
            Some(State { pc: s.pc + 1, ..s })
        }
    } else if c == CMD_CLOSE {
        Some(State { pc: open_of(p, s.pc as int) as nat, ..s })
    } else {
        Some(State { pc: s.pc + 1, ..s })
    }
}

/// The configuration after `n` steps from the initial one, or `None` if the
/// run crashed or already halted within fewer than `n` steps.
pub open spec fn exec_n(p: Seq<u32>, input: Seq<u32>, n: nat) -> Option<State>
    decreases n,
{
    if n == 0 {
        Some(init_state(input))
    } else {
        match exec_n(p, input, (n - 1) as nat) {
            None => None,
            Some(t) => if t.pc < p.len() {
                step(p, t)
            } else {
                None
            },
        }
    }
}

/// The run over `p` with the given input halts after exactly `n` executed
/// instructions with output `out`.
pub open spec fn halts_with(p: Seq<u32>, input: Seq<u32>, n: nat, out: Seq<u8>) -> bool {
    match exec_n(p, input, n) {
        Some(t) => t.pc == p.len() && t.out == out,
        None => false,
    }
}

/// After `n` executed instructions the run over `p` moves the data pointer
/// outside memory.
pub open spec fn crashes_at(p: Seq<u32>, input: Seq<u32>, n: nat) -> bool {
    match exec_n(p, input, n) {
        Some(t) => t.pc < p.len() && step(p, t) is None,
        None => false,
    }
}

/// After `n` executed instructions the run over `p` has neither halted nor
/// crashed.
pub open spec fn live_after(p: Seq<u32>, input: Seq<u32>, n: nat) -> bool {
    match exec_n(p, input, n) {
        Some(t) => t.pc < p.len(),
        None => false,
    }
}

/// The interpreter may report `count` and `out` for `p` on `input`: the run
/// halts after exactly `count` executed instructions with output `out`.
pub open spec fn run_halts(p: Seq<u32>, input: Seq<u32>, count: u64, out: Seq<u8>) -> bool {
    exists|n: nat| n <= u64::MAX && #[trigger] halts_with(p, input, n, out) && count == n as u64
}

/// The run over `p` on `input` moves the data pointer outside memory before
/// the instruction counter is exhausted.
pub open spec fn run_crashes(p: Seq<u32>, input: Seq<u32>) -> bool {
    exists|n: nat| n < u64::MAX && #[trigger] crashes_at(p, input, n)
}

/// Index of the first occurrence of `v` in `s` (the length if absent).
pub open spec fn first_occ(s: Seq<u32>, v: u32) -> int
    decreases s.len(),
{
    if s.len() == 0 {
        0
    } else if s[0] == v {
        0
    } else {
        1 + first_occ(s.drop_first(), v)
    }
}

/// `first_occ` is pinned by its characteristic property: everything before
/// `m` differs from `v`, and position `m` (if inside) holds `v`.
pub proof fn lemma_first_occ(s: Seq<u32>, v: u32, m: int)
    requires
        0 <= m <= s.len(),
        forall|k: int| 0 <= k < m ==> s[k] != v,
        m < s.len() ==> s[m] == v,
    ensures
        first_occ(s, v) == m,
    decreases s.len(),
{
    if s.len() == 0 {
    } else if m == 0 {
    } else {
        assert(s[0] != v);
        assert forall|k: int| 0 <= k < m - 1 implies s.drop_first()[k] != v by {
            assert(s.drop_first()[k] == s[k + 1]);
        }
        assert(m - 1 < s.drop_first().len() ==> s.drop_first()[m - 1] == s[m]);
        lemma_first_occ(s.drop_first(), v, m - 1);
    }
}

/// A loaded program's command region is exactly what the loader kept: its
/// first terminator is the one the loader appended, so `run` interprets
/// precisely the filtered command sequence of the source text.
pub proof fn lemma_loaded_commands(src: Seq<u8>)
    ensures
        first_occ(crate::lang::spec_load(src).push(TERMINATOR), TERMINATOR)
            == crate::lang::spec_load(src).len(),
        (crate::lang::spec_load(src).push(TERMINATOR).take(
            crate::lang::spec_load(src).len() as int,
        ) == crate::lang::spec_load(src)),
{
    let cmds = crate::lang::spec_load(src);
    let p = cmds.push(TERMINATOR);
    crate::lang::lemma_spec_load_commands(src);
    assert forall|k: int| 0 <= k < cmds.len() implies p[k] != TERMINATOR by {
        assert(crate::lang::is_command(cmds[k]));
    }
    lemma_first_occ(p, TERMINATOR, cmds.len() as int);
    assert(p.take(cmds.len() as int) =~= cmds);
}

/// Entering a loop whose addressed cell is zero executes nothing of the loop
/// body: the one step lands just past the matching loop-close, and memory,
/// data pointer, input and output are all left unchanged.
pub proof fn lemma_loop_skip(p: Seq<u32>, s: State, j: int)
    requires
        s.pc < p.len(),
        p[s.pc as int] == CMD_OPEN,
        0 <= s.dp < s.mem.len(),
        s.mem[s.dp as int] == 0,
        is_match(p, s.pc as int, j),
    ensures
        (step(p, s) == Some(State { pc: (j + 1) as nat, ..s })),
{
    lemma_match_unique_close(p, s.pc as int, close_of(p, s.pc as int), j);
}

/// Executes a terminated program directly: consumes the input queue
/// first-in-first-out and returns the instruction count together with the
/// output trace, as pinned by the step semantics above. Fails with
/// `UnmatchedBracket` exactly when the command sequence before the terminator
/// is unbalanced, with `MemoryBoundsError` when the data pointer would leave
/// memory, and with `StepLimitExceeded` when the program is still running
/// after as many instructions as the counter can hold.
pub fn run(program: Vec<u32>, inputs: VecDeque<u32>) -> (r: Result<(u64, Vec<u8>), Error>)
    requires
        program@.contains(TERMINATOR),
    ensures
        ({
            let cmds = program@.take(first_occ(program@, TERMINATOR));
            match r {
                Ok(res) => balanced(cmds) && run_halts(cmds, inputs@, res.0, res.1@),
                Err(e) => {
                    ||| (e == Error::UnmatchedBracket && !balanced(cmds))
                    ||| (e == Error::MemoryBoundsError && balanced(cmds) && run_crashes(
                        cmds,
                        inputs@,
                    ))
                    ||| (e == Error::StepLimitExceeded && balanced(cmds) && live_after(
                        cmds,
                        inputs@,
                        u64::MAX as nat,
                    ))
                },
            }
        }),
{
    let total: usize = program.len();
    let mut n: usize = 0;
    while n < total && program[n] != TERMINATOR
        invariant
            n <= total,
            total == program@.len(),
            program@.contains(TERMINATOR),
            forall|k: int| 0 <= k < n ==> program@[k] != TERMINATOR,
        decreases total - n,
    {
        n = n + 1;
    }
    proof {
        if n == total {
            let w = choose|w: int| 0 <= w < program@.len() && program@[w] == TERMINATOR;
            assert(false);
        }
        lemma_first_occ(program@, TERMINATOR, n as int);
    }
    let ghost cmds = program@.take(n as int);
    let jt: Vec<usize> = match build_jump_table(program.as_slice(), n) {
        Ok(jt) => jt,
        Err(e) => {
            return Err(e);
        },
    };
    let mut mem: Vec<i64> = vec![0i64; MEM_SIZE];
    let mut dp: usize = 0;
    let mut pc: usize = 0;
    let mut in_pos: usize = 0;
    let mut output: Vec<u8> = Vec::new();
    let mut count: u64 = 0;
    let ghost mut steps: nat = 0;
    proof {
        assert(mem@ =~= init_state(inputs@).mem);
        assert(inputs@.skip(0) =~= inputs@);
    }
    while pc < n
        invariant
            pc <= n,
            n <= program@.len(),
            first_occ(program@, TERMINATOR) == n as int,
            cmds == program@.take(n as int),
            cmds.len() == n,
            balanced(cmds),
            is_jump_table(cmds, jt@),
            jt@.len() == n,
            mem@.len() == MEM_SIZE,
            dp < MEM_SIZE,
            in_pos <= inputs@.len(),
            (exec_n(cmds, inputs@, steps) == Some(
                State {
                    pc: pc as nat,
                    dp: dp as nat,
                    mem: mem@,
                    input: inputs@.skip(in_pos as int),
                    out: output@,
                },
            )),
            count == steps,
        decreases u64::MAX - count,
    {
        let ghost prev = State {
            pc: pc as nat,
            dp: dp as nat,
            mem: mem@,
            input: inputs@.skip(in_pos as int),
            out: output@,
        };
        if count == u64::MAX {
            proof {
                assert(live_after(cmds, inputs@, u64::MAX as nat));
            }
            return Err(Error::StepLimitExceeded);
        }
        let c: u32 = program[pc];
        proof {
            assert(cmds[pc as int] == c);
        }
        if c == CMD_RIGHT {
            if dp + 1 >= MEM_SIZE {
                proof {
                    assert(step(cmds, prev) is None);
                    assert(crashes_at(cmds, inputs@, steps));
                    assert(run_crashes(cmds, inputs@));
                }
                return Err(Error::MemoryBoundsError);
            }
            dp = dp + 1;
            pc = pc + 1;
        } else if c == CMD_LEFT {
            if dp == 0 {
                proof {
                    assert(step(cmds, prev) is None);
                    assert(crashes_at(cmds, inputs@, steps));
                    assert(run_crashes(cmds, inputs@));
                }
                return Err(Error::MemoryBoundsError);
            }
            dp = dp - 1;
            pc = pc + 1;
        } else if c == CMD_INC {
            let v = mem[dp];
            mem[dp] = if v == i64::MAX { i64::MIN } else { v + 1 };
            pc = pc + 1;
        } else if c == CMD_DEC {
            let v = mem[dp];
            mem[dp] = if v == i64::MIN { i64::MAX } else { v - 1 };
            pc = pc + 1;
        } else if c == CMD_READ {
            if in_pos < inputs.len() {
                let x = inputs[in_pos];
                mem[dp] = x as i64;
                proof {
                    assert(prev.input[0] == inputs@[in_pos as int]);
                    assert(prev.input.drop_first() =~= inputs@.skip(in_pos + 1));
                }
                in_pos = in_pos + 1;
            } else {
                mem[dp] = -1i64;
                proof {
                    assert(prev.input.len() == 0);
                }
            }
            pc = pc + 1;
        } else if c == CMD_WRITE {
            let v = mem[dp];
            output.push(#[verifier::truncate] (v as u8));
            pc = pc + 1;
        } else if c == CMD_OPEN {
            proof {
                lemma_jump_table_agrees(cmds, jt@, pc as int);
            }
            if mem[dp] == 0 {
                let t = jt[pc];
                pc = t + 1;
            } else {
                pc = pc + 1;
            }
        } else if c == CMD_CLOSE {
            proof {
                lemma_jump_table_agrees(cmds, jt@, pc as int);
            }
            pc = jt[pc];
        } else {
            pc = pc + 1;
        }
        count = count + 1;
        proof {
            let cur = State {
                pc: pc as nat,
                dp: dp as nat,
                mem: mem@,
                input: inputs@.skip(in_pos as int),
                out: output@,
            };
            assert(step(cmds, prev) == Some(cur));
            steps = steps + 1;
            assert(exec_n(cmds, inputs@, steps) == Some(cur));
        }
    }
    proof {
        assert(halts_with(cmds, inputs@, steps, output@));
        assert(steps <= u64::MAX);
        assert(run_halts(cmds, inputs@, count, output@));
    }
    Ok((count, output))
}

} // verus!
