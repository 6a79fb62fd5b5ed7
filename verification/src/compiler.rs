use vstd::prelude::*;

use crate::brackets::{
    balanced, build_jump_table, is_jump_table, is_match, lemma_jump_table_agrees, open_of,
};
use crate::lang::{
    CMD_CLOSE, CMD_DEC, CMD_INC, CMD_LEFT, CMD_OPEN, CMD_READ, CMD_RIGHT, CMD_WRITE,
};
use crate::Error;
use vstd::string::StringExecFns;

verus! {

/// Number of loop-opens in `p`.
pub open spec fn count_opens(p: Seq<u32>) -> nat
    decreases p.len(),
{
    if p.len() == 0 {
        0
    } else if p.last() == CMD_OPEN {
        count_opens(p.drop_last()) + 1
    } else {
        count_opens(p.drop_last())
    }
}

/// There are never more loop-opens than positions.
pub proof fn lemma_count_opens_le_len(p: Seq<u32>)
    ensures
        count_opens(p) <= p.len(),
    decreases p.len(),
{
    if p.len() > 0 {
        lemma_count_opens_le_len(p.drop_last());
    }
}

/// The decimal digit character for `d`.
pub open spec fn digit_char(d: nat) -> char {
    if d == 0 {
        '0'
    } else if d == 1 {
        '1'
    } else if d == 2 {
        '2'
    } else if d == 3 {
        '3'
    } else if d == 4 {
        '4'
    } else if d == 5 {
        '5'
    } else if d == 6 {
        '6'
    } else if d == 7 {
        '7'
    } else if d == 8 {
        '8'
    } else {
        '9'
    }
}

/// The usual decimal rendering of `n`, most significant digit first, no
/// leading zeros (except for zero itself).
pub open spec fn dec_digits(n: nat) -> Seq<char>
    decreases n,
{
    if n < 10 {
        seq![digit_char(n)]
    } else {
        dec_digits(n / 10).push(digit_char(n % 10))
    }
}

/// The label emitted in front of a loop body, for the `k`-th loop-open of the
/// scan.
pub open spec fn label_true(k: nat) -> Seq<char> {
    "loop_true_"@ + dec_digits(k)
}

/// The label emitted just past a loop, for the `k`-th loop-open of the scan.
pub open spec fn label_false(k: nat) -> Seq<char> {
    "loop_false_"@ + dec_digits(k)
}

/// The assembly text emitted for position `i` of `p`. Label numbering is
/// solely a function of the left-to-right order of loop-opens: a loop-open
/// uses the number of loop-opens before it, and a loop-close uses the number
/// of its matching loop-open.
pub open spec fn chunk(p: Seq<u32>, i: int) -> Seq<char> {
    let c = p[i];
    if c == CMD_RIGHT {
        "inc_dp;\n"@
    } else if c == CMD_LEFT {
        "dec_dp;\n"@
    } else if c == CMD_INC {
        "inc_cell;\n"@
    } else if c == CMD_DEC {
        "dec_cell;\n"@
    } else if c == CMD_READ {
        "data <=X= ${ Query::Input(std::convert::int(std::prover::eval(in_ptr))) };\n"@
            + "mstore data;\n"@ + "in_ptr <=X= in_ptr + 1;\n"@
    } else if c == CMD_WRITE {
        "data <== mload();\n"@
            + "data <=X= ${ Query::Output(1, std::convert::int(std::prover::eval(data))) };\n"@
    } else if c == CMD_OPEN {
        let k = count_opens(p.take(i));
        label_true(k) + ":\n"@ + "data <== mload();\n"@ + "branch_if_zero data, "@ + label_false(
            k,
        ) + ";\n"@
    } else if c == CMD_CLOSE {
        let k = count_opens(p.take(open_of(p, i)));
        "jump "@ + label_true(k) + ";\n"@ + label_false(k) + ":\n"@
    } else {
        Seq::empty()
    }
}

/// The assembly emitted for the first `n` positions of `p`, in order.
pub open spec fn emitted(p: Seq<u32>, n: int) -> Seq<char>
    decreases n,
{
    if n <= 0 {
        Seq::empty()
    } else {
        emitted(p, n - 1) + chunk(p, n - 1)
    }
}

/// The whole assembly text for `p`: the per-position chunks followed by the
/// final return instruction.
pub open spec fn spec_compile(p: Seq<u32>) -> Seq<char> {
    emitted(p, p.len() as int) + "return;"@
}

/// Appends the decimal rendering of `n`.
fn push_decimal(s: &mut String, n: u64)
    ensures
        final(s)@ == old(s)@ + dec_digits(n as nat),
    decreases n,
{
    if n >= 10 {
        push_decimal(s, n / 10);
    }
    let d = n % 10;
    if d == 0 {
        s.append("0");
        proof {
            reveal_strlit("0");
        }
    } else if d == 1 {
        s.append("1");
        proof {
            reveal_strlit("1");
        }
    } else if d == 2 {
        s.append("2");
        proof {
            reveal_strlit("2");
        }
    } else if d == 3 {
        s.append("3");
        proof {
            reveal_strlit("3");
        }
    } else if d == 4 {
        s.append("4");
        proof {
            reveal_strlit("4");
        }
    } else if d == 5 {
        s.append("5");
        proof {
            reveal_strlit("5");
        }
    } else if d == 6 {
        s.append("6");
        proof {
            reveal_strlit("6");
        }
    } else if d == 7 {
        s.append("7");
        proof {
            reveal_strlit("7");
        }
    } else if d == 8 {
        s.append("8");
        proof {
            reveal_strlit("8");
        }
    } else {
        s.append("9");
        proof {
            reveal_strlit("9");
        }
    }
    proof {
        if n < 10 {
            assert(old(s)@ + seq![digit_char(n as nat)] =~= final(s)@);
        } else {
            assert(old(s)@ + dec_digits(n as nat) =~= final(s)@);
        }
    }
}

/// Appends the loop-entry label for loop number `k`.
fn push_label_true(s: &mut String, k: u64)
    ensures
        final(s)@ == old(s)@ + label_true(k as nat),
{
    s.append("loop_true_");
    push_decimal(s, k);
    proof {
        assert(old(s)@ + label_true(k as nat) =~= final(s)@);
    }
}

/// Appends the loop-exit label for loop number `k`.
fn push_label_false(s: &mut String, k: u64)
    ensures
        final(s)@ == old(s)@ + label_false(k as nat),
{
    s.append("loop_false_");
    push_decimal(s, k);
    proof {
        assert(old(s)@ + label_false(k as nat) =~= final(s)@);
    }
}

/// Lowers a program in one pass into textual assembly for the external
/// load/store, branch/jump virtual machine. Any code that is not a command is
/// ignored. Fails with `UnmatchedBracket` exactly when the brackets of the
/// command sequence are unbalanced; otherwise the text is pinned to
/// `spec_compile`, so identical programs always yield byte-identical
/// assembly.
pub fn compile_brainfuck(program: &[u32]) -> (r: Result<String, Error>)
    ensures
        ({
            match r {
                Ok(s) => balanced(program@) && s@ == spec_compile(program@),
                Err(e) => e == Error::UnmatchedBracket && !balanced(program@),
            }
        }),
{
    let n: usize = program.len();
    proof {
        assert(program@.take(n as int) =~= program@);
    }
    let jt: Vec<usize> = match build_jump_table(program, n) {
        Ok(jt) => jt,
        Err(e) => {
            return Err(e);
        },
    };
    // Prefix counts of loop-opens, so a loop-close can reuse the label
    // number that its matching loop-open drew.
    let mut cnt: Vec<usize> = Vec::new();
    let mut k: usize = 0;
    let mut i: usize = 0;
    while i < n
        invariant
            i <= n,
            n == program@.len(),
            cnt@.len() == i,
            k as nat == count_opens(program@.take(i as int)),
            forall|m: int| 0 <= m < i ==> #[trigger] cnt@[m] as nat == count_opens(
                program@.take(m),
            ),
        decreases n - i,
    {
        cnt.push(k);
        proof {
            assert(program@.take(i + 1).drop_last() =~= program@.take(i as int));
            assert(program@.take(i + 1).last() == program@[i as int]);
            lemma_count_opens_le_len(program@.take(i as int));
        }
        if program[i] == CMD_OPEN {
            k = k + 1;
        }
        i = i + 1;
    }
    let mut s = String::new();
    let mut i: usize = 0;
    while i < n
        invariant
            i <= n,
            n == program@.len(),
            cnt@.len() == n,
            jt@.len() == n,
            balanced(program@),
            is_jump_table(program@, jt@),
            forall|m: int| 0 <= m < n ==> #[trigger] cnt@[m] as nat == count_opens(
                program@.take(m),
            ),
            s@ == emitted(program@, i as int),
        decreases n - i,
    {
        let ghost pre = s@;
        let c = program[i];
        if c == CMD_RIGHT {
            s.append("inc_dp;\n");
        } else if c == CMD_LEFT {
            s.append("dec_dp;\n");
        } else if c == CMD_INC {
            s.append("inc_cell;\n");
        } else if c == CMD_DEC {
            s.append("dec_cell;\n");
        } else if c == CMD_READ {
            s.append(
                "data <=X= ${ Query::Input(std::convert::int(std::prover::eval(in_ptr))) };\n",
            );
            s.append("mstore data;\n");
            s.append("in_ptr <=X= in_ptr + 1;\n");
        } else if c == CMD_WRITE {
            s.append("data <== mload();\n");
            s.append(
                "data <=X= ${ Query::Output(1, std::convert::int(std::prover::eval(data))) };\n",
            );
        } else if c == CMD_OPEN {
            let kk = cnt[i];
            push_label_true(&mut s, kk as u64);
            s.append(":\n");
            s.append("data <== mload();\n");
            s.append("branch_if_zero data, ");
            push_label_false(&mut s, kk as u64);
            s.append(";\n");
            proof {
                assert(s@ =~= pre + chunk(program@, i as int));
            }
        } else if c == CMD_CLOSE {
            proof {
                lemma_jump_table_agrees(program@, jt@, i as int);
            }
            let o = jt[i];
            proof {
                assert(is_match(program@, o as int, i as int));
            }
            let kk = cnt[o];
            s.append("jump ");
            push_label_true(&mut s, kk as u64);
            s.append(";\n");
            push_label_false(&mut s, kk as u64);
            s.append(":\n");
            proof {
                assert(s@ =~= pre + chunk(program@, i as int));
            }
        } else {
            proof {
                assert(chunk(program@, i as int) =~= Seq::<char>::empty());
            }
        }
        proof {
            assert(s@ =~= pre + chunk(program@, i as int));
            assert(emitted(program@, i + 1) == emitted(program@, i as int) + chunk(
                program@,
                i as int,
            ));
        }
        i = i + 1;
    }
    s.append("return;");
    proof {
        assert(s@ =~= emitted(program@, n as int) + "return;"@);
    }
    Ok(s)
}

/// Compilation is deterministic: the compiler's contract pins the emitted
/// assembly to a function of the program alone, so any two texts it can
/// return for the same program are byte-identical.
pub proof fn lemma_compile_deterministic(p: Seq<u32>, s1: Seq<char>, s2: Seq<char>)
    requires
        s1 == spec_compile(p),
        s2 == spec_compile(p),
    ensures
        s1 == s2,
{
}

} // verus!
