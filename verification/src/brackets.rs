use vstd::prelude::*;

use crate::lang::{CMD_CLOSE, CMD_OPEN};
use crate::Error;

verus! {

/// +1 for a loop-open, -1 for a loop-close, 0 for anything else.
pub open spec fn bracket_delta(c: u32) -> int {
    if c == CMD_OPEN {
        1
    } else if c == CMD_CLOSE {
        -1
    } else {
        0
    }
}

/// Number of loop-opens minus number of loop-closes in `p`.
pub open spec fn net_depth(p: Seq<u32>) -> int
    decreases p.len(),
{
    if p.len() == 0 {
        0
    } else {
        net_depth(p.drop_last()) + bracket_delta(p.last())
    }
}

/// The brackets of `p` are balanced: no prefix closes more loops than it has
/// opened, and the whole sequence closes every loop it opens.
pub open spec fn balanced(p: Seq<u32>) -> bool {
    &&& net_depth(p) == 0
    &&& forall|k: int| 0 <= k <= p.len() ==> net_depth(#[trigger] p.take(k)) >= 0
}

/// The loop-close at `j` matches the loop-open at `i`: the region between
/// them is bracket-neutral and never dips below its own level.
pub open spec fn is_match(p: Seq<u32>, i: int, j: int) -> bool {
    &&& 0 <= i < j < p.len()
    &&& p[i] == CMD_OPEN
    &&& p[j] == CMD_CLOSE
    &&& net_depth(p.subrange(i + 1, j)) == 0
    &&& forall|k: int| i + 1 <= k <= j ==> net_depth(#[trigger] p.subrange(i + 1, k)) >= 0
}

/// The position of the loop-close matching the loop-open at `i`.
pub open spec fn close_of(p: Seq<u32>, i: int) -> int {
    choose|j: int| is_match(p, i, j)
}

/// The position of the loop-open matching the loop-close at `j`.
pub open spec fn open_of(p: Seq<u32>, j: int) -> int {
    choose|i: int| is_match(p, i, j)
}

/// `jt` is a valid jump table for `p`: it maps every loop-open to a matching
/// loop-close and every loop-close to a matching loop-open.
pub open spec fn is_jump_table(p: Seq<u32>, jt: Seq<usize>) -> bool {
    &&& jt.len() == p.len()
    &&& forall|i: int|
        0 <= i < p.len() && p[i] == CMD_OPEN ==> is_match(p, i, #[trigger] jt[i] as int)
    &&& forall|j: int|
        0 <= j < p.len() && p[j] == CMD_CLOSE ==> is_match(p, #[trigger] jt[j] as int, j)
}

/// Appending a code that is not a bracket (the terminator, say) leaves
/// balance untouched: whether a program's brackets balance is a property of
/// its filtered command sequence alone.
pub proof fn lemma_balanced_push_neutral(p: Seq<u32>, c: u32)
    requires
        bracket_delta(c) == 0,
    ensures
        balanced(p.push(c)) <==> balanced(p),
{
    let q = p.push(c);
    assert(q.drop_last() =~= p);
    assert(net_depth(q) == net_depth(p));
    if balanced(p) {
        assert forall|k: int| 0 <= k <= q.len() implies net_depth(#[trigger] q.take(k)) >= 0 by {
            if k <= p.len() {
                assert(q.take(k) =~= p.take(k));
            } else {
                assert(q.take(k) =~= q);
            }
        }
    }
    if balanced(q) {
        assert forall|k: int| 0 <= k <= p.len() implies net_depth(#[trigger] p.take(k)) >= 0 by {
            assert(q.take(k) =~= p.take(k));
        }
    }
}

/// Bracket depth adds over concatenation.
pub proof fn lemma_net_depth_concat(a: Seq<u32>, b: Seq<u32>)
    ensures
        net_depth(a + b) == net_depth(a) + net_depth(b),
    decreases b.len(),
{
    if b.len() == 0 {
        assert(a + b =~= a);
    } else {
        lemma_net_depth_concat(a, b.drop_last());
        assert((a + b).drop_last() =~= a + b.drop_last());
    }
}

/// Bracket depth of a subrange splits at any interior point.
pub proof fn lemma_net_depth_split(p: Seq<u32>, a: int, b: int, c: int)
    requires
        0 <= a <= b <= c <= p.len(),
    ensures
        net_depth(p.subrange(a, c)) == net_depth(p.subrange(a, b)) + net_depth(p.subrange(b, c)),
{
    assert(p.subrange(a, c) =~= p.subrange(a, b) + p.subrange(b, c));
    lemma_net_depth_concat(p.subrange(a, b), p.subrange(b, c));
}

/// Bracket depth of a single element.
proof fn lemma_net_depth_single(p: Seq<u32>, a: int)
    requires
        0 <= a < p.len(),
    ensures
        net_depth(p.subrange(a, a + 1)) == bracket_delta(p[a]),
{
    let s = seq![p[a]];
    assert(p.subrange(a, a + 1) =~= s);
    assert(s.drop_last() =~= Seq::<u32>::empty());
    assert(net_depth(Seq::<u32>::empty()) == 0);
    assert(net_depth(s) == bracket_delta(p[a]));
}

/// A loop-open has at most one matching loop-close.
pub proof fn lemma_match_unique_close(p: Seq<u32>, i: int, j1: int, j2: int)
    requires
        is_match(p, i, j1),
        is_match(p, i, j2),
    ensures
        j1 == j2,
{
    if j1 < j2 {
        lemma_net_depth_split(p, i + 1, j1, j1 + 1);
        lemma_net_depth_single(p, j1);
        assert(net_depth(p.subrange(i + 1, j1 + 1)) == -1);
    } else if j2 < j1 {
        lemma_net_depth_split(p, i + 1, j2, j2 + 1);
        lemma_net_depth_single(p, j2);
        assert(net_depth(p.subrange(i + 1, j2 + 1)) == -1);
    }
}

/// A loop-close has at most one matching loop-open.
pub proof fn lemma_match_unique_open(p: Seq<u32>, i1: int, i2: int, j: int)
    requires
        is_match(p, i1, j),
        is_match(p, i2, j),
    ensures
        i1 == i2,
{
    if i1 < i2 {
        lemma_net_depth_split(p, i1 + 1, i2, j);
        lemma_net_depth_split(p, i2, i2 + 1, j);
        lemma_net_depth_single(p, i2);
        assert(net_depth(p.subrange(i1 + 1, i2)) == -1);
    } else if i2 < i1 {
        lemma_net_depth_split(p, i2 + 1, i1, j);
        lemma_net_depth_split(p, i1, i1 + 1, j);
        lemma_net_depth_single(p, i1);
        assert(net_depth(p.subrange(i2 + 1, i1)) == -1);
    }
}

/// In a valid jump table the recorded targets are exactly the matching
/// positions, so both directions agree with `close_of` and `open_of`.
pub proof fn lemma_jump_table_agrees(p: Seq<u32>, jt: Seq<usize>, i: int)
    requires
        is_jump_table(p, jt),
        0 <= i < p.len(),
    ensures
        p[i] == CMD_OPEN ==> jt[i] as int == close_of(p, i),
        p[i] == CMD_CLOSE ==> jt[i] as int == open_of(p, i),
{
    if p[i] == CMD_OPEN {
        assert(is_match(p, i, jt[i] as int));
        lemma_match_unique_close(p, i, jt[i] as int, close_of(p, i));
    }
    if p[i] == CMD_CLOSE {
        assert(is_match(p, jt[i] as int, i));
        lemma_match_unique_open(p, jt[i] as int, open_of(p, i), i);
    }
}

/// The largest index `i` at or below `j` whose prefix depth is below
/// `target`; everything strictly after it up to `j` sits at `target` or
/// deeper.
proof fn lemma_last_shallow(p: Seq<u32>, j: int, target: int) -> (i: int)
    requires
        0 <= j <= p.len(),
        net_depth(p.take(0)) < target,
    ensures
        0 <= i <= j,
        net_depth(p.take(i)) < target,
        forall|k: int| i < k <= j ==> net_depth(#[trigger] p.take(k)) >= target,
    decreases j,
{
    if net_depth(p.take(j)) < target {
        j
    } else {
        lemma_last_shallow(p, j - 1, target)
    }
}

/// The smallest index `i` at or above `j` whose prefix depth is below
/// `target`; everything from `j` up to it sits at `target` or deeper.
proof fn lemma_first_shallow(p: Seq<u32>, j: int, target: int) -> (i: int)
    requires
        0 <= j <= p.len(),
        net_depth(p.take(p.len() as int)) < target,
    ensures
        j <= i <= p.len(),
        net_depth(p.take(i)) < target,
        forall|k: int| j <= k < i ==> net_depth(#[trigger] p.take(k)) >= target,
    decreases p.len() - j,
{
    if net_depth(p.take(j)) < target {
        j
    } else {
        lemma_first_shallow(p, j + 1, target)
    }
}

/// Depth steps by the bracket delta of the position crossed.
proof fn lemma_depth_step(p: Seq<u32>, k: int)
    requires
        0 <= k < p.len(),
    ensures
        net_depth(p.take(k + 1)) == net_depth(p.take(k)) + bracket_delta(p[k]),
{
    assert(p.take(k + 1).drop_last() =~= p.take(k));
    assert(p.take(k + 1).last() == p[k]);
}

/// Depth of the region between two positions, in terms of prefix depths.
proof fn lemma_depth_between(p: Seq<u32>, a: int, b: int)
    requires
        0 <= a <= b <= p.len(),
    ensures
        net_depth(p.subrange(a, b)) == net_depth(p.take(b)) - net_depth(p.take(a)),
{
    assert(p.take(b) =~= p.subrange(0, b));
    assert(p.take(a) =~= p.subrange(0, a));
    lemma_net_depth_split(p, 0, a, b);
}

/// In a balanced program every loop-close has a matching loop-open, and
/// `open_of` denotes it.
pub proof fn lemma_close_has_match(p: Seq<u32>, j: int)
    requires
        balanced(p),
        0 <= j < p.len(),
        p[j] == CMD_CLOSE,
    ensures
        is_match(p, open_of(p, j), j),
{
    let dj = net_depth(p.take(j));
    lemma_depth_step(p, j);
    assert(net_depth(p.take(j + 1)) >= 0);
    assert(dj >= 1);
    let i = lemma_last_shallow(p, j, dj);
    assert(net_depth(p.take(i + 1)) >= dj);
    lemma_depth_step(p, i);
    assert(bracket_delta(p[i]) >= dj - net_depth(p.take(i)));
    assert(bracket_delta(p[i]) == 1);
    assert(p[i] == CMD_OPEN);
    assert(i < j);
    assert forall|k: int| i + 1 <= k <= j implies net_depth(
        #[trigger] p.subrange(i + 1, k),
    ) >= 0 by {
        lemma_depth_between(p, i + 1, k);
    }
    lemma_depth_between(p, i + 1, j);
    assert(net_depth(p.take(i + 1)) == dj);
    assert(is_match(p, i, j));
    lemma_match_unique_open(p, i, open_of(p, j), j);
}

/// In a balanced program every loop-open has a matching loop-close, and
/// `close_of` denotes it.
pub proof fn lemma_open_has_match(p: Seq<u32>, i: int)
    requires
        balanced(p),
        0 <= i < p.len(),
        p[i] == CMD_OPEN,
    ensures
        is_match(p, i, close_of(p, i)),
{
    lemma_depth_step(p, i);
    let di1 = net_depth(p.take(i + 1));
    assert(p.take(p.len() as int) =~= p);
    let j1 = lemma_first_shallow(p, i + 1, di1);
    let j = j1 - 1;
    assert(net_depth(p.take(j1)) < di1);
    assert(j >= i + 1);
    assert(net_depth(p.take(j)) >= di1);
    lemma_depth_step(p, j);
    assert(bracket_delta(p[j]) == -1);
    assert(p[j] == CMD_CLOSE);
    assert(net_depth(p.take(j)) == di1);
    assert forall|k: int| i + 1 <= k <= j implies net_depth(
        #[trigger] p.subrange(i + 1, k),
    ) >= 0 by {
        lemma_depth_between(p, i + 1, k);
    }
    lemma_depth_between(p, i + 1, j);
    assert(is_match(p, i, j));
    lemma_match_unique_close(p, i, close_of(p, i), j);
}

/// Single pre-pass of the bracket resolver over `p[0..n]`: matches every
/// loop-open/loop-close pair once and records the pair in both directions.
/// Fails with `UnmatchedBracket` exactly when the brackets are unbalanced.
pub fn build_jump_table(p: &[u32], n: usize) -> (r: Result<Vec<usize>, Error>)
    requires
        n <= p@.len(),
    ensures
        ({
            let cmds = p@.take(n as int);
            match r {
                Ok(jt) => balanced(cmds) && is_jump_table(cmds, jt@),
                Err(e) => e == Error::UnmatchedBracket && !balanced(cmds),
            }
        }),
{
    let ghost cmds = p@.take(n as int);
    let mut jt: Vec<usize> = vec![0usize; n];
    let mut stack: Vec<usize> = Vec::new();
    let mut i: usize = 0;
    while i < n
        invariant
            i <= n <= p@.len(),
            cmds == p@.take(n as int),
            jt@.len() == n,
            forall|k: int| 0 <= k <= i ==> net_depth(#[trigger] cmds.take(k)) >= 0,
            stack@.len() == net_depth(cmds.take(i as int)),
            forall|m: int|
                0 <= m < stack@.len() ==> #[trigger] stack@[m] < i && cmds[stack@[m] as int]
                    == CMD_OPEN,
            forall|m: int|
                0 <= m < stack@.len() ==> net_depth(
                    #[trigger] cmds.subrange(stack@[m] + 1, i as int),
                ) == stack@.len() - 1 - m,
            forall|m: int, k: int|
                0 <= m < stack@.len() && stack@[m] + 1 <= k <= i ==> net_depth(
                    #[trigger] cmds.subrange(stack@[m] + 1, k),
                ) >= 0,
            forall|idx: int|
                0 <= idx < i && cmds[idx] == CMD_OPEN && !stack@.contains(idx as usize)
                    ==> is_match(cmds, idx, #[trigger] jt@[idx] as int),
            forall|j: int|
                0 <= j < i && cmds[j] == CMD_CLOSE ==> is_match(cmds, #[trigger] jt@[j] as int, j),
        decreases n - i,
    {
        let c = p[i];
        proof {
            assert(cmds[i as int] == c);
            assert(cmds.take(i + 1).drop_last() =~= cmds.take(i as int));
            assert(cmds.take(i + 1).last() == c);
        }
        if c == CMD_OPEN {
            let ghost prev = stack@;
            stack.push(i);
            proof {
                let snew = stack@;
                assert(snew == prev.push(i));
                assert forall|m: int| 0 <= m < snew.len() implies net_depth(
                    #[trigger] cmds.subrange(snew[m] + 1, i + 1),
                ) == snew.len() - 1 - m by {
                    if m < snew.len() - 1 {
                        assert(snew[m] == prev[m]);
                        lemma_net_depth_split(cmds, prev[m] + 1, i as int, i + 1);
                        lemma_net_depth_single(cmds, i as int);
                    } else {
                        assert(snew[m] == i as usize);
                        assert(cmds.subrange(i + 1, i + 1) =~= Seq::<u32>::empty());
                    }
                }
                assert forall|m: int, k: int|
                    0 <= m < snew.len() && snew[m] + 1 <= k <= i + 1 implies net_depth(
                    #[trigger] cmds.subrange(snew[m] + 1, k),
                ) >= 0 by {
                    if m < snew.len() - 1 {
                        assert(snew[m] == prev[m]);
                        if k <= i {
                            assert(net_depth(cmds.subrange(prev[m] + 1, k)) >= 0);
                        } else {
                            lemma_net_depth_split(cmds, prev[m] + 1, i as int, i + 1);
                            lemma_net_depth_single(cmds, i as int);
                        }
                    } else {
                        assert(snew[m] == i as usize);
                        assert(k == i + 1);
                        assert(cmds.subrange(i + 1, i + 1) =~= Seq::<u32>::empty());
                    }
                }
                assert forall|idx: int|
                    0 <= idx < i + 1 && cmds[idx] == CMD_OPEN && !snew.contains(idx as usize)
                    implies is_match(cmds, idx, #[trigger] jt@[idx] as int) by {
                    if idx < i {
                        assert forall|q: int|
                            0 <= q < prev.len() && prev[q] == idx as usize implies false by {
                            assert(snew[q] == idx as usize);
                        }
                        assert(!prev.contains(idx as usize));
                    } else {
                        assert(snew[snew.len() - 1] == i as usize);
                    }
                }
            }
        } else if c == CMD_CLOSE {
            if stack.len() == 0 {
                proof {
                    assert(net_depth(cmds.take(i as int)) == 0);
                    assert(net_depth(cmds.take(i + 1)) == -1);
                    assert(!balanced(cmds));
                }
                return Err(Error::UnmatchedBracket);
            }
            let ghost prev = stack@;
            let o = stack.pop().unwrap();
            let ghost jt_prev = jt@;
            proof {
                assert(stack@ == prev.drop_last());
                assert(o == prev[prev.len() - 1]);
                assert(net_depth(cmds.subrange(o + 1, i as int)) == 0);
                assert(is_match(cmds, o as int, i as int));
            }
            jt[o] = i;
            jt[i] = o;
            proof {
                let snew = stack@;
                assert(jt@ == jt_prev.update(o as int, i as usize).update(i as int, o));
                assert forall|m: int| 0 <= m < snew.len() implies net_depth(
                    #[trigger] cmds.subrange(snew[m] + 1, i + 1),
                ) == snew.len() - 1 - m by {
                    assert(snew[m] == prev[m]);
                    lemma_net_depth_split(cmds, prev[m] + 1, i as int, i + 1);
                    lemma_net_depth_single(cmds, i as int);
                }
                assert forall|m: int, k: int|
                    0 <= m < snew.len() && snew[m] + 1 <= k <= i + 1 implies net_depth(
                    #[trigger] cmds.subrange(snew[m] + 1, k),
                ) >= 0 by {
                    assert(snew[m] == prev[m]);
                    if k <= i {
                        assert(net_depth(cmds.subrange(prev[m] + 1, k)) >= 0);
                    } else {
                        lemma_net_depth_split(cmds, prev[m] + 1, i as int, i + 1);
                        lemma_net_depth_single(cmds, i as int);
                        assert(net_depth(cmds.subrange(prev[m] + 1, i as int)) == prev.len() - 1
                            - m);
                    }
                }
                assert forall|idx: int|
                    0 <= idx < i + 1 && cmds[idx] == CMD_OPEN && !snew.contains(idx as usize)
                    implies is_match(cmds, idx, #[trigger] jt@[idx] as int) by {
                    if idx == o as int {
                        assert(jt@[idx] as int == i);
                    } else if idx < i {
                        if prev.contains(idx as usize) {
                            let q = choose|q: int|
                                0 <= q < prev.len() && prev[q] == idx as usize;
                            if q < prev.len() - 1 {
                                assert(snew[q] == idx as usize);
                                assert(snew.contains(idx as usize));
                                assert(false);
                            }
                            assert(idx == o as int);
                        } else {
                            assert(is_match(cmds, idx, jt_prev[idx] as int));
                            assert(jt@[idx] == jt_prev[idx]);
                        }
                    }
                }
                assert forall|j: int| 0 <= j < i + 1 && cmds[j] == CMD_CLOSE implies is_match(
                    cmds,
                    #[trigger] jt@[j] as int,
                    j,
                ) by {
                    if j == i as int {
                        assert(jt@[j] == o);
                    } else {
                        assert(jt@[j] == jt_prev[j]);
                    }
                }
            }
        } else {
            proof {
                assert(bracket_delta(c) == 0);
                assert forall|m: int| 0 <= m < stack@.len() implies net_depth(
                    #[trigger] cmds.subrange(stack@[m] + 1, i + 1),
                ) == stack@.len() - 1 - m by {
                    lemma_net_depth_split(cmds, stack@[m] + 1, i as int, i + 1);
                    lemma_net_depth_single(cmds, i as int);
                }
                assert forall|m: int, k: int|
                    0 <= m < stack@.len() && stack@[m] + 1 <= k <= i + 1 implies net_depth(
                    #[trigger] cmds.subrange(stack@[m] + 1, k),
                ) >= 0 by {
                    if k <= i {
                        assert(net_depth(cmds.subrange(stack@[m] + 1, k)) >= 0);
                    } else {
                        lemma_net_depth_split(cmds, stack@[m] + 1, i as int, i + 1);
                        lemma_net_depth_single(cmds, i as int);
                    }
                }
            }
        }
        i = i + 1;
    }
    if stack.len() > 0 {
        proof {
            assert(cmds.take(n as int) =~= cmds);
            assert(net_depth(cmds) > 0);
        }
        return Err(Error::UnmatchedBracket);
    }
    proof {
        assert(cmds.take(n as int) =~= cmds);
        assert(balanced(cmds));
    }
    Ok(jt)
}

} // verus!
