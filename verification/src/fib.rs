use vstd::prelude::*;

verus! {

/// The Fibonacci sequence reduced modulo 7919 at every step, so the
/// iteration never overflows its 32-bit accumulators.
pub open spec fn spec_fib(n: nat) -> nat
    decreases n,
{
    if n == 0 {
        0
    } else if n == 1 {
        1
    } else {
        (spec_fib((n - 1) as nat) + spec_fib((n - 2) as nat)) % 7919
    }
}

/// Every value of the reduced sequence is below the modulus.
pub proof fn lemma_spec_fib_bound(n: nat)
    ensures
        spec_fib(n) < 7919,
    decreases n,
{
    if n >= 2 {
        lemma_spec_fib_bound((n - 1) as nat);
        lemma_spec_fib_bound((n - 2) as nat);
    }
}

/// Iteratively computes the `n+1`-th value of the reduced Fibonacci
/// sequence.
pub fn fibonacci(n: u32) -> (r: u32)
    ensures
        r == spec_fib((n + 1) as nat),
{
    let mut a: u32 = 0;
    let mut b: u32 = 1;
    let mut i: u32 = 0;
    while i < n
        invariant
            i <= n,
            a == spec_fib(i as nat),
            b == spec_fib((i + 1) as nat),
            a < 7919,
            b <= 7919,
        decreases n - i,
    {
        proof {
            lemma_spec_fib_bound((i + 1) as nat);
            lemma_spec_fib_bound((i + 2) as nat);
        }
        let sum = (a + b) % 7919;
        a = b;
        b = sum;
        i = i + 1;
    }
    b
}

} // verus!
