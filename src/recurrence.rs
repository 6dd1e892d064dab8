//! A greeting, and the terms of the recurrence
//! `f[i] = f[i-1] * i` from `f[0] = 1`.
use vstd::prelude::*;

verus! {

/// The greeting text.
pub fn hello_marco() -> (r: &'static str)
    ensures
        r@ == " hello from my macro"@,
{
    let r = " hello from my macro";
    proof {
        reveal_strlit(" hello from my macro");
    }
    r
}

/// `f[i] = f[i-1] * i`, `f[0] = 1`.
pub open spec fn fact(i: nat) -> nat
    decreases i,
{
    if i == 0 { 1 } else { fact((i - 1) as nat) * i }
}

proof fn lemma_fact_bound(i: nat)
    requires
        i <= 20,
    ensures
        fact(i) <= 2432902008176640000,
        fact(i) >= 1,
    decreases i,
{
    lemma_fact_mono(i);
    lemma_fact_pos(i);
    reveal_with_fuel(fact, 21);
    assert(fact(20) == 2432902008176640000);
}

proof fn lemma_fact_pos(i: nat)
    ensures
        fact(i) >= 1,
    decreases i,
{
    if i > 0 {
        lemma_fact_pos((i - 1) as nat);
        assert(fact((i - 1) as nat) * i >= 1) by (nonlinear_arith)
            requires
                fact((i - 1) as nat) >= 1,
                i >= 1,
        ;
    }
}

proof fn lemma_fact_mono(i: nat)
    requires
        i <= 20,
    ensures
        fact(i) <= fact(20),
    decreases 20 - i,
{
    if i < 20 {
        lemma_fact_mono(i + 1);
        assert(fact((i + 1) as nat) == fact(i) * (i + 1));
        assert(fact(i) <= fact(i) * (i + 1)) by (nonlinear_arith)
            requires
                fact(i) >= 0,
                i + 1 >= 1,
        ;
    }
}

/// The first `n` terms of the recurrence, in order.
pub fn recurrence_terms(n: usize) -> (r: Vec<u64>)
    requires
        n <= 21,
    ensures
        r@.len() == n,
        forall|i: int| 0 <= i < n ==> r@[i] == fact(i as nat),
{
    let mut r: Vec<u64> = Vec::new();
    let mut i: usize = 0;
    while i < n
        invariant
            i <= n,
            n <= 21,
            r@.len() == i,
            forall|j: int| 0 <= j < i ==> r@[j] == fact(j as nat),
        decreases n - i,
    {
        if i == 0 {
            r.push(1);
        } else {
            let prev = r[i - 1];
            proof {
                lemma_fact_bound(i as nat);
                assert(fact(i as nat) == fact((i - 1) as nat) * (i as nat));
            }
            r.push(prev * (i as u64));
        }
        i = i + 1;
    }
    r
}

} // verus!
