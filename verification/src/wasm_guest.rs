//! Functions that a WebAssembly guest exports to probe the limits its host
//! sets on memory.

use vstd::prelude::*;
use vstd::string::*;

verus! {

/// How many numbers `a_lot_of_heap_memory` keeps on the heap at once.
pub const HEAP_ITEMS: usize = 6553600;

/// `0 + 1 + ... + (n - 1)`.
pub open spec fn sum_below(n: nat) -> nat
    decreases n,
{
    if n == 0 {
        0
    } else {
        sum_below((n - 1) as nat) + (n - 1) as nat
    }
}

/// The sum of the numbers below `n` is `n * (n - 1) / 2`.
pub proof fn lemma_sum_below_closed_form(n: nat)
    ensures
        2 * sum_below(n) == n * (n - 1),
    decreases n,
{
    if n > 0 {
        lemma_sum_below_closed_form((n - 1) as nat);
        assert(sum_below(n) == sum_below((n - 1) as nat) + (n - 1));
        assert(2 * sum_below((n - 1) as nat) == (n - 1) * (n - 2));
        assert(2 * sum_below(n) == (n - 1) * (n - 2) + 2 * (n - 1));
        assert((n - 1) * (n - 2) + 2 * (n - 1) == n * (n - 1)) by (nonlinear_arith);
    } else {
        assert(n * (n - 1) == 0) by (nonlinear_arith)
            requires
                n == 0,
        ;
    }
}

/// The modulus of arithmetic on `usize`.
pub open spec fn usize_modulus() -> nat {
    usize::MAX as nat + 1
}

/// Meant to use a lot of stack memory; it keeps nothing on the stack and
/// returns 1.
pub fn a_lot_of_stack_memory() -> (r: usize)
    ensures
        r == 1,
{
    1
}

/// Keeps the numbers `0 .. HEAP_ITEMS` on the heap at once, then returns their
/// sum, wrapping around at the width of `usize` (as the guest does when it is
/// built for a 32-bit target).
pub fn a_lot_of_heap_memory() -> (r: usize)
    ensures
        r as nat == sum_below(HEAP_ITEMS as nat) % usize_modulus(),
{
    let mut v: Vec<usize> = Vec::new();
    let mut i: usize = 0;
    while i < HEAP_ITEMS
        invariant
            i <= HEAP_ITEMS,
            v@.len() == i,
            forall|k: int| 0 <= k < i ==> #[trigger] v@[k] == k,
        decreases HEAP_ITEMS - i,
    {
        v.push(i);
        i = i + 1;
    }
    let mut ret: usize = 0;
    let mut j: usize = 0;
    proof {
        vstd::arithmetic::div_mod::lemma_small_mod(0, usize_modulus());
    }
    while j < v.len()
        invariant
            j <= v@.len(),
            v@.len() == HEAP_ITEMS,
            forall|k: int| 0 <= k < HEAP_ITEMS ==> #[trigger] v@[k] == k,
            ret as nat == sum_below(j as nat) % usize_modulus(),
        decreases v@.len() - j,
    {
        let x = v[j];
        let ghost m = usize_modulus() as int;
        let ghost total = sum_below(j as nat) as int;
        proof {
            vstd::arithmetic::div_mod::lemma_add_mod_noop_right(j as int, total, m);
            assert((total + j) % m == (ret + j) % m);
            if ret as int + j as int <= usize::MAX as int {
                vstd::arithmetic::div_mod::lemma_small_mod((ret + j) as nat, m as nat);
            } else {
                vstd::arithmetic::div_mod::lemma_small_mod((ret + j - m) as nat, m as nat);
                vstd::arithmetic::div_mod::lemma_mod_add_multiples_vanish(ret + j - m, m);
            }
        }
        ret = ret.wrapping_add(x);
        j = j + 1;
    }
    ret
}

/// The greeting that the guest returns to a host that calls itself `name`.
pub open spec fn greeting_text(name: Seq<char>) -> Seq<char> {
    "Hi "@ + name + ", I'm greeting you from the guest!"@
}

/// The line that the guest prints when it greets a host that calls itself
/// `name`.
pub open spec fn greeting_line_text(name: Seq<char>) -> Seq<char> {
    "Hi "@ + name + ", I'm greeting you from the guest in a println!"@
}

/// The greeting that the guest returns (see `greeting_text`).
pub fn greeting(name: &str) -> (r: String)
    ensures
        r@ == greeting_text(name@),
{
    let mut r = String::from_str("Hi ");
    r.append(name);
    r.append(", I'm greeting you from the guest!");
    r
}

/// The line that the guest prints when it greets (see `greeting_line_text`).
pub fn greeting_line(name: &str) -> (r: String)
    ensures
        r@ == greeting_line_text(name@),
{
    let mut r = String::from_str("Hi ");
    r.append(name);
    r.append(", I'm greeting you from the guest in a println!");
    r
}

} // verus!
