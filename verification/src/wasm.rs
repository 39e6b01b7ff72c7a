//! The two functions of the WebAssembly demo module, with the wrapping arithmetic of its
//! release build.

use vstd::prelude::*;

verus! {

/// The sum of two numbers, wrapping around on overflow.
pub fn add(a: i32, b: i32) -> (res: i32)
    ensures
        res == a.wrapping_add(b),
{
    a.wrapping_add(b)
}

/// The pair `(F(k), F(k + 1))` of Fibonacci numbers, computed with wrapping `i32`
/// additions.
pub open spec fn fib_pair(k: nat) -> (i32, i32)
    decreases k,
{
    if k == 0 {
        (0, 1)
    } else {
        let (a, b) = fib_pair((k - 1) as nat);
        (b, a.wrapping_add(b))
    }
}

/// The `n`-th Fibonacci number (0 for `n <= 0`), wrapping around on overflow.
pub open spec fn fib_wrapping(n: i32) -> i32 {
    if n <= 0 {
        0
    } else {
        fib_pair(n as nat).0
    }
}

/// The `n`-th Fibonacci number, counting from `fib(0) == 0` (0 for negative `n`).
pub fn fib(n: i32) -> (res: i32)
    ensures
        res == fib_wrapping(n),
{
    let mut a: i32 = 0;
    let mut b: i32 = 1;
    let mut i: i32 = 0;
    while i < n
        invariant
            0 <= i,
            n > 0 ==> i <= n,
            n <= 0 ==> i == 0,
            a == fib_pair(i as nat).0,
            b == fib_pair(i as nat).1,
        decreases n - i,
    {
        let tmp = b;
        b = a.wrapping_add(b);
        a = tmp;
        i += 1;
    }
    a
}

} // verus!
