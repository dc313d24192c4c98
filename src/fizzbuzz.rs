use vstd::prelude::*;

verus! {

/// The magnitude of `x`.
pub open spec fn magnitude(x: int) -> int {
    if x < 0 {
        -x
    } else {
        x
    }
}

/// Whether `q` divides `n` evenly.
pub fn div(q: i32, n: i32) -> (r: bool)
    requires
        q != 0,
    ensures
        r == (magnitude(n as int) % magnitude(q as int) == 0),
{
    let nn: i64 = if n < 0 {
        -(n as i64)
    } else {
        n as i64
    };
    let qq: i64 = if q < 0 {
        -(q as i64)
    } else {
        q as i64
    };
    nn % qq == 0
}

} // verus!
