use vstd::prelude::*;

verus! {

/// Steps `n` forward by one within `0..max`, wrapping from `max - 1` to `0`.
/// The flag reports whether the step wrapped.
pub fn wrapping_inc(n: usize, max: usize) -> (r: (usize, bool))
    requires
        0 < max,
        n + 1 == max || n < usize::MAX,
    ensures
        r.1 == (n + 1 == max),
        r.0 == if n + 1 == max { 0 } else { n + 1 },
{
    if n == max - 1 {
        (0, true)
    } else {
        (n + 1, false)
    }
}

/// Steps `n` backward by one within `0..max`, wrapping from `0` to `max - 1`.
/// The flag reports whether the step wrapped.
pub fn wrapping_dec(n: usize, max: usize) -> (r: (usize, bool))
    requires
        0 < max,
    ensures
        r.1 == (n == 0),
        r.0 == if n == 0 { (max - 1) as usize } else { (n - 1) as usize },
{
    if n == 0 {
        (max - 1, true)
    } else {
        (n - 1, false)
    }
}

} // verus!
