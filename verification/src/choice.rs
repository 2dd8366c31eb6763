//! Which result the `--get` option picks.

use vstd::prelude::*;

verus! {

/// The position that `--get n` asks for: result `n`, counted from 1, with
/// 0 read as 1.
pub open spec fn asked_index(n: nat) -> nat {
    if n == 0 {
        0
    } else {
        (n - 1) as nat
    }
}

/// The position of the result that `--get n` picks among `count` results,
/// if there is one.
pub fn chosen_result(count: usize, n: usize) -> (r: Option<usize>)
    ensures
        asked_index(n as nat) < count ==> r == Some(asked_index(n as nat) as usize),
        asked_index(n as nat) >= count ==> r is None,
{
    let idx = if n == 0 {
        0
    } else {
        n - 1
    };
    if idx < count {
        Some(idx)
    } else {
        None
    }
}

} // verus!
