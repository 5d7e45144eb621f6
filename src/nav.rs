//! Cursor movement over the grid, wrapping at the edges.

use vstd::prelude::*;

verus! {

/// `value + add`, wrapped into `0..modulo`.
pub fn modulo_add(value: u16, add: i32, modulo: u16) -> (r: u16)
    requires
        modulo > 0,
        i32::MIN <= value + add <= i32::MAX,
    ensures
        r == (value + add) % (modulo as int),
{
    let sum = value as i32 + add;
    match sum.checked_rem_euclid(modulo as i32) {
        Some(m) => m as u16,
        None => 0,
    }
}

/// The next position in reading order: one step along `x`, and at the end of
/// the line back to `x = 0` one step along `y`, which wraps too.
pub fn inc_carry_over(coords: (u16, u16), modulo: u16) -> (r: (u16, u16))
    requires
        modulo > 0,
    ensures
        coords.0 + 1 < modulo ==> r == ((coords.0 + 1) as u16, coords.1),
        coords.0 + 1 >= modulo ==> r == (0u16, ((coords.1 + 1) % (modulo as int)) as u16),
{
    let (mut x, mut y) = coords;
    if x < modulo - 1 {
        x += 1;
    } else {
        x = 0;
        y = modulo_add(y, 1, modulo);
    }
    (x, y)
}

} // verus!
