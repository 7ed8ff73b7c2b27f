//! Exchange and counter primitives on a cell owned through `&mut`.
use vstd::prelude::*;

use crate::packet::State;

verus! {

/// Stores `src` into `dst` and returns the value it held before.
pub fn atomic_xchng_rel(dst: &mut i64, src: i64) -> (r: i64)
    ensures
        r == *old(dst),
        *final(dst) == src,
{
    let prev = *dst;
    *dst = src;
    prev
}

/// Adds `src` to `dst` (wrapping, as a machine counter does) and returns
/// the value it held before.
pub fn atomic_add_acq(dst: &mut i64, src: i64) -> (r: i64)
    ensures
        r == *old(dst),
        *final(dst) == old(dst).wrapping_add(src),
{
    let prev = *dst;
    *dst = prev.wrapping_add(src);
    prev
}

/// Subtracts `src` from `dst` (wrapping) and returns the value it held
/// before.
pub fn atomic_sub_rel(dst: &mut i64, src: i64) -> (r: i64)
    ensures
        r == *old(dst),
        *final(dst) == old(dst).wrapping_sub(src),
{
    let prev = *dst;
    *dst = prev.wrapping_sub(src);
    prev
}

/// Exchanges a packet state with acquire ordering: stores `src` and
/// returns the previous state.
pub fn swap_state_acq(dst: &mut State, src: State) -> (r: State)
    ensures
        r == *old(dst),
        *final(dst) == src,
{
    let prev = *dst;
    *dst = src;
    prev
}

/// Exchanges a packet state with release ordering: stores `src` and
/// returns the previous state.
pub fn swap_state_rel(dst: &mut State, src: State) -> (r: State)
    ensures
        r == *old(dst),
        *final(dst) == src,
{
    let prev = *dst;
    *dst = src;
    prev
}

} // verus!
