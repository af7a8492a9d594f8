//! Letting go of what is not needed any more.
use vstd::prelude::*;

verus! {

/// Lets go of a value, for good: it is dropped here. A handle to a task that is let go of does
/// not keep that task from being dropped.
///
/// What a contract says of such a call, it says by `call_ensures`: nothing but calling this
/// function makes that true.
pub fn let_go<T>(_value: T) {
}

/// Hands `value` over to `taker`, which is called once and keeps it.
fn hand_over<T, C: FnOnce(T)>(taker: C, value: T)
    requires
        call_requires(taker, (value,)),
    ensures
        call_ensures(taker, (value,), ()),
{
    taker(value)
}

/// Lets go of `value`.
pub(crate) fn give_up<T>(value: T)
    ensures
        call_ensures(let_go::<T>, (value,), ()),
{
    hand_over(let_go::<T>, value);
}

} // verus!
