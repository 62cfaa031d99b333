//! The augmentation hook: a caller-defined aggregate kept in each node's value.

use vstd::prelude::*;

verus! {

/// The value behind an optional borrowed value.
pub open spec fn owned<T>(value: Option<&T>) -> Option<T> {
    match value {
        Some(v) => Some(*v),
        None => None,
    }
}

/// Recomputes the caller-defined aggregate of a node.
///
/// The hook sees the node's own value and the values of its two children,
/// whose aggregates are already up to date.  It cannot reach the links, so it
/// cannot change the shape of a tree.
pub trait Helper<T>: Sized {
    /// The value a node holds after a recompute, given the value it held
    /// before and the values of its left and right children.
    spec fn eval_spec(value: T, left: Option<T>, right: Option<T>) -> T;

    /// A recompute overwrites whatever an earlier recompute left behind:
    /// only the part of the value that no recompute touches carries over.
    proof fn eval_absorbs(
        value: T,
        left0: Option<T>,
        right0: Option<T>,
        left: Option<T>,
        right: Option<T>,
    )
        ensures
            Self::eval_spec(Self::eval_spec(value, left0, right0), left, right)
                == Self::eval_spec(value, left, right),
    ;

    /// Recomputes the aggregate in `value` from `value` itself and the
    /// values of the two children.
    fn eval(value: &mut T, left: Option<&T>, right: Option<&T>)
        ensures
            *final(value) == Self::eval_spec(*old(value), owned(left), owned(right)),
    ;
}

/// The hook that keeps no aggregate: values are left as they are.
#[derive(Debug, Clone)]
pub struct DefaultHelper;

impl<T> Helper<T> for DefaultHelper {
    open spec fn eval_spec(value: T, left: Option<T>, right: Option<T>) -> T {
        value
    }

    proof fn eval_absorbs(
        value: T,
        left0: Option<T>,
        right0: Option<T>,
        left: Option<T>,
        right: Option<T>,
    ) {
    }

    fn eval(value: &mut T, left: Option<&T>, right: Option<&T>) {
    }
}

} // verus!
