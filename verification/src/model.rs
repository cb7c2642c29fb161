//! What a sequence of values stands for.

use vstd::prelude::*;

verus! {

/// What the items of a sequence stand for, item by item.
pub open spec fn models<T: DeepView>(items: Seq<T>) -> Seq<T::V> {
    Seq::new(items.len(), |i: int| items[i].deep_view())
}

} // verus!
