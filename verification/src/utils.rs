//! Small shared helpers.

use vstd::prelude::*;

verus! {

/// Checks whether every name in a list is unique, as required of the
/// argument names of a function signature.
pub fn is_unique(items: &Vec<String>) -> (r: bool)
    ensures
        r == (forall|a: int, b: int|
            0 <= a < b < items@.len() ==> (#[trigger] items@[a])@ != (#[trigger] items@[b])@),
{
    let n = items.len();
    let mut i: usize = 0;
    while i < n
        invariant
            i <= n,
            n == items@.len(),
            forall|a: int, b: int|
                0 <= a < b < i ==> (#[trigger] items@[a])@ != (#[trigger] items@[b])@,
        decreases n - i,
    {
        let mut j: usize = 0;
        while j < i
            invariant
                j <= i < n,
                n == items@.len(),
                forall|b: int| 0 <= b < j ==> (#[trigger] items@[b])@ != items@[i as int]@,
            decreases i - j,
        {
            if items[j] == items[i] {
                return false;
            }
            j = j + 1;
        }
        i = i + 1;
    }
    true
}

} // verus!
