//! Is any Windows Portable Device present?

use vstd::prelude::*;

verus! {

/// Whether Windows currently sees at least one portable device, given how many it counted.
///
/// Any device, not just Kindles: that is exactly what opening is willing to open, and a
/// presence probe stricter than the open path would disagree with it. No count counts as
/// absent: it feeds an advisory poll, and the next real open will say what is wrong.
pub fn device_present(count: Option<u32>) -> (present: bool)
    ensures
        present == (count matches Some(n) && n > 0),
{
    match count {
        Some(n) => n > 0,
        None => false,
    }
}

} // verus!
