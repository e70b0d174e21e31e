//! Two small operations with which a host can try out its linkage to the
//! library.
use vstd::prelude::*;

verus! {

/// The sum of two numbers.
pub fn add(left: i32, right: i32) -> (sum: i32)
    requires
        i32::MIN <= left + right <= i32::MAX,
    ensures
        sum == left + right,
{
    left + right
}

/// Adds ten to the first byte of the buffer, if it has one; a sum beyond
/// 255 wraps around.
pub fn process_image_data_rust(data: &mut Vec<u8>)
    ensures
        final(data)@.len() == old(data)@.len(),
        old(data)@.len() > 0 ==> final(data)@ == old(data)@.update(
            0,
            ((old(data)@[0] + 10) % 256) as u8,
        ),
{
    if data.len() > 0 {
        let first: u8 = data[0];
        let changed: u8 = if first >= 246 {
            first - 246
        } else {
            first + 10
        };
        data.set(0, changed);
    }
}

} // verus!
