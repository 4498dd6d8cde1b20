use vstd::prelude::*;

verus! {

/// Appends the two triangles `(p1, p2, p3)` and `(p1, p3, p4)` of the quad
/// `p1 p2 p3 p4` to an index buffer.
pub fn push_quad(index_arr: &mut Vec<u16>, p1: u16, p2: u16, p3: u16, p4: u16)
    ensures
        final(index_arr)@ == old(index_arr)@ + seq![p1, p2, p3, p1, p3, p4],
{
    index_arr.push(p1);
    index_arr.push(p2);
    index_arr.push(p3);
    index_arr.push(p1);
    index_arr.push(p3);
    index_arr.push(p4);
}

} // verus!
