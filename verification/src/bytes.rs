//! Byte strings.

use vstd::prelude::*;

verus! {

/// Appends bytes.
pub fn extend(out: &mut Vec<u8>, data: &[u8])
    ensures
        final(out)@ == old(out)@ + data@,
{
    let ghost before = out@;
    out.extend_from_slice(data);
    proof {
        assert forall|i: int| 0 <= i < data@.len() implies #[trigger] out@[before.len() + i]
            == data@[i] by {
            assert(cloned::<u8>(data@[i], out@[before.len() + i]));
        }
        assert(out@ =~= before + data@);
    }
}

/// The bytes from `from` up to `to`.
pub fn slice<'a>(data: &'a [u8], from: usize, to: usize) -> (r: &'a [u8])
    requires
        from <= to <= data@.len(),
    ensures
        r@ == data@.subrange(from as int, to as int),
{
    vstd::slice::slice_subrange(data, from, to)
}

/// A copy of bytes.
pub fn copy(data: &[u8]) -> (r: Vec<u8>)
    ensures
        r@ == data@,
{
    let mut r: Vec<u8> = Vec::new();
    extend(&mut r, data);
    proof {
        assert(r@ =~= data@);
    }
    r
}

} // verus!
