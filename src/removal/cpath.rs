use vstd::prelude::*;

verus! {

/// True when the path holds a zero byte, which no NUL-terminated buffer can carry.
pub open spec fn has_nul(path: Seq<u8>) -> bool {
    exists|i: int| 0 <= i < path.len() && path[i] == 0u8
}

/// The NUL-terminated form of a path that holds no zero byte.
pub open spec fn terminated(path: Seq<u8>) -> Seq<u8> {
    path.push(0u8)
}

/// Encodes a path as a NUL-terminated byte buffer, or `None` when the path
/// holds a zero byte of its own.
pub fn encode_path(path: &Vec<u8>) -> (r: Option<Vec<u8>>)
    ensures
        r is None <==> has_nul(path@),
        r matches Some(buf) ==> buf@ == terminated(path@),
{
    let mut buf: Vec<u8> = Vec::new();
    let mut i: usize = 0;
    while i < path.len()
        invariant
            i <= path@.len(),
            buf@ == path@.subrange(0, i as int),
            forall|j: int| 0 <= j < i ==> path@[j] != 0u8,
        decreases path@.len() - i,
    {
        if path[i] == 0u8 {
            return None;
        }
        buf.push(path[i]);
        i = i + 1;
        assert(buf@ =~= path@.subrange(0, i as int));
    }
    buf.push(0u8);
    assert(path@.subrange(0, path@.len() as int) =~= path@);
    Some(buf)
}

} // verus!
