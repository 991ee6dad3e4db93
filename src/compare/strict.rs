use vstd::prelude::*;

use crate::byte_read::{common_prefix_len, ByteRead, MemReader, DEFAULT_CAPACITY};
use crate::compare::Comparison;

verus! {

/// The verdict of the exact comparison: accepted on identical bytes.
pub open spec fn strict_spec(std: Seq<u8>, user: Seq<u8>) -> Comparison {
    if std == user {
        Comparison::AC
    } else {
        Comparison::WA
    }
}

/// Compares two sources byte for byte, block by block, reading no further
/// than the first difference.
pub fn try_strict_compare<R1: ByteRead, R2: ByteRead>(std_reader: &mut R1, user_reader: &mut R2) -> (r:
    Comparison)
    requires
        old(std_reader).inv(),
        old(user_reader).inv(),
    ensures
        final(std_reader).inv(),
        final(user_reader).inv(),
        r == strict_spec(old(std_reader).rest(), old(user_reader).rest()),
{
    let ghost s0 = std_reader.rest();
    let ghost u0 = user_reader.rest();
    let ghost mut done: int = 0;
    loop
        invariant
            std_reader.inv(),
            user_reader.inv(),
            s0 == old(std_reader).rest(),
            u0 == old(user_reader).rest(),
            0 <= done <= s0.len(),
            done <= u0.len(),
            s0.take(done) == u0.take(done),
            std_reader.rest() == s0.skip(done),
            user_reader.rest() == u0.skip(done),
        decreases std_reader.rest().len(),
    {
        std_reader.fill_buf();
        user_reader.fill_buf();
        let lhs = std_reader.buffer();
        let rhs = user_reader.buffer();
        proof {
            assert(lhs@.len() == 0 ==> done == s0.len());
            assert(rhs@.len() == 0 ==> done == u0.len());
            assert(lhs@.len() > 0 ==> done < s0.len());
            assert(rhs@.len() > 0 ==> done < u0.len());
        }
        if lhs.len() == 0 && rhs.len() == 0 {
            proof {
                assert(s0 =~= s0.take(done));
                assert(u0 =~= u0.take(done));
            }
            return Comparison::AC;
        }
        if lhs.len() == 0 || rhs.len() == 0 {
            proof {
                assert(s0.len() != u0.len());
                assert(s0 != u0);
            }
            return Comparison::WA;
        }
        let len = if lhs.len() < rhs.len() {
            lhs.len()
        } else {
            rhs.len()
        };
        let k = common_prefix_len(lhs, rhs);
        if k < len {
            proof {
                assert(s0[done + k] == lhs@[k as int]);
                assert(u0[done + k] == rhs@[k as int]);
            }
            return Comparison::WA;
        }
        proof {
            assert(s0.take(done + len) =~= s0.take(done) + lhs@.take(len as int));
            assert(u0.take(done + len) =~= u0.take(done) + rhs@.take(len as int));
            done = done + len;
        }
        std_reader.consume(len);
        user_reader.consume(len);
        proof {
            assert(std_reader.rest() =~= s0.skip(done));
            assert(user_reader.rest() =~= u0.skip(done));
        }
    }
}

/// Compares two byte strings exactly.
pub fn compare_exact(std: &[u8], user: &[u8]) -> (r: Comparison)
    ensures
        r == strict_spec(std@, user@),
{
    let mut a = MemReader::from_slice(std, DEFAULT_CAPACITY);
    let mut b = MemReader::from_slice(user, DEFAULT_CAPACITY);
    try_strict_compare(&mut a, &mut b)
}

/// The comparer of the exact discipline.
#[derive(Debug)]
pub struct StrictComparer {
    _priv: (),
}

impl StrictComparer {
    pub fn new() -> (r: Self) {
        StrictComparer { _priv: () }
    }

    pub fn compare<R1: ByteRead, R2: ByteRead>(&self, std: &mut R1, user: &mut R2) -> (r: Comparison)
        requires
            old(std).inv(),
            old(user).inv(),
        ensures
            final(std).inv(),
            final(user).inv(),
            r == strict_spec(old(std).rest(), old(user).rest()),
    {
        try_strict_compare(std, user)
    }
}

} // verus!
