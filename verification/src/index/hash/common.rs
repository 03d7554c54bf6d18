use vstd::prelude::*;

use crate::query::constant::{ConstVal, Constant};
use crate::util::chars_of;

verus! {

/// The hash of the characters `cs`: each step multiplies by 31 and adds the
/// next character, wrapping around in `i32`.
pub open spec fn chars_hash(cs: Seq<char>) -> i32
    decreases cs.len(),
{
    if cs.len() == 0 {
        0
    } else {
        chars_hash(cs.drop_last()).wrapping_mul(31).wrapping_add(cs.last() as i32)
    }
}

/// The hash code of a value: an integer is its own hash; a string hashes its
/// first twelve characters.
pub open spec fn const_hash(c: ConstVal) -> i32 {
    match c {
        ConstVal::Int(i) => i,
        ConstVal::Str(s) => chars_hash(
            if s.len() > 12 {
                s.take(12)
            } else {
                s
            },
        ),
    }
}

/// The hash code of `searchkey`.
pub fn hash_code(searchkey: &Constant) -> (r: i32)
    ensures
        r == const_hash(searchkey@),
{
    match searchkey {
        Constant::Int(i) => *i,
        Constant::String(s) => {
            let cs = chars_of(s.as_str());
            let mut hash: i32 = 0;
            let mut i: usize = 0;
            while i < cs.len() && i < 12
                invariant
                    i <= cs@.len(),
                    i <= 12,
                    cs@ == s@,
                    hash == chars_hash(cs@.take(i as int)),
                decreases cs@.len() - i,
            {
                assert(cs@.take(i as int + 1).drop_last() =~= cs@.take(i as int));
                hash = hash.wrapping_mul(31).wrapping_add(cs[i] as i32);
                i = i + 1;
            }
            proof {
                if cs@.len() <= 12 {
                    assert(cs@.take(cs@.len() as int) =~= cs@);
                }
            }
            hash
        },
    }
}

} // verus!
