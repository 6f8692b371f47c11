//! The hash of a text that a dictionary signature carries.

use vstd::prelude::*;
use vstd::wrapping::i32_specs::{wrapping_add, wrapping_mul};

use crate::dic::read::spec_utf16_encode;
use crate::dic::build::lexicon::string_store::encode_utf16;

verus! {

/// The hash of a sequence of UTF-16 code units, as Java's `String.hashCode`
/// computes it: each unit in turn, the hash so far times 31 plus the unit,
/// wrapping on overflow.
pub open spec fn spec_java_hash(units: Seq<u16>) -> i32
    decreases units.len(),
{
    if units.len() == 0 {
        0
    } else {
        wrapping_add(wrapping_mul(spec_java_hash(units.drop_last()), 31), units.last() as i32)
    }
}

/// The hash Java's `String.hashCode` gives `data`.
pub fn java_string_hash(data: &str) -> (r: i32)
    ensures
        r == spec_java_hash(spec_utf16_encode(data@)),
{
    let units = encode_utf16(data);
    let mut h: i32 = 0;
    let mut i: usize = 0;
    proof {
        assert(units@.take(0) =~= Seq::<u16>::empty());
    }
    while i < units.len()
        invariant
            i <= units@.len(),
            h == spec_java_hash(units@.take(i as int)),
        decreases units@.len() - i,
    {
        proof {
            assert(units@.take(i + 1).drop_last() =~= units@.take(i as int));
            assert(units@.take(i + 1).last() == units@[i as int]);
        }
        h = h.wrapping_mul(31).wrapping_add(units[i] as i32);
        i = i + 1;
    }
    proof {
        assert(units@.take(units@.len() as int) =~= units@);
    }
    h
}

} // verus!
