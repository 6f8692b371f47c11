use vstd::prelude::*;
use vstd::string::StringExecFns;

use crate::dic::read::string_push;

verus! {

/// A set of character categories, as a 32-bit set.
#[derive(Clone, Copy, PartialEq, Eq, Structural, Hash, Debug)]
pub struct CategoryType(u32);

/// Number of set bits of `x`.
pub open spec fn spec_popcount(x: u32) -> nat
    decreases x,
{
    if x == 0 {
        0
    } else {
        (x % 2) as nat + spec_popcount(x / 2)
    }
}

impl View for CategoryType {
    type V = u32;

    closed spec fn view(&self) -> u32 {
        self.0
    }
}

/// Bit of each named category.
/// Bits of `DEFAULT`: The fall back category.
pub const DEFAULT_BITS: u32 = 1;

/// Bits of `SPACE`: White spaces.
pub const SPACE_BITS: u32 = 2;

/// Bits of `KANJI`: CJKV ideographic characters.
pub const KANJI_BITS: u32 = 4;

/// Bits of `SYMBOL`: Symbols.
pub const SYMBOL_BITS: u32 = 8;

/// Bits of `NUMERIC`: Numerical characters.
pub const NUMERIC_BITS: u32 = 16;

/// Bits of `ALPHA`: Latin alphabets.
pub const ALPHA_BITS: u32 = 32;

/// Bits of `HIRAGANA`: Hiragana characters.
pub const HIRAGANA_BITS: u32 = 64;

/// Bits of `KATAKANA`: Katakana characters.
pub const KATAKANA_BITS: u32 = 128;

/// Bits of `KANJINUMERIC`: Kanji numeric characters.
pub const KANJINUMERIC_BITS: u32 = 256;

/// Bits of `GREEK`: Greek alphabets.
pub const GREEK_BITS: u32 = 512;

/// Bits of `CYRILLIC`: Cyrillic alphabets.
pub const CYRILLIC_BITS: u32 = 1024;

/// Bits of `USER1`: User defined category.
pub const USER1_BITS: u32 = 2048;

/// Bits of `USER2`: User defined category.
pub const USER2_BITS: u32 = 4096;

/// Bits of `USER3`: User defined category.
pub const USER3_BITS: u32 = 8192;

/// Bits of `USER4`: User defined category.
pub const USER4_BITS: u32 = 16384;

/// Bits of `NOOOVBOW`: This character cannot be the beginning of an OOV word
pub const NOOOVBOW_BITS: u32 = 0x4000_0000;

/// Bits of `NOOOVBOW2`: This and next characters cannot be the beginning of an OOV word
pub const NOOOVBOW2_BITS: u32 = 0x8000_0000;

/// Bits of `ALL`: All categories at once except NOOOVBOW/2
pub const ALL_BITS: u32 = 0x3fff_ffff;

impl CategoryType {
    /// The fall back category.
    pub fn default() -> (r: CategoryType)
        ensures
            r@ == DEFAULT_BITS,
    {
        CategoryType(DEFAULT_BITS)
    }

    /// White spaces.
    pub fn space() -> (r: CategoryType)
        ensures
            r@ == SPACE_BITS,
    {
        CategoryType(SPACE_BITS)
    }

    /// CJKV ideographic characters.
    pub fn kanji() -> (r: CategoryType)
        ensures
            r@ == KANJI_BITS,
    {
        CategoryType(KANJI_BITS)
    }

    /// Symbols.
    pub fn symbol() -> (r: CategoryType)
        ensures
            r@ == SYMBOL_BITS,
    {
        CategoryType(SYMBOL_BITS)
    }

    /// Numerical characters.
    pub fn numeric() -> (r: CategoryType)
        ensures
            r@ == NUMERIC_BITS,
    {
        CategoryType(NUMERIC_BITS)
    }

    /// Latin alphabets.
    pub fn alpha() -> (r: CategoryType)
        ensures
            r@ == ALPHA_BITS,
    {
        CategoryType(ALPHA_BITS)
    }

    /// Hiragana characters.
    pub fn hiragana() -> (r: CategoryType)
        ensures
            r@ == HIRAGANA_BITS,
    {
        CategoryType(HIRAGANA_BITS)
    }

    /// Katakana characters.
    pub fn katakana() -> (r: CategoryType)
        ensures
            r@ == KATAKANA_BITS,
    {
        CategoryType(KATAKANA_BITS)
    }

    /// Kanji numeric characters.
    pub fn kanjinumeric() -> (r: CategoryType)
        ensures
            r@ == KANJINUMERIC_BITS,
    {
        CategoryType(KANJINUMERIC_BITS)
    }

    /// Greek alphabets.
    pub fn greek() -> (r: CategoryType)
        ensures
            r@ == GREEK_BITS,
    {
        CategoryType(GREEK_BITS)
    }

    /// Cyrillic alphabets.
    pub fn cyrillic() -> (r: CategoryType)
        ensures
            r@ == CYRILLIC_BITS,
    {
        CategoryType(CYRILLIC_BITS)
    }

    /// User defined category.
    pub fn user1() -> (r: CategoryType)
        ensures
            r@ == USER1_BITS,
    {
        CategoryType(USER1_BITS)
    }

    /// User defined category.
    pub fn user2() -> (r: CategoryType)
        ensures
            r@ == USER2_BITS,
    {
        CategoryType(USER2_BITS)
    }

    /// User defined category.
    pub fn user3() -> (r: CategoryType)
        ensures
            r@ == USER3_BITS,
    {
        CategoryType(USER3_BITS)
    }

    /// User defined category.
    pub fn user4() -> (r: CategoryType)
        ensures
            r@ == USER4_BITS,
    {
        CategoryType(USER4_BITS)
    }

    /// This character cannot be the beginning of an OOV word
    pub fn nooovbow() -> (r: CategoryType)
        ensures
            r@ == NOOOVBOW_BITS,
    {
        CategoryType(NOOOVBOW_BITS)
    }

    /// This and next characters cannot be the beginning of an OOV word
    pub fn nooovbow2() -> (r: CategoryType)
        ensures
            r@ == NOOOVBOW2_BITS,
    {
        CategoryType(NOOOVBOW2_BITS)
    }

    /// All categories at once except NOOOVBOW/2
    pub fn all() -> (r: CategoryType)
        ensures
            r@ == ALL_BITS,
    {
        CategoryType(ALL_BITS)
    }

}


/// Number of named categories, the composite `ALL` last.
pub const NUM_NAMED: usize = 18;

/// Bits of the `i`-th named category, in declaration order.
pub open spec fn spec_named_bits(i: int) -> u32 {
    if i == 0 {
        DEFAULT_BITS
    } else if i == 1 {
        SPACE_BITS
    } else if i == 2 {
        KANJI_BITS
    } else if i == 3 {
        SYMBOL_BITS
    } else if i == 4 {
        NUMERIC_BITS
    } else if i == 5 {
        ALPHA_BITS
    } else if i == 6 {
        HIRAGANA_BITS
    } else if i == 7 {
        KATAKANA_BITS
    } else if i == 8 {
        KANJINUMERIC_BITS
    } else if i == 9 {
        GREEK_BITS
    } else if i == 10 {
        CYRILLIC_BITS
    } else if i == 11 {
        USER1_BITS
    } else if i == 12 {
        USER2_BITS
    } else if i == 13 {
        USER3_BITS
    } else if i == 14 {
        USER4_BITS
    } else if i == 15 {
        NOOOVBOW_BITS
    } else if i == 16 {
        NOOOVBOW2_BITS
    } else {
        ALL_BITS
    }
}

/// Bits and name of the `i`-th named category.
fn named(i: usize) -> (r: (u32, &'static str))
    requires
        i < NUM_NAMED,
    ensures
        r.0 == spec_named_bits(i as int),
        r.1@ == spec_name(i as int),
{
    match i {
        0 => (DEFAULT_BITS, "DEFAULT"),
        1 => (SPACE_BITS, "SPACE"),
        2 => (KANJI_BITS, "KANJI"),
        3 => (SYMBOL_BITS, "SYMBOL"),
        4 => (NUMERIC_BITS, "NUMERIC"),
        5 => (ALPHA_BITS, "ALPHA"),
        6 => (HIRAGANA_BITS, "HIRAGANA"),
        7 => (KATAKANA_BITS, "KATAKANA"),
        8 => (KANJINUMERIC_BITS, "KANJINUMERIC"),
        9 => (GREEK_BITS, "GREEK"),
        10 => (CYRILLIC_BITS, "CYRILLIC"),
        11 => (USER1_BITS, "USER1"),
        12 => (USER2_BITS, "USER2"),
        13 => (USER3_BITS, "USER3"),
        14 => (USER4_BITS, "USER4"),
        15 => (NOOOVBOW_BITS, "NOOOVBOW"),
        16 => (NOOOVBOW2_BITS, "NOOOVBOW2"),
        _ => (ALL_BITS, "ALL"),
    }
}

/// Name of the `i`-th named category.
pub open spec fn spec_name(i: int) -> Seq<char> {
    if i == 0 {
        "DEFAULT"@
    } else if i == 1 {
        "SPACE"@
    } else if i == 2 {
        "KANJI"@
    } else if i == 3 {
        "SYMBOL"@
    } else if i == 4 {
        "NUMERIC"@
    } else if i == 5 {
        "ALPHA"@
    } else if i == 6 {
        "HIRAGANA"@
    } else if i == 7 {
        "KATAKANA"@
    } else if i == 8 {
        "KANJINUMERIC"@
    } else if i == 9 {
        "GREEK"@
    } else if i == 10 {
        "CYRILLIC"@
    } else if i == 11 {
        "USER1"@
    } else if i == 12 {
        "USER2"@
    } else if i == 13 {
        "USER3"@
    } else if i == 14 {
        "USER4"@
    } else if i == 15 {
        "NOOOVBOW"@
    } else if i == 16 {
        "NOOOVBOW2"@
    } else {
        "ALL"@
    }
}

/// Text of a set from the `i`-th named category on: the names of the
/// categories contained in `source` that still intersect `remaining`, each
/// preceded by `" | "` unless it is the first (`first`), then the bits left
/// over in lower-case hexadecimal after `"0x"`.
pub open spec fn spec_debug_from(source: u32, remaining: u32, i: int, first: bool) -> Seq<char>
    decreases NUM_NAMED - i,
{
    if remaining == 0 {
        seq![]
    } else if i >= NUM_NAMED {
        (if first {
            seq![]
        } else {
            " | "@
        }) + "0x"@ + spec_hex(remaining)
    } else {
        let b = spec_named_bits(i);
        if source & b == b && remaining & b != 0 {
            (if first {
                seq![]
            } else {
                " | "@
            }) + spec_name(i) + spec_debug_from(source, remaining & !b, i + 1, false)
        } else {
            spec_debug_from(source, remaining, i + 1, first)
        }
    }
}

/// Lower-case hexadecimal digits of `v`, without leading zeros (`"0"` for zero).
pub open spec fn spec_hex(v: u32) -> Seq<char>
    decreases v,
{
    if v < 16 {
        seq![spec_hex_digit(v)]
    } else {
        spec_hex(v / 16).push(spec_hex_digit(v % 16))
    }
}

/// Lower-case hexadecimal digit of `d < 16`.
pub open spec fn spec_hex_digit(d: u32) -> char {
    if d < 10 {
        ((d + 48) as u8) as char
    } else {
        ((d + 87) as u8) as char
    }
}

fn hex_digit(d: u32) -> (r: char)
    requires
        d < 16,
    ensures
        r == spec_hex_digit(d),
{
    match d {
        0 => '0',
        1 => '1',
        2 => '2',
        3 => '3',
        4 => '4',
        5 => '5',
        6 => '6',
        7 => '7',
        8 => '8',
        9 => '9',
        10 => 'a',
        11 => 'b',
        12 => 'c',
        13 => 'd',
        14 => 'e',
        _ => 'f',
    }
}

fn push_hex(out: &mut String, v: u32)
    ensures
        final(out)@ == old(out)@ + spec_hex(v),
    decreases v,
{
    if v < 16 {
        string_push(out, hex_digit(v));
        assert(final(out)@ =~= old(out)@ + spec_hex(v));
    } else {
        push_hex(out, v / 16);
        string_push(out, hex_digit(v % 16));
        assert(final(out)@ =~= old(out)@ + spec_hex(v));
    }
}

impl CategoryType {
    /// Raw bits of the set.
    pub fn bits(&self) -> (r: u32)
        ensures
            r == self@,
    {
        self.0
    }

    /// The set with exactly the given bits.
    pub fn from_bits_retain(bits: u32) -> (r: CategoryType)
        ensures
            r@ == bits,
    {
        CategoryType(bits)
    }

    /// The empty set.
    pub fn empty() -> (r: CategoryType)
        ensures
            r@ == 0,
    {
        CategoryType(0)
    }

    /// Whether every category of `other` is in the set.
    pub fn contains(&self, other: CategoryType) -> (r: bool)
        ensures
            r == (self@ & other@ == other@),
    {
        self.0 & other.0 == other.0
    }

    /// Whether the set shares a category with `other`.
    pub fn intersects(&self, other: CategoryType) -> (r: bool)
        ensures
            r == (self@ & other@ != 0),
    {
        self.0 & other.0 != 0
    }

    /// Union of two sets.
    pub fn union(&self, other: CategoryType) -> (r: CategoryType)
        ensures
            r@ == self@ | other@,
    {
        CategoryType(self.0 | other.0)
    }

    /// Number of categories in the set.
    pub fn count(self) -> (r: u32)
        ensures
            r == spec_popcount(self@),
    {
        let mut x = self.0;
        let mut n: u32 = 0;
        proof {
            reveal_with_fuel(pow2, 33);
            assert(pow2(32) == 0x1_0000_0000);
            lemma_popcount_le(self.0, 32);
        }
        while x != 0
            invariant
                n + spec_popcount(x) == spec_popcount(self@),
                spec_popcount(self@) <= 32,
            decreases x,
        {
            n = n + x % 2;
            x = x / 2;
        }
        n
    }

    /// The default set: `DEFAULT` alone.
    pub fn default_value() -> (r: CategoryType)
        ensures
            r@ == DEFAULT_BITS,
    {
        CategoryType(DEFAULT_BITS)
    }

    /// Text of the set: the names of its categories in declaration order,
    /// separated by `" | "`, then any unnamed bits in hexadecimal.
    pub fn to_debug_string(&self) -> (r: String)
        ensures
            r@ == spec_debug_from(self@, self@, 0, true),
    {
        let source = self.0;
        let mut remaining = self.0;
        let mut first = true;
        let mut out = String::new();
        let mut i: usize = 0;
        while i < NUM_NAMED
            invariant
                i <= NUM_NAMED,
                source == self@,
                out@ + spec_debug_from(source, remaining, i as int, first) == spec_debug_from(
                    source,
                    source,
                    0,
                    true,
                ),
            decreases NUM_NAMED - i,
        {
            if remaining == 0 {
                proof {
                    assert(spec_debug_from(source, remaining, i as int, first) == Seq::<char>::empty());
                    assert(out@ + Seq::<char>::empty() =~= out@);
                }
                return out;
            }
            let (b, name) = named(i);
            let ghost before = out@;
            if source & b == b && remaining & b != 0 {
                if !first {
                    out.append(" | ");
                }
                out.append(name);
                proof {
                    let sep = if first {
                        Seq::<char>::empty()
                    } else {
                        " | "@
                    };
                    assert(out@ == before + sep + spec_name(i as int));
                    assert(before + (sep + spec_name(i as int) + spec_debug_from(
                        source,
                        remaining & !b,
                        i + 1,
                        false,
                    )) =~= out@ + spec_debug_from(source, remaining & !b, i + 1, false));
                }
                remaining = remaining & !b;
                first = false;
            }
            i = i + 1;
        }
        if remaining != 0 {
            let ghost before = out@;
            if !first {
                out.append(" | ");
            }
            out.append("0x");
            push_hex(&mut out, remaining);
            proof {
                let sep = if first {
                    Seq::<char>::empty()
                } else {
                    " | "@
                };
                assert(out@ =~= before + (sep + "0x"@ + spec_hex(remaining)));
            }
        } else {
            proof {
                assert(out@ =~= out@ + Seq::<char>::empty());
            }
        }
        out
    }
}

/// The categories of a set from the `i`-th named category on: each named
/// category contained in `source` that still intersects `remaining`, in
/// declaration order, then the bits left over as one set.
pub open spec fn spec_iter_from(source: u32, remaining: u32, i: int) -> Seq<u32>
    decreases NUM_NAMED - i,
{
    if remaining == 0 {
        seq![]
    } else if i >= NUM_NAMED {
        seq![remaining]
    } else {
        let b = spec_named_bits(i);
        if source & b == b && remaining & b != 0 {
            seq![b] + spec_iter_from(source, remaining & !b, i + 1)
        } else {
            spec_iter_from(source, remaining, i + 1)
        }
    }
}

impl CategoryType {
    /// The categories of the set: its named categories in declaration order,
    /// a composite one only for bits not yet given, then the unnamed bits
    /// left over as one set.
    pub fn iter(&self) -> (r: Vec<CategoryType>)
        ensures
            r@.len() == spec_iter_from(self@, self@, 0).len(),
            forall|k: int|
                0 <= k < r@.len() ==> (#[trigger] r@[k])@ == spec_iter_from(self@, self@, 0)[k],
    {
        let source = self.0;
        let mut remaining = self.0;
        let mut out: Vec<CategoryType> = Vec::new();
        let mut i: usize = 0;
        while i < NUM_NAMED
            invariant
                i <= NUM_NAMED,
                source == self@,
                out@.map_values(|c: CategoryType| c@) + spec_iter_from(source, remaining, i as int)
                    == spec_iter_from(source, source, 0),
            decreases NUM_NAMED - i,
        {
            if remaining == 0 {
                proof {
                    assert(out@.map_values(|c: CategoryType| c@) + Seq::<u32>::empty()
                        =~= out@.map_values(|c: CategoryType| c@));
                }
                return out;
            }
            let (b, _name) = named(i);
            if source & b == b && remaining & b != 0 {
                let ghost before = out@.map_values(|c: CategoryType| c@);
                out.push(CategoryType(b));
                proof {
                    assert(out@.map_values(|c: CategoryType| c@) =~= before.push(b));
                    assert(before + (seq![b] + spec_iter_from(source, remaining & !b, i + 1))
                        =~= before.push(b) + spec_iter_from(source, remaining & !b, i + 1));
                }
                remaining = remaining & !b;
            }
            i = i + 1;
        }
        if remaining != 0 {
            let ghost before = out@.map_values(|c: CategoryType| c@);
            out.push(CategoryType(remaining));
            proof {
                assert(out@.map_values(|c: CategoryType| c@) =~= before + seq![remaining]);
            }
        } else {
            proof {
                assert(out@.map_values(|c: CategoryType| c@) + Seq::<u32>::empty()
                    =~= out@.map_values(|c: CategoryType| c@));
            }
        }
        proof {
            assert forall|k: int| 0 <= k < out@.len() implies (#[trigger] out@[k])@
                == spec_iter_from(self@, self@, 0)[k] by {
                assert(out@.map_values(|c: CategoryType| c@)[k] == out@[k]@);
            }
        }
        out
    }
}

proof fn lemma_popcount_le(x: u32, k: nat)
    requires
        (x as int) < pow2(k),
    ensures
        spec_popcount(x) <= k,
    decreases x,
{
    if x > 0 {
        assert(k > 0) by {
            if k == 0 {
                assert(pow2(0) == 1);
            }
        }
        assert(pow2(k) == 2 * pow2((k - 1) as nat));
        lemma_popcount_le(x / 2, (k - 1) as nat);
    }
}

/// Two to the power `k`.
pub open spec fn pow2(k: nat) -> int
    decreases k,
{
    if k == 0 {
        1
    } else {
        2 * pow2((k - 1) as nat)
    }
}

} // verus!
