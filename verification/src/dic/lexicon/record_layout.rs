//! The layout in which a dictionary stores a word information record, and
//! the law that reading a record gives back what was stored.

use vstd::prelude::*;

use crate::dic::build::primitives::{
    lemma_u32s_at_bytes, lemma_u32s_bytes_len, lemma_utf16_bytes_len, lemma_utf16_string_roundtrip,
    spec_u32_bytes, spec_u32s_bytes, MAX_UTF16_LEN,
};
use crate::dic::lexicon::word_infos::{spec_record_at, WordInfoModel};
use crate::dic::read::{
    spec_i32_of, spec_len_prefix_bytes, spec_len_prefix_ok, spec_len_prefix_size, spec_len_prefix_value,
    spec_u16_le, spec_u32_array_at, spec_u32_le, spec_utf16_encode, spec_utf16_string_at,
    spec_utf16_string_bytes, spec_units_at,
};

verus! {

/// Little-endian bytes of a 16-bit value.
pub open spec fn spec_u16_bytes(v: int) -> Seq<u8> {
    seq![(v % 256) as u8, (v / 256) as u8]
}

/// Little-endian two's complement bytes of a 32-bit signed value.
pub open spec fn spec_i32_bytes(v: int) -> Seq<u8> {
    spec_u32_bytes(
        (if v < 0 {
            v + 0x1_0000_0000
        } else {
            v
        }) as u32,
    )
}

/// A `u32` array as stored: a count byte, then the values.
pub open spec fn spec_u32_array_bytes(vs: Seq<u32>) -> Seq<u8> {
    seq![vs.len() as u8] + spec_u32s_bytes(vs)
}

/// The bytes a dictionary stores for the word information `m`, in the
/// order of the record: surface, head word length, part of speech id,
/// normalized form, dictionary form word id, reading form, A-unit split,
/// B-unit split, word structure, and the synonym group ids when the
/// dictionary has them.
pub open spec fn spec_record_bytes(m: WordInfoModel, has_syn: bool) -> Seq<u8> {
    spec_utf16_string_bytes(m.surface) + spec_len_prefix_bytes(m.head_word_length) + spec_u16_bytes(m.pos_id)
        + spec_utf16_string_bytes(m.normalized_form) + spec_i32_bytes(m.dictionary_form_word_id)
        + spec_utf16_string_bytes(m.reading_form) + spec_u32_array_bytes(m.a_unit_split)
        + spec_u32_array_bytes(m.b_unit_split) + spec_u32_array_bytes(m.word_structure) + (if has_syn {
        spec_u32_array_bytes(m.synonym_group_ids)
    } else {
        Seq::<u8>::empty()
    })
}

/// Whether `m` can be stored as a record: its strings and lists fit their
/// length fields, its numbers their widths, it has no synonym groups when
/// the dictionary keeps none, and its dictionary form (which a record does
/// not hold) is empty.
pub open spec fn spec_record_storable(m: WordInfoModel, has_syn: bool) -> bool {
    &&& spec_utf16_encode(m.surface).len() <= MAX_UTF16_LEN
    &&& spec_utf16_encode(m.normalized_form).len() <= MAX_UTF16_LEN
    &&& spec_utf16_encode(m.reading_form).len() <= MAX_UTF16_LEN
    &&& 0 <= m.head_word_length <= MAX_UTF16_LEN
    &&& 0 <= m.pos_id <= 65535
    &&& -0x8000_0000 <= m.dictionary_form_word_id <= 0x7FFF_FFFF
    &&& m.a_unit_split.len() <= 127
    &&& m.b_unit_split.len() <= 127
    &&& m.word_structure.len() <= 127
    &&& m.synonym_group_ids.len() <= 127
    &&& !has_syn ==> m.synonym_group_ids.len() == 0
    &&& m.dictionary_form.len() == 0
}

/// A stored string is read back at its position.
proof fn lemma_string_read(s: Seq<u8>, p: int, cs: Seq<char>)
    requires
        0 <= p,
        spec_utf16_encode(cs).len() <= MAX_UTF16_LEN,
        p + spec_utf16_string_bytes(cs).len() <= s.len(),
        s.subrange(p, p + spec_utf16_string_bytes(cs).len()) == spec_utf16_string_bytes(cs),
    ensures
        spec_utf16_string_at(s, p) == Some((cs, p + spec_utf16_string_bytes(cs).len())),
{
    let bl = spec_utf16_string_bytes(cs).len() as int;
    let t = s.skip(p);
    assert(t =~= spec_utf16_string_bytes(cs) + s.skip(p + bl));
    lemma_utf16_string_roundtrip(cs, s.skip(p + bl));
    assert(spec_utf16_string_at(t, 0) == Some((cs, bl)));
    assert(t[0] == s[p]);
    let sz = spec_len_prefix_size(t, 0);
    if sz == 2 {
        assert(t[1] == s[p + 1]);
    }
    assert(spec_len_prefix_ok(s, p));
    assert(spec_len_prefix_size(s, p) == sz);
    assert(spec_len_prefix_value(s, p) == spec_len_prefix_value(t, 0));
    let n = spec_len_prefix_value(t, 0);
    assert(sz + 2 * n <= t.len());
    assert(spec_units_at(s, p + sz, n) =~= spec_units_at(t, sz, n)) by {
        assert forall|j: int| 0 <= j < n implies #[trigger] spec_units_at(s, p + sz, n)[j] == spec_units_at(
            t,
            sz,
            n,
        )[j] by {
            assert(t[sz + 2 * j] == s[p + sz + 2 * j]);
            assert(t[sz + 2 * j + 1] == s[p + sz + 2 * j + 1]);
        }
    }
}

/// A stored length prefix is read back at its position.
proof fn lemma_len_prefix_read(s: Seq<u8>, p: int, v: int)
    requires
        0 <= p,
        0 <= v <= MAX_UTF16_LEN,
        p + spec_len_prefix_bytes(v).len() <= s.len(),
        s.subrange(p, p + spec_len_prefix_bytes(v).len()) == spec_len_prefix_bytes(v),
    ensures
        spec_len_prefix_ok(s, p),
        spec_len_prefix_value(s, p) == v,
        spec_len_prefix_size(s, p) == spec_len_prefix_bytes(v).len(),
{
    let b = spec_len_prefix_bytes(v);
    assert(s[p] == b[0]);
    if v >= 127 {
        assert(s[p + 1] == b[1]);
        assert((v / 256) * 256 + v % 256 == v) by (nonlinear_arith);
        assert(v / 256 <= 127) by (nonlinear_arith)
            requires
                v <= 32767,
        ;
    }
}

/// A stored 16-bit value is read back at its position.
proof fn lemma_u16_read(s: Seq<u8>, p: int, v: int)
    requires
        0 <= p,
        0 <= v <= 65535,
        p + 2 <= s.len(),
        s.subrange(p, p + 2) == spec_u16_bytes(v),
    ensures
        spec_u16_le(s, p) == v,
{
    assert(s[p] == spec_u16_bytes(v)[0]);
    assert(s[p + 1] == spec_u16_bytes(v)[1]);
    assert((v / 256) * 256 + v % 256 == v) by (nonlinear_arith);
    assert(v / 256 <= 255) by (nonlinear_arith)
        requires
            v <= 65535,
    ;
}

/// A stored 32-bit signed value is read back at its position.
proof fn lemma_i32_read(s: Seq<u8>, p: int, v: int)
    requires
        0 <= p,
        -0x8000_0000 <= v <= 0x7FFF_FFFF,
        p + 4 <= s.len(),
        s.subrange(p, p + 4) == spec_i32_bytes(v),
    ensures
        spec_i32_of(spec_u32_le(s, p)) == v,
{
    let u = (if v < 0 {
        v + 0x1_0000_0000
    } else {
        v
    }) as u32;
    let b = spec_u32_bytes(u);
    assert(s[p] == b[0]);
    assert(s[p + 1] == b[1]);
    assert(s[p + 2] == b[2]);
    assert(s[p + 3] == b[3]);
    let ui = u as int;
    assert(ui % 256 + 256 * ((ui / 256) % 256) + 65536 * (((ui / 65536) % 256) + 256 * (ui / 16777216)) == ui)
        by (nonlinear_arith)
        requires
            0 <= ui < 0x1_0000_0000,
    ;
    assert(ui / 16777216 <= 255) by (nonlinear_arith)
        requires
            0 <= ui < 0x1_0000_0000,
    ;
}

/// A stored `u32` array is read back at its position.
proof fn lemma_array_read(s: Seq<u8>, p: int, vs: Seq<u32>)
    requires
        0 <= p,
        vs.len() <= 127,
        p + spec_u32_array_bytes(vs).len() <= s.len(),
        s.subrange(p, p + spec_u32_array_bytes(vs).len()) == spec_u32_array_bytes(vs),
    ensures
        spec_u32_array_at(s, p) == Some((vs, p + spec_u32_array_bytes(vs).len())),
{
    lemma_u32s_bytes_len(vs);
    let bl = spec_u32_array_bytes(vs).len() as int;
    assert(s[p] == spec_u32_array_bytes(vs)[0]);
    assert(s =~= s.take(p + 1) + spec_u32s_bytes(vs) + s.skip(p + bl)) by {
        assert forall|i: int| p + 1 <= i < p + bl implies s[i] == spec_u32s_bytes(vs)[i - p - 1] by {
            assert(s.subrange(p, p + bl)[i - p] == s[i]);
        }
    }
    lemma_u32s_at_bytes(vs, s.take(p + 1), s.skip(p + bl));
}

/// `b` sits in `pre + b + tail` right after `pre`.
proof fn lemma_piece(pre: Seq<u8>, b: Seq<u8>, tail: Seq<u8>)
    ensures
        (pre + b + tail).subrange(pre.len() as int, (pre.len() + b.len()) as int) == b,
{
    assert((pre + b + tail).subrange(pre.len() as int, (pre.len() + b.len()) as int) =~= b);
}

/// Reading the record stored for `m` gives back `m`, field by field: the
/// A-unit split stored first is read as the A-unit split, the B-unit split
/// stored after it as the B-unit split, and so on for every field.
/// The bytes of the fields of `m`, in record order.
pub open spec fn spec_field_bytes(m: WordInfoModel, has_syn: bool) -> Seq<Seq<u8>> {
    seq![
        spec_utf16_string_bytes(m.surface),
        spec_len_prefix_bytes(m.head_word_length),
        spec_u16_bytes(m.pos_id),
        spec_utf16_string_bytes(m.normalized_form),
        spec_i32_bytes(m.dictionary_form_word_id),
        spec_utf16_string_bytes(m.reading_form),
        spec_u32_array_bytes(m.a_unit_split),
        spec_u32_array_bytes(m.b_unit_split),
        spec_u32_array_bytes(m.word_structure),
        if has_syn {
            spec_u32_array_bytes(m.synonym_group_ids)
        } else {
            Seq::<u8>::empty()
        },
    ]
}

/// The first `k` pieces of `fs`, joined.
pub open spec fn spec_join(fs: Seq<Seq<u8>>, k: int) -> Seq<u8>
    decreases k,
{
    if k <= 0 {
        Seq::empty()
    } else {
        spec_join(fs, k - 1) + fs[k - 1]
    }
}

/// In the joined pieces followed by anything, piece `k` sits right after
/// the first `k` pieces.
proof fn lemma_join_piece(fs: Seq<Seq<u8>>, n: int, k: int, rest: Seq<u8>)
    requires
        0 <= k < n <= fs.len(),
    ensures
        (spec_join(fs, n) + rest).subrange(
            spec_join(fs, k).len() as int,
            (spec_join(fs, k).len() + fs[k].len()) as int,
        ) == fs[k],
        spec_join(fs, k + 1).len() == spec_join(fs, k).len() + fs[k].len(),
        spec_join(fs, k).len() + fs[k].len() <= spec_join(fs, n).len(),
    decreases n - k,
{
    if n == k + 1 {
        lemma_piece(spec_join(fs, k), fs[k], rest);
    } else {
        lemma_join_piece(fs, n - 1, k, fs[n - 1] + rest);
        assert(spec_join(fs, n) + rest =~= spec_join(fs, n - 1) + (fs[n - 1] + rest));
    }
}

/// The record of `m` is its field bytes joined.
proof fn lemma_record_is_join(m: WordInfoModel, has_syn: bool)
    ensures
        spec_record_bytes(m, has_syn) == spec_join(spec_field_bytes(m, has_syn), 10),
{
    let fs = spec_field_bytes(m, has_syn);
    reveal_with_fuel(spec_join, 11);
    assert(spec_record_bytes(m, has_syn) =~= spec_join(fs, 10));
}

/// Reading the record stored for `m` gives back `m`, field by field: the
/// A-unit split stored first is read as the A-unit split, the B-unit split
/// stored after it as the B-unit split, and so on for every field.
#[verifier::spinoff_prover]
#[verifier::rlimit(100)]
pub proof fn lemma_record_reads_back(m: WordInfoModel, has_syn: bool, rest: Seq<u8>)
    requires
        spec_record_storable(m, has_syn),
    ensures
        spec_record_at(spec_record_bytes(m, has_syn) + rest, 0, has_syn) == Some(m),
{
    let fs = spec_field_bytes(m, has_syn);
    lemma_record_is_join(m, has_syn);
    let s = spec_join(fs, 10) + rest;
    lemma_join_piece(fs, 10, 0, rest);
    lemma_join_piece(fs, 10, 1, rest);
    lemma_join_piece(fs, 10, 2, rest);
    lemma_join_piece(fs, 10, 3, rest);
    lemma_join_piece(fs, 10, 4, rest);
    lemma_join_piece(fs, 10, 5, rest);
    lemma_join_piece(fs, 10, 6, rest);
    lemma_join_piece(fs, 10, 7, rest);
    lemma_join_piece(fs, 10, 8, rest);
    lemma_join_piece(fs, 10, 9, rest);
    let q1 = spec_join(fs, 1).len() as int;
    let q2 = spec_join(fs, 2).len() as int;
    let q3 = spec_join(fs, 3).len() as int;
    let q4 = spec_join(fs, 4).len() as int;
    let q5 = spec_join(fs, 5).len() as int;
    let q6 = spec_join(fs, 6).len() as int;
    let q7 = spec_join(fs, 7).len() as int;
    let q8 = spec_join(fs, 8).len() as int;
    let q9 = spec_join(fs, 9).len() as int;
    assert(spec_join(fs, 0).len() == 0);
    assert(fs[2].len() == 2);
    assert(fs[4].len() == 4);
    lemma_string_read(s, 0, m.surface);
    lemma_len_prefix_read(s, q1, m.head_word_length);
    lemma_u16_read(s, q2, m.pos_id);
    lemma_string_read(s, q3, m.normalized_form);
    lemma_i32_read(s, q4, m.dictionary_form_word_id);
    lemma_string_read(s, q5, m.reading_form);
    lemma_array_read(s, q6, m.a_unit_split);
    lemma_array_read(s, q7, m.b_unit_split);
    lemma_array_read(s, q8, m.word_structure);
    if has_syn {
        lemma_array_read(s, q9, m.synonym_group_ids);
    } else {
        assert(m.synonym_group_ids =~= Seq::<u32>::empty());
    }
    assert(m.dictionary_form =~= Seq::<char>::empty());
}

} // verus!
