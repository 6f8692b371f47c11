//! Resolution of the references of a lexicon entry to entries of the
//! dictionaries.

use vstd::prelude::*;
use vstd::string::StringExecFns;

use crate::dic::build::lexicon::entry::{ParsedLexiconEntry, ResolvedLexiconEntry};
use crate::dic::build::lexicon::{spec_opt_string, ResolvedWordRef, WordRef, WordRefResolver};
use crate::dic::build::primitives::str_eq;
use crate::dic::word_id::{WordRef as DicWordRef, MAX_WORD};
use crate::util::decimal_string;

verus! {

/// Bits by which the byte offset of an entry record exceeds its entry id.
pub const WORD_ID_ALIGNMENT_BITS: usize = 3;

/// The entry that `resolver` gives for `w`; none for a reference to the
/// entry itself.
pub open spec fn spec_resolved<R: WordRefResolver>(resolver: &R, w: WordRef) -> Option<DicWordRef> {
    match w {
        WordRef::SelfRef => None,
        WordRef::LineRef(line_ref) => resolver.spec_by_line_ref(line_ref),
        WordRef::Headword(h) => resolver.spec_by_headword(h@),
        WordRef::EntryKey { headword, pos, reading, reference_id } => resolver.spec_by_entry_key(
            headword@,
            pos,
            spec_opt_string(reading),
            spec_opt_string(reference_id),
        ),
    }
}

/// Whether every reference of `refs` names an entry.
pub open spec fn spec_refs_ok<R: WordRefResolver>(resolver: &R, refs: Seq<WordRef>) -> bool {
    forall|i: int| 0 <= i < refs.len() ==> (#[trigger] spec_resolved(resolver, refs[i])) is Some
}

/// The entries the references of `refs` name.
pub open spec fn spec_refs<R: WordRefResolver>(resolver: &R, refs: Seq<WordRef>) -> Seq<DicWordRef> {
    refs.map_values(|w: WordRef| spec_resolved(resolver, w)->0)
}

/// The entry of the first phantom entry with head word `h`.
pub open spec fn spec_phantom_find(phantom: Seq<(String, DicWordRef)>, h: Seq<char>) -> Option<DicWordRef>
    decreases phantom.len(),
{
    if phantom.len() == 0 {
        None
    } else if phantom[0].0@ == h {
        Some(phantom[0].1)
    } else {
        spec_phantom_find(phantom.drop_first(), h)
    }
}

/// The reference a phantom entry placed at byte offset `offset` gets.
pub open spec fn spec_phantom_ref(offset: usize, user: bool) -> DicWordRef {
    DicWordRef::spec_new(!user, (offset >> WORD_ID_ALIGNMENT_BITS) as u32)
}

/// Whether a reference to a dictionary form names an entry (or the entry
/// itself).
pub open spec fn spec_ref_ok<R: WordRefResolver>(resolver: &R, w: WordRef) -> bool {
    w is SelfRef || spec_resolved(resolver, w) is Some
}

/// Whether a reference to a normalized form can be resolved: a head word
/// always can, by a new phantom entry when nothing else has it.
pub open spec fn spec_norm_ok<R: WordRefResolver>(resolver: &R, w: WordRef) -> bool {
    w is SelfRef || w is Headword || spec_resolved(resolver, w) is Some
}

/// The resolved normalized form, and the head word of the phantom entry it
/// needs, if any.
pub open spec fn spec_norm<R: WordRefResolver>(
    resolver: &R,
    w: WordRef,
    phantom: Seq<(String, DicWordRef)>,
    offset: usize,
    user: bool,
) -> (ResolvedWordRef, Option<Seq<char>>) {
    match w {
        WordRef::SelfRef => (ResolvedWordRef::SelfRef, None),
        WordRef::Headword(h) => match resolver.spec_by_headword(h@) {
            Some(x) => (ResolvedWordRef::Ref(x), None),
            None => match spec_phantom_find(phantom, h@) {
                Some(x) => (ResolvedWordRef::Ref(x), None),
                None => (ResolvedWordRef::Ref(spec_phantom_ref(offset, user)), Some(h@)),
            },
        },
        _ => (ResolvedWordRef::Ref(spec_resolved(resolver, w)->0), None),
    }
}

/// The resolved dictionary form.
pub open spec fn spec_dic_form<R: WordRefResolver>(resolver: &R, w: WordRef) -> ResolvedWordRef {
    match w {
        WordRef::SelfRef => ResolvedWordRef::SelfRef,
        _ => ResolvedWordRef::Ref(spec_resolved(resolver, w)->0),
    }
}

/// Number of references of `e` resolved to other entries.
pub open spec fn spec_ref_count(e: ParsedLexiconEntry) -> int {
    (if e.norm_form is SelfRef {
        0int
    } else {
        1int
    }) + (if e.dic_form is SelfRef {
        0int
    } else {
        1int
    }) + e.splits_a@.len() + e.splits_b@.len() + e.splits_c@.len() + e.word_structure@.len()
}

/// The optional text of an optional string.
pub open spec fn spec_opt_text(o: Option<String>) -> Option<Seq<char>> {
    match o {
        Some(s) => Some(s@),
        None => None,
    }
}

/// The entry of the first phantom entry with head word `h`.
fn phantom_find(phantom: &Vec<(String, DicWordRef)>, h: &str) -> (r: Option<DicWordRef>)
    ensures
        r == spec_phantom_find(phantom@, h@),
{
    let mut i: usize = 0;
    proof {
        assert(phantom@.skip(0) =~= phantom@);
    }
    while i < phantom.len()
        invariant
            i <= phantom@.len(),
            spec_phantom_find(phantom@, h@) == spec_phantom_find(phantom@.skip(i as int), h@),
        decreases phantom@.len() - i,
    {
        proof {
            assert(phantom@.skip(i as int)[0] == phantom@[i as int]);
            assert(phantom@.skip(i as int).drop_first() =~= phantom@.skip(i + 1));
        }
        if str_eq(phantom[i].0.as_str(), h) {
            return Some(phantom[i].1);
        }
        i = i + 1;
    }
    proof {
        assert(phantom@.skip(i as int).len() == 0);
    }
    None
}

/// The entries the references of `word_refs` name, in order; the position
/// of the first reference that names none when there is one.
fn resolve_word_refs<R: WordRefResolver>(word_refs: &Vec<WordRef>, resolver: &R) -> (r: Result<
    Vec<DicWordRef>,
    usize,
>)
    ensures
        r is Ok <==> spec_refs_ok(resolver, word_refs@),
        r matches Ok(v) ==> v@ == spec_refs(resolver, word_refs@),
        r matches Err(i) ==> i < word_refs@.len() && spec_resolved(resolver, word_refs@[i as int]) is None,
{
    let mut out: Vec<DicWordRef> = Vec::new();
    let mut i: usize = 0;
    while i < word_refs.len()
        invariant
            i <= word_refs@.len(),
            spec_refs_ok(resolver, word_refs@.take(i as int)),
            out@ == spec_refs(resolver, word_refs@.take(i as int)),
        decreases word_refs@.len() - i,
    {
        let w = &word_refs[i];
        match resolver.resolve(w) {
            Some(x) => {
                proof {
                    assert(word_refs@.take(i + 1) =~= word_refs@.take(i as int).push(word_refs@[i as int]));
                }
                out.push(x);
                proof {
                    assert(out@ =~= spec_refs(resolver, word_refs@.take(i + 1)));
                    assert forall|k: int| 0 <= k < i + 1 implies (#[trigger] spec_resolved(
                        resolver,
                        word_refs@.take(i + 1)[k],
                    )) is Some by {
                        if k < i {
                            assert(word_refs@.take(i + 1)[k] == word_refs@.take(i as int)[k]);
                        }
                    }
                }
            },
            None => {
                proof {
                    assert(!spec_refs_ok(resolver, word_refs@)) by {
                        assert(spec_resolved(resolver, word_refs@[i as int]) is None);
                    }
                }
                return Err(i);
            },
        }
        i = i + 1;
    }
    proof {
        assert(word_refs@.take(i as int) =~= word_refs@);
    }
    Ok(out)
}

/// The text of a reference in an error message: the entry itself, a line
/// reference by its raw id, a head word, or an entry key as head word,
/// part of speech id, reading and reference id.
fn format_word_ref(word_ref: &WordRef) -> (r: String) {
    match word_ref {
        WordRef::SelfRef => String::from_str("<self>"),
        WordRef::LineRef(id) => {
            if id.entry() <= MAX_WORD {
                decimal_string(id.as_raw() as u64)
            } else {
                decimal_string(id.entry() as u64)
            }
        },
        WordRef::Headword(h) => h.clone(),
        WordRef::EntryKey { headword, pos, reading, reference_id } => {
            let mut s = headword.clone();
            s.append(",");
            s.append(decimal_string(*pos as u64).as_str());
            s.append(",");
            match reading {
                Some(r) => s.append(r.as_str()),
                None => s.append(headword.as_str()),
            }
            match reference_id {
                Some(rid) => {
                    s.append(",");
                    s.append(rid.as_str());
                },
                None => {},
            }
            s
        },
    }
}

/// Resolves the references of `entry`: the normalized form (a head word no
/// entry has yet becomes a phantom entry placed at byte offset
/// `next_phantom_offset`, found in `phantom` afterwards), the dictionary
/// form, the splits and the word structure. Returns the resolved entry, the
/// number of references resolved to other entries, and the head word of
/// the phantom entry needed, if any. An error, naming the reference, when a
/// reference names no entry.
pub fn resolve_entry<R: WordRefResolver>(
    entry: ParsedLexiconEntry,
    resolver: &R,
    phantom: &Vec<(String, DicWordRef)>,
    next_phantom_offset: usize,
    user: bool,
) -> (r: Result<(ResolvedLexiconEntry, usize, Option<String>), String>)
    requires
        spec_ref_count(entry) <= usize::MAX,
    ensures
        r is Ok <==> {
            &&& spec_norm_ok(resolver, entry.norm_form)
            &&& spec_ref_ok(resolver, entry.dic_form)
            &&& spec_refs_ok(resolver, entry.splits_a@)
            &&& spec_refs_ok(resolver, entry.splits_b@)
            &&& spec_refs_ok(resolver, entry.splits_c@)
            &&& spec_refs_ok(resolver, entry.word_structure@)
        },
        r matches Ok((e, count, ph)) ==> {
            let (norm, phantom_headword) = spec_norm(
                resolver,
                entry.norm_form,
                phantom@,
                next_phantom_offset,
                user,
            );
            &&& e.norm_form == norm
            &&& spec_opt_text(ph) == phantom_headword
            &&& e.dic_form == spec_dic_form(resolver, entry.dic_form)
            &&& e.splits_a@ == spec_refs(resolver, entry.splits_a@)
            &&& e.splits_b@ == spec_refs(resolver, entry.splits_b@)
            &&& e.splits_c@ == spec_refs(resolver, entry.splits_c@)
            &&& e.word_structure@ == spec_refs(resolver, entry.word_structure@)
            &&& count == spec_ref_count(entry)
            &&& e.left_id == entry.left_id
            &&& e.right_id == entry.right_id
            &&& e.cost == entry.cost
            &&& e.index_form == entry.index_form
            &&& e.headword == entry.headword
            &&& e.reference_id == entry.reference_id
            &&& e.pos == entry.pos
            &&& e.reading == entry.reading
            &&& e.splitting == entry.splitting
            &&& e.synonym_groups == entry.synonym_groups
            &&& e.user_data == entry.user_data
        },
{
    let mut total: usize = 0;
    let (norm_form, phantom_headword) = match &entry.norm_form {
        WordRef::SelfRef => (ResolvedWordRef::SelfRef, None),
        WordRef::Headword(headword) => {
            total = total + 1;
            let found = match resolver.resolve_by_headword(headword.as_str()) {
                Some(x) => Some(x),
                None => phantom_find(phantom, headword.as_str()),
            };
            match found {
                Some(x) => (ResolvedWordRef::Ref(x), None),
                None => {
                    let phantom_ref = DicWordRef::new(
                        !user,
                        (next_phantom_offset >> WORD_ID_ALIGNMENT_BITS) as u32,
                    );
                    (ResolvedWordRef::Ref(phantom_ref), Some(headword.clone()))
                },
            }
        },
        word_ref => match resolver.resolve(word_ref) {
            Some(x) => {
                total = total + 1;
                (ResolvedWordRef::Ref(x), None)
            },
            None => {
                return Err(format_word_ref(word_ref));
            },
        },
    };
    let dic_form = match &entry.dic_form {
        WordRef::SelfRef => ResolvedWordRef::SelfRef,
        other => match resolver.resolve(other) {
            Some(x) => {
                total = total + 1;
                ResolvedWordRef::Ref(x)
            },
            None => {
                return Err(format_word_ref(other));
            },
        },
    };
    let splits_a = match resolve_word_refs(&entry.splits_a, resolver) {
        Ok(v) => v,
        Err(i) => {
            return Err(format_word_ref(&entry.splits_a[i]));
        },
    };
    let splits_b = match resolve_word_refs(&entry.splits_b, resolver) {
        Ok(v) => v,
        Err(i) => {
            return Err(format_word_ref(&entry.splits_b[i]));
        },
    };
    let splits_c = match resolve_word_refs(&entry.splits_c, resolver) {
        Ok(v) => v,
        Err(i) => {
            return Err(format_word_ref(&entry.splits_c[i]));
        },
    };
    let word_structure = match resolve_word_refs(&entry.word_structure, resolver) {
        Ok(v) => v,
        Err(i) => {
            return Err(format_word_ref(&entry.word_structure[i]));
        },
    };
    let total = total + splits_a.len() + splits_b.len() + splits_c.len() + word_structure.len();
    let resolved = ResolvedLexiconEntry {
        left_id: entry.left_id,
        right_id: entry.right_id,
        cost: entry.cost,
        index_form: entry.index_form,
        headword: entry.headword,
        reference_id: entry.reference_id,
        dic_form,
        norm_form,
        pos: entry.pos,
        splits_a,
        splits_b,
        splits_c,
        reading: entry.reading,
        splitting: entry.splitting,
        word_structure,
        synonym_groups: entry.synonym_groups,
        user_data: entry.user_data,
    };
    Ok((resolved, total, phantom_headword))
}

} // verus!
