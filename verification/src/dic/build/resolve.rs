//! Resolution of the word references of a lexicon source: by line, by head
//! word, and by entry key (head word, part of speech and reading, or
//! reference id).

use vstd::prelude::*;
use vstd::string::StringExecFns;

use crate::dic::binary_loader::LoadedDictionary;
use crate::dic::build::error::{BuildFailure, DicBuildError, DicWriteResult};
use crate::dic::build::lexicon::entry::{spec_headword_of, ParsedLexiconEntry, ResolvedLexiconEntry};
use crate::dic::build::lexicon::{spec_opt_str, spec_opt_string, WordRefResolver};
use crate::dic::build::primitives::str_eq;
use crate::dic::lexicon::word_infos::spec_raw_ids;
use crate::dic::lexicon_set::spec_word_ids_of;
use crate::dic::subset::{InfoSubset, POS_ID, READING_FORM, SURFACE};
use crate::dic::word_id::{WordId, WordRef as DicWordRef};
use crate::error::{SudachiError, SudachiResult};

verus! {

/// What a resolver needs of a lexicon entry.
pub trait ResolverEntryView {
    /// The head word; implementations state it, the default is empty.
    open spec fn spec_headword(&self) -> Seq<char> {
        Seq::empty()
    }

    /// The reading; implementations state it, the default is empty.
    open spec fn spec_reading(&self) -> Seq<char> {
        Seq::empty()
    }

    /// The part of speech id; implementations state it, the default is 0.
    open spec fn spec_pos_id(&self) -> u16 {
        0
    }

    /// The reference id, if any; implementations state it, the default is none.
    open spec fn spec_reference_id(&self) -> Option<Seq<char>> {
        None
    }

    /// The head word.
    fn headword(&self) -> (r: &str)
        ensures
            r@ == self.spec_headword(),
    ;

    /// The reading.
    fn reading(&self) -> (r: &str)
        ensures
            r@ == self.spec_reading(),
    ;

    /// The part of speech id.
    fn pos_id(&self) -> (r: u16)
        ensures
            r == self.spec_pos_id(),
    ;

    /// The reference id, if any.
    fn reference_id(&self) -> (r: Option<&str>)
        ensures
            spec_opt_str(r) == self.spec_reference_id(),
    ;
}

impl ResolverEntryView for ParsedLexiconEntry {
    open spec fn spec_headword(&self) -> Seq<char> {
        spec_headword_of(self.headword, self.index_form)
    }

    open spec fn spec_reading(&self) -> Seq<char> {
        self.reading@
    }

    open spec fn spec_pos_id(&self) -> u16 {
        self.pos
    }

    open spec fn spec_reference_id(&self) -> Option<Seq<char>> {
        spec_opt_string(self.reference_id)
    }

    fn headword(&self) -> (r: &str) {
        ParsedLexiconEntry::headword(self)
    }

    fn reading(&self) -> (r: &str) {
        ParsedLexiconEntry::reading(self)
    }

    fn pos_id(&self) -> (r: u16) {
        self.pos
    }

    fn reference_id(&self) -> (r: Option<&str>) {
        ParsedLexiconEntry::reference_id(self)
    }
}

impl ResolverEntryView for ResolvedLexiconEntry {
    open spec fn spec_headword(&self) -> Seq<char> {
        spec_headword_of(self.headword, self.index_form)
    }

    open spec fn spec_reading(&self) -> Seq<char> {
        self.reading@
    }

    open spec fn spec_pos_id(&self) -> u16 {
        self.pos
    }

    open spec fn spec_reference_id(&self) -> Option<Seq<char>> {
        spec_opt_string(self.reference_id)
    }

    fn headword(&self) -> (r: &str) {
        ResolvedLexiconEntry::headword(self)
    }

    fn reading(&self) -> (r: &str) {
        ResolvedLexiconEntry::reading(self)
    }

    fn pos_id(&self) -> (r: u16) {
        self.pos
    }

    fn reference_id(&self) -> (r: Option<&str>) {
        ResolvedLexiconEntry::reference_id(self)
    }
}

/// The reading kept for matching: none when it is empty or equal to the
/// head word.
pub open spec fn spec_normalized_reading(headword: Seq<char>, reading: Seq<char>) -> Option<
    Seq<char>,
> {
    if reading.len() == 0 || headword == reading {
        None
    } else {
        Some(reading)
    }
}

/// The reading kept for matching: none when it is empty or equal to the
/// head word.
pub fn normalized_reading(headword: &str, reading: &str) -> (r: Option<String>)
    ensures
        spec_opt_string(r) == spec_normalized_reading(headword@, reading@),
{
    if reading.is_empty() || str_eq(headword, reading) {
        None
    } else {
        Some(reading.to_owned())
    }
}

/// What a resolver knows of an entry.
pub ghost struct CandidateModel {
    pub headword: Seq<char>,
    pub pos_id: u16,
    pub reading: Option<Seq<char>>,
    pub reference_id: Option<Seq<char>>,
    pub wref: DicWordRef,
}

/// The candidate for entry `e` of a source, placed at `wref`.
pub open spec fn spec_candidate_of<T: ResolverEntryView>(e: T, wref: DicWordRef) -> CandidateModel {
    CandidateModel {
        headword: e.spec_headword(),
        pos_id: e.spec_pos_id(),
        reading: spec_normalized_reading(e.spec_headword(), e.spec_reading()),
        reference_id: e.spec_reference_id(),
        wref,
    }
}

/// An entry as a resolver knows it.
struct ResolutionCandidate {
    headword: String,
    pos_id: u16,
    reading: Option<String>,
    reference_id: Option<String>,
    wref: DicWordRef,
}

impl View for ResolutionCandidate {
    type V = CandidateModel;

    closed spec fn view(&self) -> CandidateModel {
        CandidateModel {
            headword: self.headword@,
            pos_id: self.pos_id,
            reading: spec_opt_string(self.reading),
            reference_id: spec_opt_string(self.reference_id),
            wref: self.wref,
        }
    }
}

/// What a search among candidates looks for.
pub enum CandidateKey<'k> {
    /// A head word.
    Headword(&'k str),
    /// A head word with a part of speech and a reading.
    Entry(&'k str, u16, Option<&'k str>),
    /// A reference id.
    ReferenceId(&'k str),
}

/// Whether candidate `c` is what `key` looks for.
pub open spec fn spec_key_matches(c: CandidateModel, key: CandidateKey) -> bool {
    match key {
        CandidateKey::Headword(h) => c.headword == h@,
        CandidateKey::Entry(h, pos, reading) => c.headword == h@ && c.pos_id == pos && c.reading
            == spec_opt_str(reading),
        CandidateKey::ReferenceId(id) => c.reference_id == Some(id@),
    }
}

/// Index of the first candidate that `key` looks for.
pub open spec fn spec_first_match(cs: Seq<CandidateModel>, key: CandidateKey) -> Option<int>
    decreases cs.len(),
{
    if cs.len() == 0 {
        None
    } else {
        match spec_first_match(cs.drop_last(), key) {
            Some(k) => Some(k),
            None => if spec_key_matches(cs.last(), key) {
                Some(cs.len() - 1)
            } else {
                None
            },
        }
    }
}

/// A match found in a prefix is the first match of the whole sequence; the
/// first match is a match, and no candidate before it is.
pub proof fn lemma_first_match(cs: Seq<CandidateModel>, key: CandidateKey, n: int)
    requires
        0 <= n <= cs.len(),
    ensures
        spec_first_match(cs.take(n), key) is Some ==> spec_first_match(cs, key) == spec_first_match(
            cs.take(n),
            key,
        ),
        spec_first_match(cs, key) matches Some(k) ==> 0 <= k < cs.len() && spec_key_matches(
            cs[k],
            key,
        ) && forall|j: int| 0 <= j < k ==> !spec_key_matches(#[trigger] cs[j], key),
        spec_first_match(cs, key) is None ==> forall|j: int|
            0 <= j < cs.len() ==> !spec_key_matches(#[trigger] cs[j], key),
    decreases cs.len(),
{
    if cs.len() > 0 {
        if n == cs.len() {
            assert(cs.take(n) =~= cs);
        } else {
            assert(cs.drop_last().take(n) =~= cs.take(n));
        }
        lemma_first_match(cs.drop_last(), key, if n == cs.len() {
            n - 1
        } else {
            n
        });
        assert forall|j: int| 0 <= j < cs.len() - 1 implies cs.drop_last()[j] == cs[j] by {}
    }
}

/// Whether two optional strings hold the same text.
fn opt_eq(a: &Option<String>, b: Option<&str>) -> (r: bool)
    ensures
        r == (spec_opt_string(*a) == spec_opt_str(b)),
{
    match (a, b) {
        (Some(x), Some(y)) => str_eq(x.as_str(), y),
        (None, None) => true,
        _ => false,
    }
}

/// Whether candidate `c` is what `key` looks for.
fn key_matches(c: &ResolutionCandidate, key: &CandidateKey) -> (r: bool)
    ensures
        r == spec_key_matches(c@, *key),
{
    match key {
        CandidateKey::Headword(h) => str_eq(c.headword.as_str(), h),
        CandidateKey::Entry(h, pos, reading) => str_eq(c.headword.as_str(), h) && c.pos_id == *pos
            && opt_eq(&c.reading, *reading),
        CandidateKey::ReferenceId(id) => match &c.reference_id {
            Some(r) => str_eq(r.as_str(), id),
            None => false,
        },
    }
}

/// The candidates, as models.
pub open spec fn spec_models(v: Seq<ResolutionCandidate>) -> Seq<CandidateModel> {
    v.map_values(|c: ResolutionCandidate| c@)
}

/// Index of the first candidate of `cs` that `key` looks for.
fn find_first(cs: &Vec<ResolutionCandidate>, key: &CandidateKey) -> (r: Option<usize>)
    ensures
        match r {
            Some(k) => spec_first_match(spec_models(cs@), *key) == Some(k as int) && k < cs@.len()
                && spec_key_matches(cs@[k as int]@, *key),
            None => spec_first_match(spec_models(cs@), *key) is None,
        },
{
    let ghost ms = spec_models(cs@);
    let mut i: usize = 0;
    proof {
        assert(ms.take(0) =~= Seq::<CandidateModel>::empty());
    }
    while i < cs.len()
        invariant
            i <= cs@.len(),
            ms == spec_models(cs@),
            spec_first_match(ms.take(i as int), *key) is None,
        decreases cs@.len() - i,
    {
        let found = key_matches(&cs[i], key);
        proof {
            assert(ms.take(i + 1).drop_last() =~= ms.take(i as int));
            assert(ms.take(i + 1).last() == cs@[i as int]@);
        }
        if found {
            proof {
                lemma_first_match(ms, *key, i + 1);
            }
            return Some(i);
        }
        i = i + 1;
    }
    proof {
        assert(ms.take(i as int) =~= ms);
    }
    None
}

/// Resolver over the entries of a lexicon source, in source order.
pub struct RawDictResolver {
    candidates: Vec<ResolutionCandidate>,
    line_to_wref: Vec<DicWordRef>,
    user: bool,
}

impl RawDictResolver {
    /// The entries, in source order.
    pub closed spec fn spec_candidates(&self) -> Seq<CandidateModel> {
        spec_models(self.candidates@)
    }

    /// The dictionary reference of each source line.
    pub closed spec fn spec_line_to_wref(&self) -> Seq<DicWordRef> {
        self.line_to_wref@
    }

    /// Whether the source is a user dictionary.
    pub closed spec fn spec_user(&self) -> bool {
        self.user
    }

    /// A resolver over `entries`, the entry of line `i` being at
    /// `line_to_wref[i]`; an error when two entries share a reference id.
    pub fn new<T: ResolverEntryView>(entries: &[T], line_to_wref: Vec<DicWordRef>, user: bool) -> (r:
        DicWriteResult<RawDictResolver>)
        requires
            entries@.len() <= line_to_wref@.len(),
        ensures
            r is Ok <==> forall|i: int, j: int|
                0 <= i < j < entries@.len() && (#[trigger] entries@[i]).spec_reference_id() is Some
                    ==> entries@[i].spec_reference_id() != (#[trigger] entries@[j]).spec_reference_id(),
            r matches Err(e) ==> e is InvalidSplit,
            r matches Ok(res) ==> {
                &&& res.spec_candidates() == Seq::new(
                    entries@.len(),
                    |i: int| spec_candidate_of(entries@[i], line_to_wref@[i]),
                )
                &&& res.spec_line_to_wref() == line_to_wref@
                &&& res.spec_user() == user
            },
    {
        let mut candidates: Vec<ResolutionCandidate> = Vec::new();
        let n = entries.len();
        let mut i: usize = 0;
        while i < n
            invariant
                i <= n,
                n == entries@.len(),
                entries@.len() <= line_to_wref@.len(),
                spec_models(candidates@) == Seq::new(
                    i as nat,
                    |k: int| spec_candidate_of(entries@[k], line_to_wref@[k]),
                ),
                forall|a: int, b: int|
                    0 <= a < b < i && (#[trigger] entries@[a]).spec_reference_id() is Some
                        ==> entries@[a].spec_reference_id() != (#[trigger] entries@[b]).spec_reference_id(),
            decreases n - i,
        {
            let e = &entries[i];
            let headword = e.headword();
            let reference_id = e.reference_id();
            if let Some(rid) = reference_id {
                let found = find_first(&candidates, &CandidateKey::ReferenceId(rid));
                if found.is_some() {
                    proof {
                        let k = found->0 as int;
                        assert(spec_models(candidates@)[k].reference_id == entries@[k].spec_reference_id());
                        assert(entries@[k].spec_reference_id() == entries@[i as int].spec_reference_id());
                    }
                    let mut msg = String::from_str("duplicated reference_id: ");
                    msg.append(rid);
                    return Err(BuildFailure::InvalidSplit(msg));
                }
                proof {
                    lemma_first_match(spec_models(candidates@), CandidateKey::ReferenceId(rid), 0);
                    assert forall|a: int|
                        0 <= a < i && (#[trigger] entries@[a]).spec_reference_id() is Some
                            implies entries@[a].spec_reference_id() != entries@[i as int].spec_reference_id() by {
                        assert(spec_models(candidates@)[a].reference_id == entries@[a].spec_reference_id());
                    }
                }
            }
            let c = ResolutionCandidate {
                headword: headword.to_owned(),
                pos_id: e.pos_id(),
                reading: normalized_reading(headword, e.reading()),
                reference_id: match reference_id {
                    Some(rid) => Some(rid.to_owned()),
                    None => None,
                },
                wref: line_to_wref[i],
            };
            let ghost before = candidates@;
            proof {
                assert(c@ == spec_candidate_of(entries@[i as int], line_to_wref@[i as int]));
            }
            candidates.push(c);
            proof {
                assert(spec_models(candidates@) =~= spec_models(before).push(c@));
                assert(spec_models(candidates@) =~= Seq::new(
                    (i + 1) as nat,
                    |k: int| spec_candidate_of(entries@[k], line_to_wref@[k]),
                ));
            }
            i = i + 1;
        }
        Ok(RawDictResolver { candidates, line_to_wref, user })
    }
}

impl WordRefResolver for RawDictResolver {
    open spec fn spec_by_line_ref(&self, line_ref: DicWordRef) -> Option<DicWordRef> {
        if line_ref.spec_is_system() == self.spec_user() {
            None
        } else if line_ref.spec_entry() < self.spec_line_to_wref().len() {
            Some(self.spec_line_to_wref()[line_ref.spec_entry() as int])
        } else {
            None
        }
    }

    open spec fn spec_by_headword(&self, headword: Seq<char>) -> Option<DicWordRef> {
        let cs = self.spec_candidates();
        match spec_first_headword(cs, headword) {
            Some(k) => Some(cs[k].wref),
            None => None,
        }
    }

    open spec fn spec_by_entry_key(
        &self,
        headword: Seq<char>,
        pos: u16,
        reading: Option<Seq<char>>,
        reference_id: Option<Seq<char>>,
    ) -> Option<DicWordRef> {
        let cs = self.spec_candidates();
        match reference_id {
            Some(id) => match spec_first_reference(cs, id) {
                Some(k) => if cs[k].headword == headword && cs[k].pos_id == pos && cs[k].reading
                    == reading {
                    Some(cs[k].wref)
                } else {
                    None
                },
                None => None,
            },
            None => match spec_first_entry(cs, headword, pos, reading) {
                Some(k) => Some(cs[k].wref),
                None => None,
            },
        }
    }

    fn resolve_by_line_ref(&self, line_ref: DicWordRef) -> (r: Option<DicWordRef>) {
        if line_ref.is_system() == self.user {
            return None;
        }
        let e = line_ref.entry() as usize;
        if e < self.line_to_wref.len() {
            Some(self.line_to_wref[e])
        } else {
            None
        }
    }

    fn resolve_by_headword(&self, headword: &str) -> (r: Option<DicWordRef>) {
        let key = CandidateKey::Headword(headword);
        proof {
            lemma_key_first(self.spec_candidates(), key);
        }
        match find_first(&self.candidates, &key) {
            Some(k) => Some(self.candidates[k].wref),
            None => None,
        }
    }

    fn resolve_entry_key(
        &self,
        headword: &str,
        pos: u16,
        reading: Option<&str>,
        reference_id: Option<&str>,
    ) -> (r: Option<DicWordRef>) {
        match reference_id {
            Some(id) => {
                let key = CandidateKey::ReferenceId(id);
                proof {
                    lemma_key_first(self.spec_candidates(), key);
                }
                match find_first(&self.candidates, &key) {
                    Some(k) => {
                        let c = &self.candidates[k];
                        if str_eq(c.headword.as_str(), headword) && c.pos_id == pos && opt_eq(
                            &c.reading,
                            reading,
                        ) {
                            Some(c.wref)
                        } else {
                            None
                        }
                    },
                    None => None,
                }
            },
            None => {
                let key = CandidateKey::Entry(headword, pos, reading);
                proof {
                    lemma_key_first(self.spec_candidates(), key);
                }
                match find_first(&self.candidates, &key) {
                    Some(k) => Some(self.candidates[k].wref),
                    None => None,
                }
            },
        }
    }
}

/// Index of the first candidate with head word `headword`.
pub open spec fn spec_first_headword(cs: Seq<CandidateModel>, headword: Seq<char>) -> Option<int>
    decreases cs.len(),
{
    if cs.len() == 0 {
        None
    } else {
        match spec_first_headword(cs.drop_last(), headword) {
            Some(k) => Some(k),
            None => if cs.last().headword == headword {
                Some(cs.len() - 1)
            } else {
                None
            },
        }
    }
}

/// Index of the first candidate with head word, part of speech and reading.
pub open spec fn spec_first_entry(
    cs: Seq<CandidateModel>,
    headword: Seq<char>,
    pos: u16,
    reading: Option<Seq<char>>,
) -> Option<int>
    decreases cs.len(),
{
    if cs.len() == 0 {
        None
    } else {
        match spec_first_entry(cs.drop_last(), headword, pos, reading) {
            Some(k) => Some(k),
            None => if cs.last().headword == headword && cs.last().pos_id == pos && cs.last().reading
                == reading {
                Some(cs.len() - 1)
            } else {
                None
            },
        }
    }
}

/// Index of the first candidate with reference id `id`.
pub open spec fn spec_first_reference(cs: Seq<CandidateModel>, id: Seq<char>) -> Option<int>
    decreases cs.len(),
{
    if cs.len() == 0 {
        None
    } else {
        match spec_first_reference(cs.drop_last(), id) {
            Some(k) => Some(k),
            None => if cs.last().reference_id == Some(id) {
                Some(cs.len() - 1)
            } else {
                None
            },
        }
    }
}

/// The search by key finds what the specific searches find.
proof fn lemma_key_first(cs: Seq<CandidateModel>, key: CandidateKey)
    ensures
        match key {
            CandidateKey::Headword(h) => spec_first_match(cs, key) == spec_first_headword(cs, h@),
            CandidateKey::Entry(h, pos, reading) => spec_first_match(cs, key) == spec_first_entry(
                cs,
                h@,
                pos,
                spec_opt_str(reading),
            ),
            CandidateKey::ReferenceId(id) => spec_first_match(cs, key) == spec_first_reference(
                cs,
                id@,
            ),
        },
    decreases cs.len(),
{
    if cs.len() > 0 {
        lemma_key_first(cs.drop_last(), key);
    }
}

/// Two resolvers one after the other: the second answers only where the
/// first does not.
pub struct ChainedResolver<A, B> {
    a: A,
    b: B,
}

impl<A: WordRefResolver, B: WordRefResolver> ChainedResolver<A, B> {
    /// The first resolver.
    pub closed spec fn spec_first(&self) -> A {
        self.a
    }

    /// The second resolver.
    pub closed spec fn spec_second(&self) -> B {
        self.b
    }

    /// `a`, then `b`.
    pub fn new(a: A, b: B) -> (r: ChainedResolver<A, B>)
        ensures
            r.spec_first() == a,
            r.spec_second() == b,
    {
        ChainedResolver { a, b }
    }
}

impl<A: WordRefResolver, B: WordRefResolver> WordRefResolver for ChainedResolver<A, B> {
    open spec fn spec_by_line_ref(&self, line_ref: DicWordRef) -> Option<DicWordRef> {
        match self.spec_first().spec_by_line_ref(line_ref) {
            Some(w) => Some(w),
            None => self.spec_second().spec_by_line_ref(line_ref),
        }
    }

    open spec fn spec_by_headword(&self, headword: Seq<char>) -> Option<DicWordRef> {
        match self.spec_first().spec_by_headword(headword) {
            Some(w) => Some(w),
            None => self.spec_second().spec_by_headword(headword),
        }
    }

    open spec fn spec_by_entry_key(
        &self,
        headword: Seq<char>,
        pos: u16,
        reading: Option<Seq<char>>,
        reference_id: Option<Seq<char>>,
    ) -> Option<DicWordRef> {
        match self.spec_first().spec_by_entry_key(headword, pos, reading, reference_id) {
            Some(w) => Some(w),
            None => self.spec_second().spec_by_entry_key(headword, pos, reading, reference_id),
        }
    }

    fn resolve_by_line_ref(&self, line_ref: DicWordRef) -> (r: Option<DicWordRef>) {
        match self.a.resolve_by_line_ref(line_ref) {
            Some(w) => Some(w),
            None => self.b.resolve_by_line_ref(line_ref),
        }
    }

    fn resolve_by_headword(&self, headword: &str) -> (r: Option<DicWordRef>) {
        match self.a.resolve_by_headword(headword) {
            Some(w) => Some(w),
            None => self.b.resolve_by_headword(headword),
        }
    }

    fn resolve_entry_key(
        &self,
        headword: &str,
        pos: u16,
        reading: Option<&str>,
        reference_id: Option<&str>,
    ) -> (r: Option<DicWordRef>) {
        match self.a.resolve_entry_key(headword, pos, reading, reference_id) {
            Some(w) => Some(w),
            None => self.b.resolve_entry_key(headword, pos, reading, reference_id),
        }
    }
}

/// A system dictionary entry as a resolver knows it.
struct SystemEntry {
    headword: String,
    reading: String,
    pos: u16,
    reference_id: Option<String>,
}

impl ResolverEntryView for SystemEntry {
    closed spec fn spec_headword(&self) -> Seq<char> {
        self.headword@
    }

    closed spec fn spec_reading(&self) -> Seq<char> {
        self.reading@
    }

    closed spec fn spec_pos_id(&self) -> u16 {
        self.pos
    }

    closed spec fn spec_reference_id(&self) -> Option<Seq<char>> {
        spec_opt_string(self.reference_id)
    }

    fn headword(&self) -> (r: &str) {
        self.headword.as_str()
    }

    fn reading(&self) -> (r: &str) {
        self.reading.as_str()
    }

    fn pos_id(&self) -> (r: u16) {
        self.pos
    }

    fn reference_id(&self) -> (r: Option<&str>) {
        match &self.reference_id {
            Some(s) => Some(s.as_str()),
            None => None,
        }
    }
}

/// The fields a resolver reads of an entry: head word, part of speech and
/// reading form.
pub const RESOLVER_FIELDS: u32 = SURFACE | POS_ID | READING_FORM;

/// Entry `k` of the system dictionary of `dict` as a resolver knows it:
/// its head word, part of speech, reading unless it equals the head word,
/// and reference id; `None` when its record cannot be read.
#[verifier::opaque]
pub open spec fn spec_system_candidate(dict: &LoadedDictionary, k: u32) -> Option<CandidateModel> {
    match dict.lexicon_set.spec_word_info(WordId::spec_from_raw(k), InfoSubset(RESOLVER_FIELDS)) {
        Some(m) => Some(
            CandidateModel {
                headword: m.surface,
                pos_id: m.pos_id as u16,
                reading: spec_normalized_reading(m.surface, m.reading_form),
                reference_id: match dict.system_reference_ids@.get(k) {
                    Some(s) => Some(s@),
                    None => None,
                },
                wref: DicWordRef::spec_new(true, k),
            },
        ),
        None => None,
    }
}

/// Number of entries of the system dictionary of `dict`.
pub open spec fn spec_system_size(dict: &LoadedDictionary) -> int {
    dict.lexicon_set.spec_lexicons()[0].spec_params().len() as int
}

/// Whether every system entry of `dict` can be read.
pub open spec fn spec_system_readable(dict: &LoadedDictionary) -> bool {
    forall|k: int| 0 <= k < spec_system_size(dict) ==> (#[trigger] spec_system_candidate(dict, k as u32)) is Some
}

/// Whether no two system entries of `dict` share a reference id.
pub open spec fn spec_system_refs_distinct(dict: &LoadedDictionary) -> bool {
    forall|i: int, j: int|
        0 <= i < j < spec_system_size(dict) && (#[trigger] spec_system_candidate(dict, i as u32))->0.reference_id
            is Some ==> spec_system_candidate(dict, i as u32)->0.reference_id != (#[trigger] spec_system_candidate(
            dict,
            j as u32,
        ))->0.reference_id
}

/// System entry `wid` of `dict` as a resolver knows it; an error when its
/// record cannot be read.
fn system_entry(dict: &LoadedDictionary, wid: WordId) -> (r: SudachiResult<SystemEntry>)
    requires
        dict.lexicon_set.wf(),
    ensures
        r is Err <==> spec_system_candidate(dict, wid@) is None,
        r matches Ok(e) ==> Some(spec_candidate_of(e, DicWordRef::spec_new(true, wid@)))
            == spec_system_candidate(dict, wid@),
{
    broadcast use vstd::std_specs::hash::group_hash_axioms;

    proof {
        WordId::lemma_from_raw(wid@);
        reveal(spec_system_candidate);
    }
    let info = dict.lexicon_set.get_word_info_subset(wid, InfoSubset(RESOLVER_FIELDS))?;
    let raw = wid.as_raw();
    let reference_id = match dict.reference_ids().get(&raw) {
        Some(s) => Some(s.clone()),
        None => None,
    };
    let e = SystemEntry {
        headword: String::from_str(info.surface()),
        reading: String::from_str(info.reading_form()),
        pos: info.pos_id(),
        reference_id,
    };
    Ok(e)
}

/// Resolver over the entries of a compiled system dictionary, in entry
/// order: a line reference names a system entry by its id.
pub struct BinDictResolver {
    inner: RawDictResolver,
}

impl BinDictResolver {
    /// The resolver over the entries, in entry order.
    pub closed spec fn spec_inner(&self) -> RawDictResolver {
        self.inner
    }

    /// A resolver over the system entries of `dict`. An error when an entry
    /// cannot be read, or two entries share a reference id.
    pub fn new(dict: &LoadedDictionary) -> (r: SudachiResult<BinDictResolver>)
        requires
            dict.lexicon_set.wf(),
        ensures
            r matches Ok(res) ==> {
                &&& res.spec_inner().spec_candidates().len() == spec_system_size(dict)
                &&& forall|k: int|
                    0 <= k < spec_system_size(dict) ==> Some(
                        #[trigger] res.spec_inner().spec_candidates()[k],
                    ) == spec_system_candidate(dict, k as u32)
                &&& res.spec_inner().spec_line_to_wref() == Seq::new(
                    spec_system_size(dict) as nat,
                    |k: int| DicWordRef::spec_new(true, k as u32),
                )
                &&& !res.spec_inner().spec_user()
            },
            r is Ok <==> spec_system_readable(dict) && spec_system_refs_distinct(dict),
    {
        let (entries, line_to_wref) = system_entries(dict)?;
        let ghost wrefs = line_to_wref@;
        let ghost es = entries@;
        match RawDictResolver::new(entries.as_slice(), line_to_wref, false) {
            Ok(inner) => {
                proof {
                    assert forall|k: int| 0 <= k < spec_system_size(dict) implies Some(
                        #[trigger] inner.spec_candidates()[k],
                    ) == spec_system_candidate(dict, k as u32) by {
                        assert(inner.spec_candidates()[k] == spec_candidate_of(es[k], wrefs[k]));
                    }
                    assert forall|i: int, j: int|
                        0 <= i < j < spec_system_size(dict) && (#[trigger] spec_system_candidate(
                            dict,
                            i as u32,
                        ))->0.reference_id is Some implies spec_system_candidate(dict, i as u32)->0.reference_id
                        != (#[trigger] spec_system_candidate(dict, j as u32))->0.reference_id by {
                        assert(Some(spec_candidate_of(es[i], wrefs[i])) == spec_system_candidate(dict, i as u32));
                        assert(Some(spec_candidate_of(es[j], wrefs[j])) == spec_system_candidate(dict, j as u32));
                        assert(es[i].spec_reference_id() != es[j].spec_reference_id());
                    }
                }
                Ok(BinDictResolver { inner })
            },
            Err(e) => {
                proof {
                    let (i, j) = choose|i: int, j: int|
                        0 <= i < j < es.len() && (#[trigger] es[i]).spec_reference_id() is Some
                            && es[i].spec_reference_id() == (#[trigger] es[j]).spec_reference_id();
                    assert(Some(spec_candidate_of(es[i], wrefs[i])) == spec_system_candidate(dict, i as u32));
                    assert(Some(spec_candidate_of(es[j], wrefs[j])) == spec_system_candidate(dict, j as u32));
                    assert(!spec_system_refs_distinct(dict));
                }
                Err(
                    SudachiError::DictionaryCompilationError(
                        DicBuildError { file: "<system dictionary>".to_string(), line: 0, cause: e },
                    ),
                )
            },
        }
    }
}

/// The system entries of `dict` as a resolver knows them, with the
/// reference to each; an error when an entry cannot be read.
fn system_entries(dict: &LoadedDictionary) -> (r: SudachiResult<(Vec<SystemEntry>, Vec<DicWordRef>)>)
    requires
        dict.lexicon_set.wf(),
    ensures
        r matches Ok((entries, wrefs)) ==> {
            &&& entries@.len() == spec_system_size(dict)
            &&& wrefs@ == Seq::new(
                spec_system_size(dict) as nat,
                |k: int| DicWordRef::spec_new(true, k as u32),
            )
            &&& forall|k: int|
                0 <= k < spec_system_size(dict) ==> Some(
                    spec_candidate_of(#[trigger] entries@[k], wrefs@[k]),
                ) == spec_system_candidate(dict, k as u32)
        },
        r is Err <==> !spec_system_readable(dict),
{
    let lex = &dict.lexicon_set;
    let ids = lex.system_word_ids_in_order();
    let n = ids.len();
    proof {
        assert(spec_raw_ids(ids@).len() == ids@.len());
    }
    let mut entries: Vec<SystemEntry> = Vec::new();
    let mut line_to_wref: Vec<DicWordRef> = Vec::new();
    let mut i: usize = 0;
    while i < n
        invariant
            lex.wf(),
            *lex == dict.lexicon_set,
            n == ids@.len(),
            n == spec_system_size(dict),
            spec_raw_ids(ids@) == spec_word_ids_of(0, spec_system_size(dict)),
            i <= n,
            entries@.len() == i,
            line_to_wref@.len() == i,
            forall|k: int|
                0 <= k < i ==> Some(spec_candidate_of(#[trigger] entries@[k], line_to_wref@[k]))
                    == spec_system_candidate(dict, k as u32),
            forall|k: int| 0 <= k < i ==> #[trigger] line_to_wref@[k] == DicWordRef::spec_new(true, k as u32),
            forall|k: int| 0 <= k < i ==> (#[trigger] spec_system_candidate(dict, k as u32)) is Some,
        decreases n - i,
    {
        let wid = ids[i];
        proof {
            assert(spec_raw_ids(ids@)[i as int] == wid@);
            assert(wid@ == i as u32);
        }
        let e = match system_entry(dict, wid) {
            Ok(e) => e,
            Err(err) => {
                proof {
                    assert(spec_system_candidate(dict, (i as int) as u32) is None);
                }
                return Err(err);
            },
        };
        let w = DicWordRef::new(true, wid.as_raw());
        entries.push(e);
        line_to_wref.push(w);
        i = i + 1;
    }
    proof {
        assert(line_to_wref@ =~= Seq::new(n as nat, |k: int| DicWordRef::spec_new(true, k as u32)));
    }
    Ok((entries, line_to_wref))
}

impl WordRefResolver for BinDictResolver {
    open spec fn spec_by_line_ref(&self, line_ref: DicWordRef) -> Option<DicWordRef> {
        self.spec_inner().spec_by_line_ref(line_ref)
    }

    open spec fn spec_by_headword(&self, headword: Seq<char>) -> Option<DicWordRef> {
        self.spec_inner().spec_by_headword(headword)
    }

    open spec fn spec_by_entry_key(
        &self,
        headword: Seq<char>,
        pos: u16,
        reading: Option<Seq<char>>,
        reference_id: Option<Seq<char>>,
    ) -> Option<DicWordRef> {
        self.spec_inner().spec_by_entry_key(headword, pos, reading, reference_id)
    }

    fn resolve_by_line_ref(&self, line_ref: DicWordRef) -> (r: Option<DicWordRef>) {
        self.inner.resolve_by_line_ref(line_ref)
    }

    fn resolve_by_headword(&self, headword: &str) -> (r: Option<DicWordRef>) {
        self.inner.resolve_by_headword(headword)
    }

    fn resolve_entry_key(
        &self,
        headword: &str,
        pos: u16,
        reading: Option<&str>,
        reference_id: Option<&str>,
    ) -> (r: Option<DicWordRef>) {
        self.inner.resolve_entry_key(headword, pos, reading, reference_id)
    }
}

} // verus!
