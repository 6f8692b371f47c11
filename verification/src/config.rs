//! Configuration: errors, how analysis results are shown, and the roots that
//! relative resource paths are resolved against.

pub mod builder;

pub use builder::{Config, ConfigBuilder, RawConfig};

use vstd::prelude::*;
use vstd::string::StringExecFns;

use crate::dic::build::primitives::str_eq;
use crate::dic::subset::{InfoSubset, DIC_FORM_WORD_ID, NORMALIZED_FORM, READING_FORM};
use crate::error::{SudachiError, SudachiResult};

verus! {

/// Configuration errors.
#[derive(Debug)]
pub enum ConfigError {
    /// A configuration file was not found.
    FileNotFound(String),
    /// A value has an invalid format.
    InvalidFormat(String),
    /// A required argument is missing.
    MissingArgument(String),
    /// The named resource exists only embedded in the library.
    EmbeddedResourcePath(String),
    /// A relative path could not be resolved; the candidates tried.
    PathResolution(String, Vec<String>),
}

/// What text stands for a morpheme in output.
#[derive(Clone, Copy, Debug, PartialEq, Eq, Structural)]
pub enum SurfaceProjection {
    Surface,
    Normalized,
    Reading,
    Dictionary,
    DictionaryAndSurface,
    NormalizedAndSurface,
    NormalizedNouns,
}

impl Default for SurfaceProjection {
    fn default() -> (r: SurfaceProjection)
        ensures
            r == SurfaceProjection::Surface,
    {
        SurfaceProjection::Surface
    }
}

/// The projection a configuration value names.
pub open spec fn spec_projection_named(value: Seq<char>) -> Option<SurfaceProjection> {
    if value == "surface"@ {
        Some(SurfaceProjection::Surface)
    } else if value == "normalized"@ {
        Some(SurfaceProjection::Normalized)
    } else if value == "reading"@ {
        Some(SurfaceProjection::Reading)
    } else if value == "dictionary"@ {
        Some(SurfaceProjection::Dictionary)
    } else if value == "dictionary_and_surface"@ {
        Some(SurfaceProjection::DictionaryAndSurface)
    } else if value == "normalized_and_surface"@ {
        Some(SurfaceProjection::NormalizedAndSurface)
    } else if value == "normalized_nouns"@ {
        Some(SurfaceProjection::NormalizedNouns)
    } else {
        None
    }
}

impl SurfaceProjection {
    /// Fields of word information the projection needs.
    pub fn required_subset(&self) -> (r: InfoSubset)
        ensures
            r.0 == match *self {
                SurfaceProjection::Surface => 0,
                SurfaceProjection::Normalized => NORMALIZED_FORM,
                SurfaceProjection::Reading => READING_FORM,
                SurfaceProjection::Dictionary => DIC_FORM_WORD_ID,
                SurfaceProjection::DictionaryAndSurface => DIC_FORM_WORD_ID,
                SurfaceProjection::NormalizedAndSurface => NORMALIZED_FORM,
                SurfaceProjection::NormalizedNouns => NORMALIZED_FORM,
            },
    {
        match *self {
            SurfaceProjection::Surface => InfoSubset::empty(),
            SurfaceProjection::Normalized => InfoSubset(NORMALIZED_FORM),
            SurfaceProjection::Reading => InfoSubset(READING_FORM),
            SurfaceProjection::Dictionary => InfoSubset(DIC_FORM_WORD_ID),
            SurfaceProjection::DictionaryAndSurface => InfoSubset(DIC_FORM_WORD_ID),
            SurfaceProjection::NormalizedAndSurface => InfoSubset(NORMALIZED_FORM),
            SurfaceProjection::NormalizedNouns => InfoSubset(NORMALIZED_FORM),
        }
    }

    /// The projection `value` names; an invalid-format error for any other
    /// value.
    pub fn parse(value: &str) -> (r: SudachiResult<SurfaceProjection>)
        ensures
            match spec_projection_named(value@) {
                Some(p) => r == Ok::<SurfaceProjection, SudachiError>(p),
                None => r matches Err(SudachiError::ConfigError(ConfigError::InvalidFormat(m)))
                    && m@ == "unknown projection: "@ + value@,
            },
    {
        if str_eq(value, "surface") {
            Ok(SurfaceProjection::Surface)
        } else if str_eq(value, "normalized") {
            Ok(SurfaceProjection::Normalized)
        } else if str_eq(value, "reading") {
            Ok(SurfaceProjection::Reading)
        } else if str_eq(value, "dictionary") {
            Ok(SurfaceProjection::Dictionary)
        } else if str_eq(value, "dictionary_and_surface") {
            Ok(SurfaceProjection::DictionaryAndSurface)
        } else if str_eq(value, "normalized_and_surface") {
            Ok(SurfaceProjection::NormalizedAndSurface)
        } else if str_eq(value, "normalized_nouns") {
            Ok(SurfaceProjection::NormalizedNouns)
        } else {
            let mut msg = String::from_str("unknown projection: ");
            msg.append(value);
            Err(SudachiError::ConfigError(ConfigError::InvalidFormat(msg)))
        }
    }
}

impl<'s> TryFrom<&'s str> for SurfaceProjection {
    type Error = SudachiError;

    fn try_from(value: &'s str) -> Result<SurfaceProjection, SudachiError> {
        SurfaceProjection::parse(value)
    }
}

impl<'s> vstd::std_specs::convert::TryFromSpecImpl<&'s str> for SurfaceProjection {
    open spec fn obeys_try_from_spec() -> bool {
        false
    }

    open spec fn try_from_spec(v: &'s str) -> Result<SurfaceProjection, SudachiError> {
        Ok(SurfaceProjection::Surface)
    }
}

/// Whether two paths are equal, as `std::path::Path` compares them: by
/// their components.
pub uninterp spec fn path_equal(a: Seq<char>, b: Seq<char>) -> bool;

/// Compares two paths with `Path`'s `==`, which compares their components
/// (an equivalence, so symmetric). The contract claims only that the answer
/// is `path_equal` of the two texts, in either order.
#[verifier::external_body]
fn path_eq(a: &str, b: &str) -> (r: bool)
    ensures
        r == path_equal(a@, b@),
        r == path_equal(b@, a@),
{
    std::path::Path::new(a) == std::path::Path::new(b)
}

/// A place relative paths are looked up in: a directory, or the resources
/// embedded in the library.
#[derive(Clone, Debug)]
pub enum ResolverRoot {
    Filesystem(String),
    Embedded,
}

/// Whether `r` is the directory `path`, compared in either order.
pub open spec fn spec_root_is(r: ResolverRoot, path: Seq<char>) -> bool {
    match r {
        ResolverRoot::Filesystem(p) => path_equal(p@, path) || path_equal(path, p@),
        ResolverRoot::Embedded => false,
    }
}

/// A copy of a root.
fn copy_root(r: &ResolverRoot) -> (c: ResolverRoot)
    ensures
        c == *r,
{
    match r {
        ResolverRoot::Filesystem(p) => ResolverRoot::Filesystem(p.clone()),
        ResolverRoot::Embedded => ResolverRoot::Embedded,
    }
}

/// Whether two roots name the same place.
pub open spec fn spec_same_root(a: ResolverRoot, b: ResolverRoot) -> bool {
    match (a, b) {
        (ResolverRoot::Filesystem(p), ResolverRoot::Filesystem(q)) => path_equal(p@, q@),
        (ResolverRoot::Embedded, ResolverRoot::Embedded) => true,
        _ => false,
    }
}

/// No place occurs twice among `roots`.
pub open spec fn spec_distinct_roots(roots: Seq<ResolverRoot>) -> bool {
    forall|i: int, j: int|
        0 <= i < j < roots.len() ==> !spec_same_root(#[trigger] roots[i], #[trigger] roots[j])
}

/// `roots` without the places `keep` rejects, in order.
pub open spec fn spec_without_dir(roots: Seq<ResolverRoot>, path: Seq<char>) -> Seq<ResolverRoot> {
    roots.filter(|r: ResolverRoot| !spec_root_is(r, path))
}

/// `roots` without the embedded resources, in order.
pub open spec fn spec_without_embedded(roots: Seq<ResolverRoot>) -> Seq<ResolverRoot> {
    roots.filter(|r: ResolverRoot| !(r is Embedded))
}

/// `roots` with directory `path` added last, unless it is there already.
pub open spec fn spec_push_dir(roots: Seq<ResolverRoot>, path: String) -> Seq<ResolverRoot> {
    if exists|k: int| 0 <= k < roots.len() && spec_root_is(#[trigger] roots[k], path@) {
        roots
    } else {
        roots.push(ResolverRoot::Filesystem(path))
    }
}

/// `roots` with the embedded resources added last, unless they are there already.
pub open spec fn spec_push_embedded(roots: Seq<ResolverRoot>) -> Seq<ResolverRoot> {
    if exists|k: int| 0 <= k < roots.len() && (#[trigger] roots[k]) is Embedded {
        roots
    } else {
        roots.push(ResolverRoot::Embedded)
    }
}

/// `roots` with `root` added last, unless its place is there already.
pub open spec fn spec_push(roots: Seq<ResolverRoot>, root: ResolverRoot) -> Seq<ResolverRoot> {
    match root {
        ResolverRoot::Filesystem(p) => spec_push_dir(roots, p),
        ResolverRoot::Embedded => spec_push_embedded(roots),
    }
}

/// `roots` with `root` first, and its place nowhere else.
pub open spec fn spec_prepend_one(roots: Seq<ResolverRoot>, root: ResolverRoot) -> Seq<
    ResolverRoot,
> {
    match root {
        ResolverRoot::Filesystem(p) => seq![root] + spec_without_dir(roots, p@),
        ResolverRoot::Embedded => seq![root] + spec_without_embedded(roots),
    }
}

/// `roots` with each of `others` added last in turn.
pub open spec fn spec_append_all(roots: Seq<ResolverRoot>, others: Seq<ResolverRoot>) -> Seq<
    ResolverRoot,
>
    decreases others.len(),
{
    if others.len() == 0 {
        roots
    } else {
        spec_push(spec_append_all(roots, others.drop_last()), others.last())
    }
}

/// `roots` with each of `others` put first in turn, from the last one.
pub open spec fn spec_prepend_all(roots: Seq<ResolverRoot>, others: Seq<ResolverRoot>) -> Seq<
    ResolverRoot,
>
    decreases others.len(),
{
    if others.len() == 0 {
        roots
    } else {
        spec_prepend_all(spec_prepend_one(roots, others.last()), others.drop_last())
    }
}

/// Roots that relative resource paths are resolved against, in order.
#[derive(Clone, Debug)]
pub struct PathResolver {
    roots: Vec<ResolverRoot>,
}

impl PathResolver {
    /// The roots, in order.
    pub closed spec fn spec_roots(&self) -> Seq<ResolverRoot> {
        self.roots@
    }

    /// A resolver with no root.
    pub fn new() -> (r: PathResolver)
        ensures
            r.spec_roots().len() == 0,
    {
        PathResolver { roots: Vec::new() }
    }

    /// A resolver with the one directory `path`.
    pub fn from_path(path: String) -> (r: PathResolver)
        ensures
            r.spec_roots() == seq![ResolverRoot::Filesystem(path)],
    {
        let mut r = PathResolver::new();
        r.push_root(path);
        proof {
            assert(r.spec_roots() =~= seq![ResolverRoot::Filesystem(path)]);
        }
        r
    }

    /// A resolver over the embedded resources only.
    pub fn from_embedded() -> (r: PathResolver)
        ensures
            r.spec_roots() == seq![ResolverRoot::Embedded],
    {
        let mut r = PathResolver::new();
        r.push_embedded();
        proof {
            assert(r.spec_roots() =~= seq![ResolverRoot::Embedded]);
        }
        r
    }

    /// Whether directory `path` is one of the roots.
    pub fn contains(&self, path: &str) -> (r: bool)
        ensures
            r == exists|k: int| 0 <= k < self.spec_roots().len() && spec_root_is(
                #[trigger] self.spec_roots()[k],
                path@,
            ),
    {
        let mut i: usize = 0;
        while i < self.roots.len()
            invariant
                i <= self.roots@.len(),
                forall|k: int| 0 <= k < i ==> !spec_root_is(#[trigger] self.roots@[k], path@),
            decreases self.roots@.len() - i,
        {
            match &self.roots[i] {
                ResolverRoot::Filesystem(p) => {
                    if path_eq(p.as_str(), path) {
                        proof {
                            assert(spec_root_is(self.spec_roots()[i as int], path@));
                        }
                        return true;
                    }
                },
                ResolverRoot::Embedded => {},
            }
            i = i + 1;
        }
        false
    }

    /// Whether the embedded resources are one of the roots.
    pub fn contains_embedded(&self) -> (r: bool)
        ensures
            r == exists|k: int| 0 <= k < self.spec_roots().len() && (#[trigger] self.spec_roots()[k]) is Embedded,
    {
        let mut i: usize = 0;
        while i < self.roots.len()
            invariant
                i <= self.roots@.len(),
                forall|k: int| 0 <= k < i ==> !((#[trigger] self.roots@[k]) is Embedded),
            decreases self.roots@.len() - i,
        {
            match &self.roots[i] {
                ResolverRoot::Filesystem(_) => {},
                ResolverRoot::Embedded => {
                    return true;
                },
            }
            i = i + 1;
        }
        false
    }

    /// Adds directory `path` last, unless it is a root already.
    pub fn push_root(&mut self, path: String)
        ensures
            final(self).spec_roots() == spec_push_dir(old(self).spec_roots(), path),
            spec_distinct_roots(old(self).spec_roots()) ==> spec_distinct_roots(final(self).spec_roots()),
    {
        if !self.contains(path.as_str()) {
            let ghost pre = self.roots@;
            proof {
                assert forall|k: int| 0 <= k < pre.len() implies !spec_root_is(#[trigger] pre[k], path@) by {
                    assert(pre[k] == self.spec_roots()[k]);
                }
            }
            self.roots.push(ResolverRoot::Filesystem(path));
            proof {
                let roots = self.roots@;
                if spec_distinct_roots(old(self).roots@) {
                    assert forall|i: int, j: int| 0 <= i < j < roots.len() implies !spec_same_root(
                        #[trigger] roots[i],
                        #[trigger] roots[j],
                    ) by {
                        if j == roots.len() - 1 {
                            assert(roots[i] == old(self).roots@[i]);
                            assert(!spec_root_is(pre[i], path@));
                        } else {
                            assert(roots[i] == old(self).roots@[i]);
                            assert(roots[j] == old(self).roots@[j]);
                        }
                    }
                }
            }
        }
    }

    /// Adds the embedded resources last, unless they are a root already.
    pub fn push_embedded(&mut self)
        ensures
            final(self).spec_roots() == spec_push_embedded(old(self).spec_roots()),
            spec_distinct_roots(old(self).spec_roots()) ==> spec_distinct_roots(final(self).spec_roots()),
    {
        if !self.contains_embedded() {
            self.roots.push(ResolverRoot::Embedded);
            proof {
                let roots = self.roots@;
                if spec_distinct_roots(old(self).roots@) {
                    assert forall|i: int, j: int| 0 <= i < j < roots.len() implies !spec_same_root(
                        #[trigger] roots[i],
                        #[trigger] roots[j],
                    ) by {
                        assert(roots[i] == old(self).roots@[i]);
                        if j < roots.len() - 1 {
                            assert(roots[j] == old(self).roots@[j]);
                        }
                    }
                }
            }
        }
    }

    /// Puts directory `path` first, removing it from where it was.
    pub fn prepend_root(&mut self, path: String)
        ensures
            final(self).spec_roots() == seq![ResolverRoot::Filesystem(path)] + spec_without_dir(
                old(self).spec_roots(),
                path@,
            ),
            spec_distinct_roots(old(self).spec_roots()) ==> spec_distinct_roots(final(self).spec_roots()),
    {
        let ghost old_roots = self.roots@;
        let mut kept: Vec<ResolverRoot> = Vec::new();
        kept.push(ResolverRoot::Filesystem(path.clone()));
        let mut i: usize = 0;
        while i < self.roots.len()
            invariant
                i <= self.roots@.len(),
                self.roots@ == old_roots,
                kept@ == seq![ResolverRoot::Filesystem(path)] + spec_without_dir(
                    old_roots.take(i as int),
                    path@,
                ),
            decreases self.roots@.len() - i,
        {
            let keep = match &self.roots[i] {
                ResolverRoot::Filesystem(p) => !path_eq(p.as_str(), path.as_str()),
                ResolverRoot::Embedded => true,
            };
            proof {
                assert(old_roots.take(i + 1) =~= old_roots.take(i as int).push(old_roots[i as int]));
                lemma_filter_push(old_roots.take(i as int), old_roots[i as int], |r: ResolverRoot| !spec_root_is(r, path@));
            }
            if keep {
                kept.push(copy_root(&self.roots[i]));
            }
            i = i + 1;
        }
        proof {
            assert(old_roots.take(i as int) =~= old_roots);
        }
        self.roots = kept;
        proof {
            lemma_prepend_distinct(old_roots, ResolverRoot::Filesystem(path));
        }
    }

    /// Puts the embedded resources first, removing them from where they were.
    pub fn prepend_embedded(&mut self)
        ensures
            final(self).spec_roots() == seq![ResolverRoot::Embedded] + spec_without_embedded(
                old(self).spec_roots(),
            ),
            spec_distinct_roots(old(self).spec_roots()) ==> spec_distinct_roots(final(self).spec_roots()),
    {
        let ghost old_roots = self.roots@;
        let mut kept: Vec<ResolverRoot> = Vec::new();
        kept.push(ResolverRoot::Embedded);
        let mut i: usize = 0;
        while i < self.roots.len()
            invariant
                i <= self.roots@.len(),
                self.roots@ == old_roots,
                kept@ == seq![ResolverRoot::Embedded] + spec_without_embedded(old_roots.take(i as int)),
            decreases self.roots@.len() - i,
        {
            let keep = match &self.roots[i] {
                ResolverRoot::Filesystem(_) => true,
                ResolverRoot::Embedded => false,
            };
            proof {
                assert(old_roots.take(i + 1) =~= old_roots.take(i as int).push(old_roots[i as int]));
                lemma_filter_push(old_roots.take(i as int), old_roots[i as int], |r: ResolverRoot| !(r is Embedded));
            }
            if keep {
                kept.push(copy_root(&self.roots[i]));
            }
            i = i + 1;
        }
        proof {
            assert(old_roots.take(i as int) =~= old_roots);
        }
        self.roots = kept;
        proof {
            lemma_prepend_distinct(old_roots, ResolverRoot::Embedded);
        }
    }

    /// Adds the roots of `other` last, in order, skipping places already there.
    pub fn append(&mut self, other: PathResolver)
        ensures
            final(self).spec_roots() == spec_append_all(old(self).spec_roots(), other.spec_roots()),
            spec_distinct_roots(old(self).spec_roots()) ==> spec_distinct_roots(final(self).spec_roots()),
    {
        let others = other.roots;
        let mut i: usize = 0;
        proof {
            assert(others@.take(0) =~= Seq::<ResolverRoot>::empty());
        }
        while i < others.len()
            invariant
                i <= others@.len(),
                self.roots@ == spec_append_all(old(self).roots@, others@.take(i as int)),
                spec_distinct_roots(old(self).roots@) ==> spec_distinct_roots(self.roots@),
            decreases others@.len() - i,
        {
            proof {
                assert(others@.take(i + 1).drop_last() =~= others@.take(i as int));
            }
            match &others[i] {
                ResolverRoot::Filesystem(p) => self.push_root(p.clone()),
                ResolverRoot::Embedded => self.push_embedded(),
            }
            i = i + 1;
        }
        proof {
            assert(others@.take(i as int) =~= others@);
        }
    }

    /// Puts the roots of `other` first, keeping their order, removing their
    /// places from where they were.
    pub fn prepend(&mut self, other: PathResolver)
        ensures
            final(self).spec_roots() == spec_prepend_all(old(self).spec_roots(), other.spec_roots()),
            spec_distinct_roots(old(self).spec_roots()) ==> spec_distinct_roots(final(self).spec_roots()),
    {
        let others = other.roots;
        let mut i: usize = others.len();
        proof {
            assert(others@.take(i as int) =~= others@);
        }
        while i > 0
            invariant
                i <= others@.len(),
                spec_prepend_all(self.roots@, others@.take(i as int)) == spec_prepend_all(
                    old(self).roots@,
                    others@,
                ),
                spec_distinct_roots(old(self).roots@) ==> spec_distinct_roots(self.roots@),
            decreases i,
        {
            proof {
                assert(others@.take(i as int).drop_last() =~= others@.take(i - 1));
            }
            i = i - 1;
            match &others[i] {
                ResolverRoot::Filesystem(p) => self.prepend_root(p.clone()),
                ResolverRoot::Embedded => self.prepend_embedded(),
            }
        }
        proof {
            assert(others@.take(0) =~= Seq::<ResolverRoot>::empty());
        }
    }

    /// The directories among the roots, in order.
    pub fn filesystem_roots(&self) -> (r: Vec<String>)
        ensures
            spec_as_dirs(r@) == self.spec_roots().filter(|x: ResolverRoot| x is Filesystem),
    {
        let mut out: Vec<String> = Vec::new();
        let mut i: usize = 0;
        while i < self.roots.len()
            invariant
                i <= self.roots@.len(),
                spec_as_dirs(out@) == self.roots@.take(i as int).filter(|x: ResolverRoot| x is Filesystem),
            decreases self.roots@.len() - i,
        {
            proof {
                assert(self.roots@.take(i + 1) =~= self.roots@.take(i as int).push(self.roots@[i as int]));
                lemma_filter_push(self.roots@.take(i as int), self.roots@[i as int], |x: ResolverRoot| x is Filesystem);
            }
            match &self.roots[i] {
                ResolverRoot::Filesystem(p) => {
                    let ghost before = out@;
                    out.push(p.clone());
                    proof {
                        assert(spec_as_dirs(out@) =~= spec_as_dirs(before).push(self.roots@[i as int]));
                    }
                },
                ResolverRoot::Embedded => {},
            }
            i = i + 1;
        }
        proof {
            assert(self.roots@.take(i as int) =~= self.roots@);
        }
        out
    }
}

/// The directories `dirs` as roots.
pub open spec fn spec_as_dirs(dirs: Seq<String>) -> Seq<ResolverRoot> {
    dirs.map_values(|s: String| ResolverRoot::Filesystem(s))
}

/// Filtering a sequence with one more element filters the element too.
proof fn lemma_filter_push(s: Seq<ResolverRoot>, x: ResolverRoot, keep: spec_fn(ResolverRoot) -> bool)
    ensures
        s.push(x).filter(keep) == if keep(x) {
            s.filter(keep).push(x)
        } else {
            s.filter(keep)
        },
{
    reveal(Seq::filter);
    assert(s.push(x).drop_last() =~= s);
}

/// Putting a root first, and removing its place elsewhere, keeps places distinct.
proof fn lemma_prepend_distinct(roots: Seq<ResolverRoot>, root: ResolverRoot)
    ensures
        spec_distinct_roots(roots) ==> spec_distinct_roots(spec_prepend_one(roots, root)),
{
    if spec_distinct_roots(roots) {
        let keep = match root {
            ResolverRoot::Filesystem(p) => |r: ResolverRoot| !spec_root_is(r, p@),
            ResolverRoot::Embedded => |r: ResolverRoot| !(r is Embedded),
        };
        let rest = roots.filter(keep);
        lemma_filter_distinct(roots, keep);
        let out = seq![root] + rest;
        assert(spec_prepend_one(roots, root) =~= out);
        assert forall|i: int, j: int| 0 <= i < j < out.len() implies !spec_same_root(
            #[trigger] out[i],
            #[trigger] out[j],
        ) by {
            if i == 0 {
                assert(out[j] == rest[j - 1]);
                assert(keep(rest[j - 1]));
            } else {
                assert(out[i] == rest[i - 1]);
                assert(out[j] == rest[j - 1]);
            }
        }
    }
}

/// A filtered sequence keeps places distinct, and holds only kept roots.
proof fn lemma_filter_distinct(roots: Seq<ResolverRoot>, keep: spec_fn(ResolverRoot) -> bool)
    requires
        spec_distinct_roots(roots),
    ensures
        spec_distinct_roots(roots.filter(keep)),
        forall|k: int| 0 <= k < roots.filter(keep).len() ==> keep(#[trigger] roots.filter(keep)[k]),
        forall|k: int|
            0 <= k < roots.filter(keep).len() ==> exists|j: int|
                0 <= j < roots.len() && roots[j] == #[trigger] roots.filter(keep)[k],
    decreases roots.len(),
{
    reveal(Seq::filter);
    if roots.len() > 0 {
        let init = roots.drop_last();
        assert forall|i: int, j: int| 0 <= i < j < init.len() implies !spec_same_root(
            #[trigger] init[i],
            #[trigger] init[j],
        ) by {
            assert(init[i] == roots[i]);
            assert(init[j] == roots[j]);
        }
        lemma_filter_distinct(init, keep);
        let f = roots.filter(keep);
        let g = init.filter(keep);
        if keep(roots.last()) {
            assert(f == g.push(roots.last()));
            assert forall|k: int| 0 <= k < g.len() implies !spec_same_root(#[trigger] g[k], roots.last()) by {
                let j = choose|j: int| 0 <= j < init.len() && init[j] == g[k];
                assert(roots[j] == g[k]);
                assert(!spec_same_root(roots[j], roots[roots.len() - 1]));
            }
            assert forall|i: int, j: int| 0 <= i < j < f.len() implies !spec_same_root(
                #[trigger] f[i],
                #[trigger] f[j],
            ) by {
                if j == f.len() - 1 {
                    assert(f[i] == g[i]);
                } else {
                    assert(f[i] == g[i]);
                    assert(f[j] == g[j]);
                }
            }
            assert forall|k: int| 0 <= k < f.len() implies exists|j: int|
                0 <= j < roots.len() && roots[j] == #[trigger] f[k] by {
                if k < g.len() {
                    let j = choose|j: int| 0 <= j < init.len() && init[j] == g[k];
                    assert(roots[j] == f[k]);
                } else {
                    assert(roots[roots.len() - 1] == f[k]);
                }
            }
        } else {
            assert(f == g);
            assert forall|k: int| 0 <= k < f.len() implies exists|j: int|
                0 <= j < roots.len() && roots[j] == #[trigger] f[k] by {
                let j = choose|j: int| 0 <= j < init.len() && init[j] == g[k];
                assert(roots[j] == f[k]);
            }
        }
    }
}

/// Name of the configuration file.
pub const DEFAULT_SETTING_FILE: &'static str = "sudachi.json";

/// Name of the character definition file.
pub const DEFAULT_CHAR_DEF_FILE: &'static str = "char.def";

/// Name of the unknown word definition file.
pub const DEFAULT_UNK_DEF_FILE: &'static str = "unk.def";

/// Name of the rewrite definition file.
pub const DEFAULT_REWRITE_DEF_FILE: &'static str = "rewrite.def";

/// A resource that the library carries with it.
#[derive(Clone, Copy, Debug, PartialEq, Eq, Structural)]
pub enum EmbeddedResource {
    Config,
    CharDef,
    UnkDef,
    RewriteDef,
}

/// The file name of an embedded resource.
pub open spec fn spec_resource_name(r: EmbeddedResource) -> Seq<char> {
    match r {
        EmbeddedResource::Config => DEFAULT_SETTING_FILE@,
        EmbeddedResource::CharDef => DEFAULT_CHAR_DEF_FILE@,
        EmbeddedResource::UnkDef => DEFAULT_UNK_DEF_FILE@,
        EmbeddedResource::RewriteDef => DEFAULT_REWRITE_DEF_FILE@,
    }
}

/// Name of whether a path is absolute, as `std::path::Path::is_absolute`
/// sees it.
pub uninterp spec fn path_is_absolute(path: Seq<char>) -> bool;

/// Whether `path` is absolute, with `std::path::Path::is_absolute`; the
/// answer is named, not stated.
#[verifier::external_body]
pub(crate) fn is_absolute(path: &str) -> (r: bool)
    ensures
        r == path_is_absolute(path@),
{
    std::path::Path::new(path).is_absolute()
}

/// Name of the number of components `std::path::Path::components` gives
/// for a path.
pub uninterp spec fn path_component_count(path: Seq<char>) -> nat;

/// The number of components of `path`, with
/// `std::path::Path::components`; the answer is named, not stated.
#[verifier::external_body]
fn component_count(path: &str) -> (r: usize)
    ensures
        r as nat == path_component_count(path@),
{
    std::path::Path::new(path).components().count()
}

/// Whether `path` is relative and made of a single component.
pub open spec fn path_is_single_name(path: Seq<char>) -> bool {
    !path_is_absolute(path) && path_component_count(path) == 1
}

/// Whether `path` is relative and made of a single component.
fn is_single_name(path: &str) -> (r: bool)
    ensures
        r == path_is_single_name(path@),
{
    !is_absolute(path) && component_count(path) == 1
}

/// Name of the text of `path` joined to `base`, as `std::path::Path::join`
/// gives it.
pub uninterp spec fn path_joined(base: Seq<char>, path: Seq<char>) -> Seq<char>;

/// The text of `path` joined to `base` with `std::path::Path::join`; the
/// result is named, not stated.
#[verifier::external_body]
pub(crate) fn path_join(base: &str, path: &str) -> (r: String)
    ensures
        r@ == path_joined(base@, path@),
{
    std::path::Path::new(base).join(path).to_string_lossy().into_owned()
}

/// The embedded resource a path names: a single relative name that is the
/// name of one of them.
pub open spec fn spec_resource_of(path: Seq<char>) -> Option<EmbeddedResource> {
    if !path_is_single_name(path) {
        None
    } else if path == DEFAULT_SETTING_FILE@ {
        Some(EmbeddedResource::Config)
    } else if path == DEFAULT_CHAR_DEF_FILE@ {
        Some(EmbeddedResource::CharDef)
    } else if path == DEFAULT_UNK_DEF_FILE@ {
        Some(EmbeddedResource::UnkDef)
    } else if path == DEFAULT_REWRITE_DEF_FILE@ {
        Some(EmbeddedResource::RewriteDef)
    } else {
        None
    }
}

impl EmbeddedResource {
    /// The file name of the resource.
    pub fn name(self) -> (r: &'static str)
        ensures
            r@ == spec_resource_name(self),
    {
        match self {
            EmbeddedResource::Config => DEFAULT_SETTING_FILE,
            EmbeddedResource::CharDef => DEFAULT_CHAR_DEF_FILE,
            EmbeddedResource::UnkDef => DEFAULT_UNK_DEF_FILE,
            EmbeddedResource::RewriteDef => DEFAULT_REWRITE_DEF_FILE,
        }
    }

    /// The resource that `path` names, if any.
    pub fn from_path(path: &str) -> (r: Option<EmbeddedResource>)
        ensures
            r == spec_resource_of(path@),
    {
        if !is_single_name(path) {
            return None;
        }
        if str_eq(path, DEFAULT_SETTING_FILE) {
            Some(EmbeddedResource::Config)
        } else if str_eq(path, DEFAULT_CHAR_DEF_FILE) {
            Some(EmbeddedResource::CharDef)
        } else if str_eq(path, DEFAULT_UNK_DEF_FILE) {
            Some(EmbeddedResource::UnkDef)
        } else if str_eq(path, DEFAULT_REWRITE_DEF_FILE) {
            Some(EmbeddedResource::RewriteDef)
        } else {
            None
        }
    }
}

/// Where a resource was found: a file, or the library itself.
#[derive(Clone, Debug)]
pub enum ResolvedResource {
    Path(String),
    Embedded(EmbeddedResource),
}

impl ResolvedResource {
    /// The path of the resource; an error for an embedded one, which has none.
    pub fn into_path(self) -> (r: Result<String, ConfigError>)
        ensures
            match self {
                ResolvedResource::Path(p) => r matches Ok(q) && q@ == p@,
                ResolvedResource::Embedded(e) => r matches Err(ConfigError::EmbeddedResourcePath(n))
                    && n@ == spec_resource_name(e),
            },
    {
        match self {
            ResolvedResource::Path(p) => Ok(p),
            ResolvedResource::Embedded(e) => Err(
                ConfigError::EmbeddedResourcePath(String::from_str(e.name())),
            ),
        }
    }
}

/// The candidate a root gives for `path`: the path joined to a directory,
/// or `<embedded>/` and the path.
pub open spec fn spec_candidate(root: ResolverRoot, path: Seq<char>) -> Seq<char> {
    match root {
        ResolverRoot::Filesystem(base) => path_joined(base@, path),
        ResolverRoot::Embedded => "<embedded>/"@ + path,
    }
}

/// Whether root `root` holds `path`: the candidate in a directory exists
/// (`exists`), or the embedded resources have one of that name.
pub open spec fn spec_root_holds(root: ResolverRoot, path: Seq<char>, exists: bool) -> bool {
    match root {
        ResolverRoot::Filesystem(_) => exists,
        ResolverRoot::Embedded => spec_resource_of(path) is Some,
    }
}

/// Position of the first root that holds `path`.
pub open spec fn spec_first_holding(roots: Seq<ResolverRoot>, path: Seq<char>, exists: Seq<bool>) -> Option<
    int,
>
    decreases roots.len(),
{
    if roots.len() == 0 {
        None
    } else {
        match spec_first_holding(roots.drop_last(), path, exists) {
            Some(k) => Some(k),
            None => if spec_root_holds(roots.last(), path, exists[roots.len() - 1]) {
                Some(roots.len() - 1)
            } else {
                None
            },
        }
    }
}

impl PathResolver {
    /// The place each root would hold `path` at, in order.
    pub fn all_candidates(&self, path: &str) -> (r: Vec<String>)
        ensures
            r@.len() == self.spec_roots().len(),
            forall|i: int|
                0 <= i < r@.len() ==> (#[trigger] r@[i])@ == spec_candidate(self.spec_roots()[i], path@),
    {
        let mut out: Vec<String> = Vec::new();
        let mut i: usize = 0;
        while i < self.roots.len()
            invariant
                i <= self.roots@.len(),
                out@.len() == i,
                forall|k: int| 0 <= k < i ==> (#[trigger] out@[k])@ == spec_candidate(self.roots@[k], path@),
            decreases self.roots@.len() - i,
        {
            match &self.roots[i] {
                ResolverRoot::Filesystem(base) => {
                    out.push(path_join(base.as_str(), path));
                },
                ResolverRoot::Embedded => {
                    let mut c = String::from_str("<embedded>/");
                    c.append(path);
                    out.push(c);
                },
            }
            i = i + 1;
        }
        out
    }

    /// The error for `path` not found under any root, with the candidates tried.
    pub fn resolution_failure(&self, path: &str) -> (r: ConfigError)
        ensures
            r matches ConfigError::PathResolution(p, c) && p@ == path@ && c@.len()
                == self.spec_roots().len() && forall|i: int|
                0 <= i < c@.len() ==> (#[trigger] c@[i])@ == spec_candidate(self.spec_roots()[i], path@),
    {
        ConfigError::PathResolution(String::from_str(path), self.all_candidates(path))
    }

    /// The resource `path` resolves to at the first root that holds it,
    /// where `exists[i]` tells whether the candidate of root `i` exists.
    pub fn pick_existing(&self, path: &str, exists: &Vec<bool>) -> (r: Option<ResolvedResource>)
        requires
            exists@.len() == self.spec_roots().len(),
        ensures
            match spec_first_holding(self.spec_roots(), path@, exists@) {
                None => r is None,
                Some(k) => match self.spec_roots()[k] {
                    ResolverRoot::Filesystem(base) => r matches Some(ResolvedResource::Path(p)) && p@
                        == path_joined(base@, path@),
                    ResolverRoot::Embedded => r matches Some(ResolvedResource::Embedded(e))
                        && spec_resource_of(path@) == Some(e),
                },
            },
    {
        let ghost roots = self.roots@;
        let mut i: usize = 0;
        proof {
            assert(roots.take(0) =~= Seq::<ResolverRoot>::empty());
        }
        while i < self.roots.len()
            invariant
                roots == self.roots@,
                exists@.len() == roots.len(),
                i <= roots.len(),
                spec_first_holding(roots.take(i as int), path@, exists@) is None,
            decreases roots.len() - i,
        {
            proof {
                assert(roots.take(i + 1).drop_last() =~= roots.take(i as int));
                assert(roots.take(i + 1).last() == roots[i as int]);
                lemma_first_holding_prefix(roots, path@, exists@, i + 1);
            }
            match &self.roots[i] {
                ResolverRoot::Filesystem(base) => {
                    if exists[i] {
                        return Some(ResolvedResource::Path(path_join(base.as_str(), path)));
                    }
                },
                ResolverRoot::Embedded => {
                    match EmbeddedResource::from_path(path) {
                        Some(e) => {
                            return Some(ResolvedResource::Embedded(e));
                        },
                        None => {},
                    }
                },
            }
            i = i + 1;
        }
        proof {
            assert(roots.take(i as int) =~= roots);
        }
        None
    }
}

/// A root found among the first `n` roots is the first root found.
proof fn lemma_first_holding_prefix(roots: Seq<ResolverRoot>, path: Seq<char>, exists: Seq<bool>, n: int)
    requires
        0 <= n <= roots.len(),
    ensures
        spec_first_holding(roots.take(n), path, exists) is Some ==> spec_first_holding(
            roots,
            path,
            exists,
        ) == spec_first_holding(roots.take(n), path, exists),
    decreases roots.len(),
{
    if roots.len() > 0 {
        if n == roots.len() {
            assert(roots.take(n) =~= roots);
        } else {
            assert(roots.drop_last().take(n) =~= roots.take(n));
            lemma_first_holding_prefix(roots.drop_last(), path, exists, n);
        }
    }
}

} // verus!
