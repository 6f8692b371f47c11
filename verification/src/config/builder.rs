//! Configuration data as a configuration file gives it, how it is completed
//! from other data, and the configuration it builds.

use vstd::prelude::*;
use vstd::string::StringExecFns;

use crate::config::{
    is_absolute, path_is_absolute, path_join, path_joined, spec_candidate, spec_first_holding, spec_resource_of,
    ConfigError, PathResolver, ResolvedResource, ResolverRoot, SurfaceProjection,
};

verus! {

/// Default name of the character definition file.
pub const DEFAULT_CHAR_DEF: &'static str = "char.def";

/// Settings of the simple unknown-word plugin of a minimal configuration,
/// as JSON.
pub const MINIMAL_OOV_PLUGIN: &'static str = "{\"class\":\"com.worksap.nlp.sudachi.SimpleOovPlugin\",\"oovPOS\":[\"\u{540d}\u{8a5e}\",\"\u{666e}\u{901a}\u{540d}\u{8a5e}\",\"\u{4e00}\u{822c}\",\"*\",\"*\",\"*\"],\"leftId\":0,\"rightId\":0,\"cost\":30000}";

/// Configuration data, each field present or not. Paths are texts; the
/// settings of each plugin are JSON texts.
#[derive(Clone, Debug)]
pub struct RawConfig {
    pub path: Option<String>,
    pub system_dict: Option<String>,
    pub user_dict: Option<Vec<String>>,
    pub character_definition_file: Option<String>,
    pub connection_cost_plugin: Option<Vec<String>>,
    pub input_text_plugin: Option<Vec<String>>,
    pub oov_provider_plugin: Option<Vec<String>>,
    pub path_rewrite_plugin: Option<Vec<String>>,
    pub projection: Option<SurfaceProjection>,
}

impl RawConfig {
    /// Data with no field present.
    pub open spec fn spec_empty() -> RawConfig {
        RawConfig {
            path: None,
            system_dict: None,
            user_dict: None,
            character_definition_file: None,
            connection_cost_plugin: None,
            input_text_plugin: None,
            oov_provider_plugin: None,
            path_rewrite_plugin: None,
            projection: None,
        }
    }

    /// Data with no field present.
    pub fn empty() -> (r: RawConfig)
        ensures
            r == RawConfig::spec_empty(),
    {
        RawConfig {
            path: None,
            system_dict: None,
            user_dict: None,
            character_definition_file: None,
            connection_cost_plugin: None,
            input_text_plugin: None,
            oov_provider_plugin: None,
            path_rewrite_plugin: None,
            projection: None,
        }
    }
}

/// `a` when present, else a copy of `b`.
fn or_string(a: Option<String>, b: &Option<String>) -> (r: Option<String>)
    ensures
        r == if a is Some {
            a
        } else {
            *b
        },
{
    match a {
        Some(x) => Some(x),
        None => match b {
            Some(y) => Some(y.clone()),
            None => None,
        },
    }
}

/// A copy of a list of texts.
fn copy_strings(v: &Vec<String>) -> (r: Vec<String>)
    ensures
        r@ == v@,
{
    let mut out: Vec<String> = Vec::new();
    let mut i: usize = 0;
    while i < v.len()
        invariant
            i <= v@.len(),
            out@ == v@.take(i as int),
        decreases v@.len() - i,
    {
        out.push(v[i].clone());
        proof {
            assert(v@.take(i + 1) =~= v@.take(i as int).push(v@[i as int]));
        }
        i = i + 1;
    }
    proof {
        assert(v@.take(v@.len() as int) =~= v@);
    }
    out
}

/// `a` when present, else a copy of `b`.
fn or_strings(a: Option<Vec<String>>, b: &Option<Vec<String>>) -> (r: Option<Vec<String>>)
    ensures
        match a {
            Some(x) => r == Some(x),
            None => match *b {
                Some(y) => r matches Some(z) && z@ == y@,
                None => r is None,
            },
        },
{
    match a {
        Some(x) => Some(x),
        None => match b {
            Some(y) => Some(copy_strings(y)),
            None => None,
        },
    }
}

/// Editable configuration: data, and the roots relative paths are
/// resolved against.
pub struct ConfigBuilder {
    pub data: RawConfig,
    pub resolver: PathResolver,
}

impl ConfigBuilder {
    /// A builder of `data`; its `path`, when present, becomes a root.
    pub fn from_data(data: RawConfig) -> (r: ConfigBuilder)
        ensures
            r.data == data,
            r.resolver.spec_roots() == match data.path {
                Some(p) => seq![ResolverRoot::Filesystem(p)],
                None => Seq::<ResolverRoot>::empty(),
            },
    {
        let mut resolver = PathResolver::new();
        match &data.path {
            Some(p) => {
                resolver.push_root(p.clone());
                proof {
                    assert(resolver.spec_roots() =~= seq![ResolverRoot::Filesystem(*p)]);
                }
            },
            None => {},
        }
        ConfigBuilder { data, resolver }
    }

    /// A builder with no data and no root.
    pub fn empty() -> (r: ConfigBuilder)
        ensures
            r.data == RawConfig::spec_empty(),
            r.resolver.spec_roots().len() == 0,
    {
        ConfigBuilder { data: RawConfig::empty(), resolver: PathResolver::new() }
    }

    /// Sets the system dictionary.
    pub fn system_dict(self, dict: String) -> (r: ConfigBuilder)
        ensures
            r.data == (RawConfig { system_dict: Some(dict), ..self.data }),
            r.resolver == self.resolver,
    {
        let ConfigBuilder { mut data, resolver } = self;
        data.system_dict = Some(dict);
        ConfigBuilder { data, resolver }
    }

    /// Adds a user dictionary after the others.
    pub fn user_dict(self, dict: String) -> (r: ConfigBuilder)
        ensures
            r.data.user_dict matches Some(v) && v@ == match self.data.user_dict {
                Some(w) => w@,
                None => Seq::<String>::empty(),
            }.push(dict),
            r.data == (RawConfig { user_dict: r.data.user_dict, ..self.data }),
            r.resolver == self.resolver,
    {
        let ConfigBuilder { mut data, resolver } = self;
        let mut dicts = match data.user_dict {
            Some(v) => v,
            None => Vec::new(),
        };
        dicts.push(dict);
        data.user_dict = Some(dicts);
        ConfigBuilder { data, resolver }
    }

    /// Sets the character definition file.
    pub fn character_definition_file(self, path: String) -> (r: ConfigBuilder)
        ensures
            r.data == (RawConfig { character_definition_file: Some(path), ..self.data }),
            r.resolver == self.resolver,
    {
        let ConfigBuilder { mut data, resolver } = self;
        data.character_definition_file = Some(path);
        ConfigBuilder { data, resolver }
    }

    /// Sets how analysis results are shown.
    pub fn projection(self, projection: SurfaceProjection) -> (r: ConfigBuilder)
        ensures
            r.data == (RawConfig { projection: Some(projection), ..self.data }),
            r.resolver == self.resolver,
    {
        let ConfigBuilder { mut data, resolver } = self;
        data.projection = Some(projection);
        ConfigBuilder { data, resolver }
    }

    /// Replaces the roots.
    pub fn with_resolver(self, resolver: PathResolver) -> (r: ConfigBuilder)
        ensures
            r.data == self.data,
            r.resolver == resolver,
    {
        ConfigBuilder { data: self.data, resolver }
    }

    /// Adds the roots of `other` after the roots.
    pub fn append_resolver(self, other: PathResolver) -> (r: ConfigBuilder)
        ensures
            r.data == self.data,
            r.resolver.spec_roots() == crate::config::spec_append_all(
                self.resolver.spec_roots(),
                other.spec_roots(),
            ),
    {
        let ConfigBuilder { data, mut resolver } = self;
        resolver.append(other);
        ConfigBuilder { data, resolver }
    }

    /// Puts the roots of `other` before the roots.
    pub fn prepend_resolver(self, other: PathResolver) -> (r: ConfigBuilder)
        ensures
            r.data == self.data,
            r.resolver.spec_roots() == crate::config::spec_prepend_all(
                self.resolver.spec_roots(),
                other.spec_roots(),
            ),
    {
        let ConfigBuilder { data, mut resolver } = self;
        resolver.prepend(other);
        ConfigBuilder { data, resolver }
    }

    /// Adds directory `path` as the last root.
    pub fn push_resolver_root(self, path: String) -> (r: ConfigBuilder)
        ensures
            r.data == self.data,
            r.resolver.spec_roots() == crate::config::spec_push_dir(self.resolver.spec_roots(), path),
    {
        let ConfigBuilder { data, mut resolver } = self;
        resolver.push_root(path);
        ConfigBuilder { data, resolver }
    }

    /// Puts directory `path` first among the roots.
    pub fn prepend_resolver_root(self, path: String) -> (r: ConfigBuilder)
        ensures
            r.data == self.data,
            r.resolver.spec_roots() == crate::config::spec_prepend_one(
                self.resolver.spec_roots(),
                ResolverRoot::Filesystem(path),
            ),
    {
        let ConfigBuilder { data, mut resolver } = self;
        resolver.prepend_root(path);
        ConfigBuilder { data, resolver }
    }

    /// Adds the embedded resources as the last root.
    pub fn push_embedded(self) -> (r: ConfigBuilder)
        ensures
            r.data == self.data,
            r.resolver.spec_roots() == crate::config::spec_push_embedded(self.resolver.spec_roots()),
    {
        let ConfigBuilder { data, mut resolver } = self;
        resolver.push_embedded();
        ConfigBuilder { data, resolver }
    }

    /// Fills each field that is missing from the same field of `other`.
    pub fn fallback_data(self, other: &ConfigBuilder) -> (r: ConfigBuilder)
        ensures
            r.resolver == self.resolver,
            r.data.path == if self.data.path is Some {
                self.data.path
            } else {
                other.data.path
            },
            r.data.system_dict == if self.data.system_dict is Some {
                self.data.system_dict
            } else {
                other.data.system_dict
            },
            r.data.character_definition_file == if self.data.character_definition_file is Some {
                self.data.character_definition_file
            } else {
                other.data.character_definition_file
            },
            r.data.projection == if self.data.projection is Some {
                self.data.projection
            } else {
                other.data.projection
            },
            spec_filled(self.data.user_dict, other.data.user_dict, r.data.user_dict),
            spec_filled(
                self.data.connection_cost_plugin,
                other.data.connection_cost_plugin,
                r.data.connection_cost_plugin,
            ),
            spec_filled(self.data.input_text_plugin, other.data.input_text_plugin, r.data.input_text_plugin),
            spec_filled(
                self.data.oov_provider_plugin,
                other.data.oov_provider_plugin,
                r.data.oov_provider_plugin,
            ),
            spec_filled(
                self.data.path_rewrite_plugin,
                other.data.path_rewrite_plugin,
                r.data.path_rewrite_plugin,
            ),
    {
        let ConfigBuilder { data, resolver } = self;
        let o = &other.data;
        let projection = match data.projection {
            Some(p) => Some(p),
            None => o.projection,
        };
        let data = RawConfig {
            path: or_string(data.path, &o.path),
            system_dict: or_string(data.system_dict, &o.system_dict),
            user_dict: or_strings(data.user_dict, &o.user_dict),
            character_definition_file: or_string(data.character_definition_file, &o.character_definition_file),
            connection_cost_plugin: or_strings(data.connection_cost_plugin, &o.connection_cost_plugin),
            input_text_plugin: or_strings(data.input_text_plugin, &o.input_text_plugin),
            oov_provider_plugin: or_strings(data.oov_provider_plugin, &o.oov_provider_plugin),
            path_rewrite_plugin: or_strings(data.path_rewrite_plugin, &o.path_rewrite_plugin),
            projection,
        };
        ConfigBuilder { data, resolver }
    }

    /// The data.
    pub fn raw_config(&self) -> (r: &RawConfig)
        ensures
            *r == self.data,
    {
        &self.data
    }

    /// The data, taken out of the builder.
    pub fn into_raw_config(self) -> (r: RawConfig)
        ensures
            r == self.data,
    {
        self.data
    }

    /// The configuration: missing lists empty, the character definition
    /// file `char.def` and the projection `Surface` unless given.
    pub fn build(self) -> (r: Config)
        ensures
            r.resolver == self.resolver,
            r.system_dict == self.data.system_dict,
            r.user_dicts@ == spec_list_or_empty(self.data.user_dict),
            r.character_definition_file@ == match self.data.character_definition_file {
                Some(p) => p@,
                None => DEFAULT_CHAR_DEF@,
            },
            r.connection_cost_plugins@ == spec_list_or_empty(self.data.connection_cost_plugin),
            r.input_text_plugins@ == spec_list_or_empty(self.data.input_text_plugin),
            r.oov_provider_plugins@ == spec_list_or_empty(self.data.oov_provider_plugin),
            r.path_rewrite_plugins@ == spec_list_or_empty(self.data.path_rewrite_plugin),
            r.projection == match self.data.projection {
                Some(p) => p,
                None => SurfaceProjection::Surface,
            },
    {
        let ConfigBuilder { data, resolver } = self;
        Config {
            resolver,
            system_dict: data.system_dict,
            user_dicts: list_or_empty(data.user_dict),
            character_definition_file: match data.character_definition_file {
                Some(p) => p,
                None => String::from_str(DEFAULT_CHAR_DEF),
            },
            connection_cost_plugins: list_or_empty(data.connection_cost_plugin),
            input_text_plugins: list_or_empty(data.input_text_plugin),
            oov_provider_plugins: list_or_empty(data.oov_provider_plugin),
            path_rewrite_plugins: list_or_empty(data.path_rewrite_plugin),
            projection: match data.projection {
                Some(p) => p,
                None => SurfaceProjection::Surface,
            },
        }
    }
}

/// Whether `r` is `a` when present, else holds what `b` holds.
pub open spec fn spec_filled(a: Option<Vec<String>>, b: Option<Vec<String>>, r: Option<Vec<String>>) -> bool {
    match a {
        Some(x) => r == Some(x),
        None => match b {
            Some(y) => r matches Some(z) && z@ == y@,
            None => r is None,
        },
    }
}

/// The texts of a list that may be missing, none when it is.
pub open spec fn spec_list_or_empty(v: Option<Vec<String>>) -> Seq<String> {
    match v {
        Some(x) => x@,
        None => Seq::empty(),
    }
}

fn list_or_empty(v: Option<Vec<String>>) -> (r: Vec<String>)
    ensures
        r@ == spec_list_or_empty(v),
{
    match v {
        Some(x) => x,
        None => Vec::new(),
    }
}

/// Settings: the roots relative paths are resolved against, the
/// dictionaries, the character definition file, the settings of each
/// plugin as JSON texts, and how analysis results are shown.
pub struct Config {
    pub resolver: PathResolver,
    pub system_dict: Option<String>,
    pub user_dicts: Vec<String>,
    pub character_definition_file: String,
    pub connection_cost_plugins: Vec<String>,
    pub input_text_plugins: Vec<String>,
    pub oov_provider_plugins: Vec<String>,
    pub path_rewrite_plugins: Vec<String>,
    pub projection: SurfaceProjection,
}

/// Whether `s` starts with `p`.
pub open spec fn spec_starts_with(s: Seq<char>, p: Seq<char>) -> bool {
    p.len() <= s.len() && s.subrange(0, p.len() as int) == p
}

/// The paths `path` stands for: with a leading `$exe` replaced by the
/// directory of the executable, `exe_dir` (and its `deps` subdirectory
/// first); with a leading `$cfg/` or `$cfg\` dropped and the rest joined to
/// each directory root; else `path` itself.
pub open spec fn spec_resolve_paths(roots: Seq<ResolverRoot>, path: Seq<char>, exe_dir: Seq<char>) -> Seq<
    Seq<char>,
> {
    if spec_starts_with(path, "$exe"@) {
        let rest = path.skip(4);
        seq![exe_dir + "/deps"@ + rest, exe_dir + rest]
    } else if spec_starts_with(path, "$cfg/"@) || spec_starts_with(path, "$cfg\\"@) {
        let dirs = roots.filter(|x: ResolverRoot| x is Filesystem);
        Seq::new(dirs.len(), |i: int| path_joined(dirs[i]->Filesystem_0@, path.skip(5)))
    } else {
        seq![path]
    }
}

/// Whether `s` starts with `p`.
fn starts_with(s: &Vec<char>, p: &str) -> (r: bool)
    ensures
        r == spec_starts_with(s@, p@),
{
    let pc = crate::dic::build::parse::str_chars(p);
    if pc.len() > s.len() {
        return false;
    }
    let mut i: usize = 0;
    while i < pc.len()
        invariant
            pc@ == p@,
            pc@.len() <= s@.len(),
            i <= pc@.len(),
            forall|k: int| 0 <= k < i ==> s@[k] == pc@[k],
        decreases pc@.len() - i,
    {
        if s[i] != pc[i] {
            proof {
                assert(s@.subrange(0, pc@.len() as int)[i as int] != pc@[i as int]);
            }
            return false;
        }
        i = i + 1;
    }
    proof {
        assert(s@.subrange(0, pc@.len() as int) =~= pc@);
    }
    true
}

impl Config {
    /// A configuration with no data: no dictionary, the character
    /// definition file `char.def`, no plugin, no root.
    pub fn empty() -> (r: Config)
        ensures
            r.resolver.spec_roots().len() == 0,
            r.system_dict is None,
            r.user_dicts@.len() == 0,
            r.projection == SurfaceProjection::Surface,
    {
        ConfigBuilder::empty().build()
    }

    /// A configuration over the roots of `resolver`, with the simple
    /// unknown-word plugin only.
    pub fn minimal_at(resolver: PathResolver) -> (r: Config)
        ensures
            r.resolver.spec_roots() == crate::config::spec_append_all(Seq::empty(), resolver.spec_roots()),
            r.system_dict is None,
            r.oov_provider_plugins@.len() == 1 && r.oov_provider_plugins@[0]@ == MINIMAL_OOV_PLUGIN@,
            r.input_text_plugins@.len() == 0,
    {
        let b = ConfigBuilder::empty();
        proof {
            assert(b.resolver.spec_roots() =~= Seq::<ResolverRoot>::empty());
        }
        let mut cfg = b.append_resolver(resolver).build();
        let mut plugins: Vec<String> = Vec::new();
        plugins.push(String::from_str(MINIMAL_OOV_PLUGIN));
        cfg.oov_provider_plugins = plugins;
        cfg
    }

    /// The resource `path` resolves to: an absolute path as it is; else the
    /// first root that holds it, where `exists[i]` tells whether the
    /// candidate of root `i` exists; else `path` itself when it exists
    /// relative to the current directory (`path_exists`); else an error
    /// listing the candidates.
    pub fn resolve_resource(&self, path: &str, exists: &Vec<bool>, path_exists: bool) -> (r: Result<
        ResolvedResource,
        ConfigError,
    >)
        requires
            exists@.len() == self.resolver.spec_roots().len(),
        ensures
            path_is_absolute(path@) ==> (r matches Ok(ResolvedResource::Path(p)) && p@ == path@),
            !path_is_absolute(path@) ==> match spec_first_holding(self.resolver.spec_roots(), path@, exists@) {
                Some(k) => match self.resolver.spec_roots()[k] {
                    ResolverRoot::Filesystem(base) => r matches Ok(ResolvedResource::Path(p)) && p@
                        == path_joined(base@, path@),
                    ResolverRoot::Embedded => r matches Ok(ResolvedResource::Embedded(e)) && spec_resource_of(
                        path@,
                    ) == Some(e),
                },
                None => if path_exists {
                    r matches Ok(ResolvedResource::Path(p)) && p@ == path@
                } else {
                    r matches Err(ConfigError::PathResolution(p, c)) && p@ == path@ && c@.len()
                        == self.resolver.spec_roots().len() && forall|i: int|
                        0 <= i < c@.len() ==> (#[trigger] c@[i])@ == spec_candidate(
                            self.resolver.spec_roots()[i],
                            path@,
                        )
                },
            },
    {
        if is_absolute(path) {
            return Ok(ResolvedResource::Path(String::from_str(path)));
        }
        match self.resolver.pick_existing(path, exists) {
            Some(found) => Ok(found),
            None => {
                if path_exists {
                    Ok(ResolvedResource::Path(String::from_str(path)))
                } else {
                    Err(self.resolver.resolution_failure(path))
                }
            },
        }
    }

    /// The path `path` resolves to, found as [`Config::resolve_resource`]
    /// finds it; an error when it resolves to an embedded resource, which
    /// has no path, or to nothing.
    pub fn complete_path(&self, path: &str, exists: &Vec<bool>, path_exists: bool) -> (r: Result<
        String,
        ConfigError,
    >)
        requires
            exists@.len() == self.resolver.spec_roots().len(),
        ensures
            path_is_absolute(path@) ==> (r matches Ok(q) && q@ == path@),
            !path_is_absolute(path@) ==> match spec_first_holding(self.resolver.spec_roots(), path@, exists@) {
                Some(k) => match self.resolver.spec_roots()[k] {
                    ResolverRoot::Filesystem(base) => r matches Ok(q) && q@ == path_joined(base@, path@),
                    ResolverRoot::Embedded => r matches Err(ConfigError::EmbeddedResourcePath(_)),
                },
                None => if path_exists {
                    r matches Ok(q) && q@ == path@
                } else {
                    r matches Err(ConfigError::PathResolution(p, _)) && p@ == path@
                },
            },
    {
        match self.resolve_resource(path, exists, path_exists) {
            Ok(found) => found.into_path(),
            Err(e) => Err(e),
        }
    }

    /// The configuration with `system` as the system dictionary.
    pub fn with_system_dic(self, system: String) -> (r: Config)
        ensures
            r.system_dict == Some(system),
            r.resolver == self.resolver,
            r.user_dicts == self.user_dicts,
    {
        let mut c = self;
        c.system_dict = Some(system);
        c
    }

    /// The paths `path` stands for (see [`spec_resolve_paths`]), the
    /// directory of the executable being `exe_dir`.
    pub fn resolve_paths(&self, path: String, exe_dir: &str) -> (r: Vec<String>)
        ensures
            r@.map_values(|s: String| s@) == spec_resolve_paths(self.resolver.spec_roots(), path@, exe_dir@),
    {
        let chars = crate::dic::build::parse::str_chars(path.as_str());
        let n = chars.len();
        if starts_with(&chars, "$exe") {
            proof {
                reveal_strlit("$exe");
            }
            let rest = crate::dic::build::parse::string_of(chars.as_slice(), 4, n);
            let mut p2 = String::from_str(exe_dir);
            p2.append("/deps");
            p2.append(rest.as_str());
            let mut p1 = String::from_str(exe_dir);
            p1.append(rest.as_str());
            let mut out: Vec<String> = Vec::new();
            out.push(p2);
            out.push(p1);
            proof {
                reveal_strlit("$exe");
                assert(rest@ =~= path@.skip(4));
                assert(out@.map_values(|s: String| s@) =~= spec_resolve_paths(
                    self.resolver.spec_roots(),
                    path@,
                    exe_dir@,
                ));
            }
            return out;
        }
        if starts_with(&chars, "$cfg/") || starts_with(&chars, "$cfg\\") {
            proof {
                reveal_strlit("$cfg/");
                reveal_strlit("$cfg\\");
            }
            let rest = crate::dic::build::parse::string_of(chars.as_slice(), 5, n);
            let dirs = self.resolver.filesystem_roots();
            let ghost ds = self.resolver.spec_roots().filter(|x: ResolverRoot| x is Filesystem);
            let mut out: Vec<String> = Vec::new();
            let mut i: usize = 0;
            while i < dirs.len()
                invariant
                    crate::config::spec_as_dirs(dirs@) == ds,
                    rest@ == path@.skip(5),
                    i <= dirs@.len(),
                    out@.len() == i,
                    forall|k: int|
                        0 <= k < i ==> (#[trigger] out@[k])@ == path_joined(ds[k]->Filesystem_0@, path@.skip(5)),
                decreases dirs@.len() - i,
            {
                proof {
                    assert(ds[i as int] == ResolverRoot::Filesystem(dirs@[i as int]));
                }
                out.push(path_join(dirs[i].as_str(), rest.as_str()));
                i = i + 1;
            }
            proof {
                assert(out@.map_values(|s: String| s@) =~= spec_resolve_paths(
                    self.resolver.spec_roots(),
                    path@,
                    exe_dir@,
                ));
            }
            return out;
        }
        let ghost p = path@;
        let mut out: Vec<String> = Vec::new();
        out.push(path);
        proof {
            reveal_strlit("$exe");
            reveal_strlit("$cfg/");
            reveal_strlit("$cfg\\");
            assert(out@.map_values(|s: String| s@) =~= seq![p]);
        }
        out
    }
}

} // verus!
