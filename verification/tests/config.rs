use sudachi::config::builder::MINIMAL_OOV_PLUGIN;
use sudachi::config::{
    Config, ConfigBuilder, ConfigError, EmbeddedResource, PathResolver, RawConfig,
    ResolvedResource, SurfaceProjection,
};
use sudachi::error::SudachiError;

#[test]
fn surface_projection_tryfrom() {
    assert_eq!(
        SurfaceProjection::Surface,
        SurfaceProjection::try_from("surface").unwrap()
    );
}

#[test]
fn surface_projection_rejects_unknown_names() {
    assert_eq!(
        SurfaceProjection::parse("normalized_nouns").unwrap(),
        SurfaceProjection::NormalizedNouns
    );
    match SurfaceProjection::parse("nouns") {
        Err(SudachiError::ConfigError(e)) => {
            assert_eq!(format!("{:?}", e), "InvalidFormat(\"unknown projection: nouns\")")
        }
        other => panic!("unexpected {:?}", other.is_ok()),
    }
    assert_eq!(SurfaceProjection::Reading.required_subset().0, 32);
    assert_eq!(SurfaceProjection::Surface.required_subset().0, 0);
}

#[test]
fn resolver_roots_stay_distinct_and_ordered() {
    let mut r = PathResolver::from_path("config-root".to_string());
    r.push_root("config-root".to_string());
    assert_eq!(r.filesystem_roots(), vec!["config-root".to_string()]);
    r.prepend_root("resource-root".to_string());
    assert_eq!(
        r.filesystem_roots(),
        vec!["resource-root".to_string(), "config-root".to_string()]
    );
    r.prepend_root("config-root".to_string());
    assert_eq!(
        r.filesystem_roots(),
        vec!["config-root".to_string(), "resource-root".to_string()]
    );
    r.push_embedded();
    r.push_embedded();
    assert!(r.contains_embedded());
    assert!(r.contains("resource-root"));
    assert!(!r.contains("other"));
    let mut other = PathResolver::new();
    other.push_root("third".to_string());
    other.push_root("resource-root".to_string());
    r.append(other);
    assert_eq!(
        r.filesystem_roots(),
        vec![
            "config-root".to_string(),
            "resource-root".to_string(),
            "third".to_string()
        ]
    );
}

#[test]
fn prepend_resolver_puts_other_roots_first() {
    let mut r = PathResolver::from_path("a".to_string());
    r.push_root("b".to_string());
    let mut other = PathResolver::from_path("c".to_string());
    other.push_root("b".to_string());
    r.prepend(other);
    assert_eq!(
        r.filesystem_roots(),
        vec!["c".to_string(), "b".to_string(), "a".to_string()]
    );
    let mut e = PathResolver::from_embedded();
    e.prepend_embedded();
    assert!(e.contains_embedded());
    assert!(e.filesystem_roots().is_empty());
}

#[test]
fn embedded_resources_are_named_by_a_single_file_name() {
    assert_eq!(EmbeddedResource::from_path("char.def"), Some(EmbeddedResource::CharDef));
    assert_eq!(EmbeddedResource::from_path("sudachi.json"), Some(EmbeddedResource::Config));
    assert_eq!(EmbeddedResource::from_path("a/char.def"), None);
    assert_eq!(EmbeddedResource::from_path("/char.def"), None);
    assert_eq!(EmbeddedResource::from_path("other.def"), None);
    assert_eq!(EmbeddedResource::UnkDef.name(), "unk.def");
}

#[test]
fn embedded_resource_has_no_path() {
    match ResolvedResource::Embedded(EmbeddedResource::RewriteDef).into_path() {
        Err(ConfigError::EmbeddedResourcePath(n)) => assert_eq!(n, "rewrite.def"),
        _ => panic!("an embedded resource has no path"),
    }
    match ResolvedResource::Path("/x/y".to_string()).into_path() {
        Ok(p) => assert_eq!(p, "/x/y"),
        _ => panic!("a path resolves to itself"),
    }
}

#[test]
fn candidates_follow_the_roots_and_the_first_holding_root_wins() {
    let mut r = PathResolver::from_path("/a".to_string());
    r.push_embedded();
    r.push_root("/b".to_string());
    let c = r.all_candidates("char.def");
    assert_eq!(c, vec!["/a/char.def", "<embedded>/char.def", "/b/char.def"]);
    match r.pick_existing("char.def", &vec![false, false, true]) {
        Some(ResolvedResource::Embedded(e)) => assert_eq!(e, EmbeddedResource::CharDef),
        _ => panic!("the embedded resources come before /b"),
    }
    match r.pick_existing("x.txt", &vec![false, false, true]) {
        Some(ResolvedResource::Path(p)) => assert_eq!(p, "/b/x.txt"),
        _ => panic!("/b holds x.txt"),
    }
    assert!(r.pick_existing("x.txt", &vec![false, true, false]).is_none());
    match r.resolution_failure("x.txt") {
        ConfigError::PathResolution(p, c) => {
            assert_eq!(p, "x.txt");
            assert_eq!(c.len(), 3);
        }
        _ => panic!("a resolution failure"),
    }
}

#[test]
fn builder_setters_fill_the_data() {
    let b = ConfigBuilder::empty()
        .system_dict("system.dic".to_string())
        .user_dict("a.dic".to_string())
        .user_dict("b.dic".to_string())
        .character_definition_file("my.def".to_string())
        .projection(SurfaceProjection::Normalized);
    let raw = b.raw_config();
    assert_eq!(raw.system_dict.as_deref(), Some("system.dic"));
    assert_eq!(
        raw.user_dict.clone().unwrap(),
        vec!["a.dic".to_string(), "b.dic".to_string()]
    );
    assert_eq!(raw.character_definition_file.as_deref(), Some("my.def"));
    assert_eq!(raw.projection, Some(SurfaceProjection::Normalized));
    let cfg = b.build();
    assert_eq!(cfg.system_dict.as_deref(), Some("system.dic"));
    assert_eq!(cfg.user_dicts.len(), 2);
    assert_eq!(cfg.character_definition_file, "my.def");
    assert_eq!(cfg.projection, SurfaceProjection::Normalized);
}

#[test]
fn build_defaults_when_data_is_missing() {
    let cfg = Config::empty();
    assert!(cfg.system_dict.is_none());
    assert!(cfg.user_dicts.is_empty());
    assert_eq!(cfg.character_definition_file, "char.def");
    assert!(cfg.oov_provider_plugins.is_empty());
    assert_eq!(cfg.projection, SurfaceProjection::Surface);
}

#[test]
fn fallback_data_fills_only_missing_fields() {
    let mut first = RawConfig::empty();
    first.system_dict = Some("mine.dic".to_string());
    let mut second = RawConfig::empty();
    second.system_dict = Some("other.dic".to_string());
    second.character_definition_file = Some("other.def".to_string());
    second.user_dict = Some(vec!["u.dic".to_string()]);
    let merged = ConfigBuilder::from_data(first)
        .fallback_data(&ConfigBuilder::from_data(second))
        .into_raw_config();
    assert_eq!(merged.system_dict.as_deref(), Some("mine.dic"));
    assert_eq!(merged.character_definition_file.as_deref(), Some("other.def"));
    assert_eq!(merged.user_dict, Some(vec!["u.dic".to_string()]));
    assert!(merged.projection.is_none());
}

#[test]
fn from_data_makes_the_path_a_root() {
    let mut data = RawConfig::empty();
    data.path = Some("/etc/sudachi".to_string());
    let b = ConfigBuilder::from_data(data);
    assert_eq!(b.resolver.filesystem_roots(), vec!["/etc/sudachi".to_string()]);
}

#[test]
fn minimal_config_has_the_simple_oov_plugin() {
    let cfg = Config::minimal_at(PathResolver::new());
    assert_eq!(cfg.oov_provider_plugins, vec![MINIMAL_OOV_PLUGIN.to_string()]);
    assert!(MINIMAL_OOV_PLUGIN.contains("\u{666e}\u{901a}\u{540d}\u{8a5e}"));
    let cfg = cfg.with_system_dic("sys.dic".to_string());
    assert_eq!(cfg.system_dict.as_deref(), Some("sys.dic"));
}

#[test]
fn resolve_paths_expands_exe_and_cfg() {
    let cfg = ConfigBuilder::empty()
        .push_resolver_root("/r1".to_string())
        .push_embedded()
        .push_resolver_root("/r2".to_string())
        .build();
    assert_eq!(
        cfg.resolve_paths("$exe/x.dic".to_string(), "/bin"),
        vec!["/bin/deps/x.dic".to_string(), "/bin/x.dic".to_string()]
    );
    assert_eq!(
        cfg.resolve_paths("$cfg/x.dic".to_string(), "/bin"),
        vec!["/r1/x.dic".to_string(), "/r2/x.dic".to_string()]
    );
    assert_eq!(
        cfg.resolve_paths("$cfg\\x.dic".to_string(), "/bin"),
        vec!["/r1/x.dic".to_string(), "/r2/x.dic".to_string()]
    );
    assert_eq!(
        cfg.resolve_paths("plain.dic".to_string(), "/bin"),
        vec!["plain.dic".to_string()]
    );
}

#[test]
fn resolve_resource_prefers_absolute_then_roots_then_cwd() {
    let cfg = ConfigBuilder::empty()
        .push_resolver_root("/r1".to_string())
        .push_resolver_root("/r2".to_string())
        .build();
    match cfg.resolve_resource("/abs/x.dic", &vec![false, false], false) {
        Ok(ResolvedResource::Path(p)) => assert_eq!(p, "/abs/x.dic"),
        _ => panic!("absolute path"),
    }
    match cfg.resolve_resource("x.dic", &vec![false, true], true) {
        Ok(ResolvedResource::Path(p)) => assert_eq!(p, "/r2/x.dic"),
        _ => panic!("second root"),
    }
    match cfg.resolve_resource("x.dic", &vec![false, false], true) {
        Ok(ResolvedResource::Path(p)) => assert_eq!(p, "x.dic"),
        _ => panic!("current directory"),
    }
    match cfg.resolve_resource("x.dic", &vec![false, false], false) {
        Err(ConfigError::PathResolution(p, c)) => {
            assert_eq!(p, "x.dic");
            assert_eq!(c, vec!["/r1/x.dic".to_string(), "/r2/x.dic".to_string()]);
        }
        _ => panic!("expected an error"),
    }
    assert_eq!(cfg.complete_path("x.dic", &vec![true, true], false).unwrap(), "/r1/x.dic");
}
