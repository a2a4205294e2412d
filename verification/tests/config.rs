use romm_fuse::config::{
    prompt_answer,
    Args, ConfigError, ConfigFile, ProfileConfig, ProfileMeta, ProfileSource, ResolvedConfig,
};
use romm_fuse::profiles::builtins::{ProfileError, EMULATIONSTATION, MISTER, RETROARCH};
use romm_fuse::profiles::get_builtin;

fn args(mountpoint: Option<&str>, url: Option<&str>, token: Option<&str>) -> Args {
    Args {
        mountpoint: mountpoint.map(|s| s.to_string()),
        romm_url: url.map(|s| s.to_string()),
        token: token.map(|s| s.to_string()),
        profile: None,
        config: None,
        config_file: None,
        cache_dir: None,
        allow_other: false,
        ttl: None,
        chunk_size: None,
        test: false,
        foreground: false,
    }
}

#[test]
fn command_line_wins_over_config_file_and_prompt() {
    let a = args(Some("/mnt"), Some("http://cli:3000"), None);
    let mut f = ConfigFile::default();
    f.romm_url = Some("http://file:3000".to_string());
    f.token = Some("file-token".to_string());
    let r = ResolvedConfig::resolve(&a, f, Some("typed".to_string()), Some("typed".to_string()))
        .ok()
        .unwrap();
    assert_eq!(r.romm_url, "http://cli:3000");
    assert_eq!(r.token, "file-token");
    assert_eq!(r.profile, "mister");
    assert_eq!(r.mountpoint, Some("/mnt".to_string()));
}

#[test]
fn prompt_used_when_nothing_else_gives_a_value() {
    let a = args(Some("/mnt"), None, None);
    let f = ConfigFile::default();
    assert!(ResolvedConfig::needs_url_prompt(&a, &f));
    assert!(ResolvedConfig::needs_token_prompt(&a, &f));
    let r = ResolvedConfig::resolve(&a, f, Some("http://typed".to_string()), Some("tok".to_string()))
        .ok()
        .unwrap();
    assert_eq!(r.romm_url, "http://typed");
    assert_eq!(r.token, "tok");
}

#[test]
fn no_prompt_when_config_file_gives_value() {
    let a = args(Some("/mnt"), None, Some("t"));
    let mut f = ConfigFile::default();
    f.romm_url = Some("http://file".to_string());
    assert!(!ResolvedConfig::needs_url_prompt(&a, &f));
    assert!(!ResolvedConfig::needs_token_prompt(&a, &f));
}

#[test]
fn missing_values_are_reported_in_order() {
    let f = ConfigFile::default;
    let e = ResolvedConfig::resolve(&args(None, None, None), f(), None, None).err().unwrap();
    assert!(matches!(e, ConfigError::MissingMountpoint));
    assert_eq!(e.message(), "mountpoint is required");
    let e = ResolvedConfig::resolve(&args(Some("/m"), None, Some("t")), f(), None, None).err().unwrap();
    assert!(matches!(e, ConfigError::MissingUrl));
    assert_eq!(
        e.message(),
        "RomM URL is required (--romm-url, ROMM_URL, or config file)"
    );
    let e = ResolvedConfig::resolve(&args(Some("/m"), Some("u"), None), f(), None, None).err().unwrap();
    assert!(matches!(e, ConfigError::MissingToken));
    assert_eq!(
        e.message(),
        "API token is required (--token, ROMM_TOKEN, or config file)"
    );
}

#[test]
fn file_settings_fill_in_what_the_command_line_leaves_out() {
    let a = args(Some("/m"), Some("u"), Some("t"));
    let mut f = ConfigFile::default();
    f.profile = Some("retroarch".to_string());
    f.allow_other = Some(true);
    f.chunk_size = Some(1024);
    f.ttl = Some(600);
    f.cache_dir = Some("/var/cache/romm".to_string());
    let r = ResolvedConfig::resolve(&a, f, None, None).ok().unwrap();
    assert_eq!(r.profile, "retroarch");
    assert!(r.allow_other);
    assert_eq!(r.chunk_size, 1024);
    assert_eq!(r.ttl, 600);
    assert_eq!(r.cache_dir, "/var/cache/romm");
}

#[test]
fn command_line_settings_outrank_the_config_file() {
    let mut a = args(Some("/m"), Some("u"), Some("t"));
    a.chunk_size = Some(4096);
    a.ttl = Some(60);
    a.cache_dir = Some("/cli/cache".to_string());
    let mut f = ConfigFile::default();
    f.chunk_size = Some(1024);
    f.ttl = Some(600);
    f.cache_dir = Some("/file/cache".to_string());
    let r = ResolvedConfig::resolve(&a, f, None, None).ok().unwrap();
    assert_eq!(r.chunk_size, 4096);
    assert_eq!(r.ttl, 60);
    assert_eq!(r.cache_dir, "/cli/cache");
}

#[test]
fn defaults_when_nothing_is_given() {
    let a = args(Some("/m"), Some("u"), Some("t"));
    let r = ResolvedConfig::resolve(&a, ConfigFile::default(), None, None).ok().unwrap();
    assert_eq!(r.chunk_size, 262144);
    assert_eq!(r.ttl, 300);
    assert_eq!(r.cache_dir, "/tmp/romm-fuse-cache");
}

#[test]
fn candidate_config_paths() {
    assert_eq!(
        ConfigFile::candidate_paths(Some("/x/c.toml"), Some("/home/u")),
        vec!["/x/c.toml".to_string()]
    );
    assert_eq!(
        ConfigFile::candidate_paths(None, Some("/home/u")),
        vec![
            "/home/u/.config/romm-fuse/config.toml".to_string(),
            "/etc/romm-fuse/config.toml".to_string()
        ]
    );
    assert_eq!(
        ConfigFile::candidate_paths(None, None),
        vec!["/etc/romm-fuse/config.toml".to_string()]
    );
}

fn resolved(profile: &str, config: Option<&str>) -> ResolvedConfig {
    ResolvedConfig {
        romm_url: "http://localhost:3000".to_string(),
        token: "test".to_string(),
        profile: profile.to_string(),
        config: config.map(|s| s.to_string()),
        cache_dir: "/tmp/cache".to_string(),
        allow_other: false,
        ttl: 300,
        chunk_size: 262144,
        foreground: false,
        mountpoint: Some("/tmp/test".to_string()),
    }
}

#[test]
fn builtin_profiles_by_name() {
    assert_eq!(get_builtin("mister").ok(), Some(MISTER));
    assert_eq!(get_builtin("retroarch").ok(), Some(RETROARCH));
    assert_eq!(get_builtin("emulationstation").ok(), Some(EMULATIONSTATION));
    assert!(MISTER.contains("prefix = \"games\""));
    assert!(MISTER.contains("\"nes\" = \"NES\""));
    assert!(MISTER.contains("\"snes\" = \"SNES\""));
    match get_builtin("amiga") {
        Err(e) => {
            assert_eq!(e.message(), "unknown built-in profile: amiga");
            let ProfileError::UnknownBuiltin(n) = e;
            assert_eq!(n, "amiga");
        }
        Ok(_) => panic!("amiga is not built in"),
    }
}

#[test]
fn profile_source_prefers_custom_file() {
    match ProfileConfig::source(&resolved("mister", Some("/p.toml"))) {
        Ok(ProfileSource::File(p)) => assert_eq!(p, "/p.toml"),
        _ => panic!("expected the custom file"),
    }
    match ProfileConfig::source(&resolved("mister", None)) {
        Ok(ProfileSource::Builtin(t)) => assert_eq!(t, MISTER),
        _ => panic!("expected the built-in text"),
    }
    assert!(ProfileConfig::source(&resolved("nope", None)).is_err());
}

#[test]
fn platform_dir_and_prefix() {
    let p = ProfileConfig {
        profile: ProfileMeta { name: "mister".to_string(), prefix: Some("games".to_string()) },
        platforms: vec![
            ("nes".to_string(), "NES".to_string()),
            ("snes".to_string(), "SNES".to_string()),
        ],
    };
    assert_eq!(p.platform_dir("snes"), Some(&"SNES".to_string()));
    assert_eq!(p.platform_dir("gba"), None);
    assert_eq!(p.prefix(), "games");
    let q = ProfileConfig {
        profile: ProfileMeta { name: "x".to_string(), prefix: None },
        platforms: vec![],
    };
    assert_eq!(q.prefix(), "");
}

#[test]
fn prompt_answer_trims_and_drops_empty_input() {
    assert_eq!(prompt_answer("  https://romm.local \n"), Some("https://romm.local".to_string()));
    assert_eq!(prompt_answer("token"), Some("token".to_string()));
    assert_eq!(prompt_answer(" \t\r\n"), None);
    assert_eq!(prompt_answer(""), None);
    assert_eq!(prompt_answer("\u{3000}a b\u{a0}"), Some("a b".to_string()));
}
