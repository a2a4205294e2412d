//! Configuration: command-line arguments, the config file, mapping profiles,
//! and how they combine into the settings a mount runs with.
use vstd::prelude::*;

use crate::profiles::builtins::{builtin_text, get_builtin, ProfileError};
use crate::text::{chars_of, join, join_spec, push_chars, str_eq};

verus! {

/// The command-line arguments (environment variables already folded in).
pub struct Args {
    /// Mountpoint directory.
    pub mountpoint: Option<String>,
    /// RomM instance URL.
    pub romm_url: Option<String>,
    /// Bearer token for the RomM API.
    pub token: Option<String>,
    /// Built-in profile name.
    pub profile: Option<String>,
    /// Custom profile TOML file.
    pub config: Option<String>,
    /// Config file path.
    pub config_file: Option<String>,
    /// Local cache directory, when given on the command line or in the
    /// environment.
    pub cache_dir: Option<String>,
    /// Pass `allow_other` to the FUSE mount.
    pub allow_other: bool,
    /// How long cached data stays valid, in seconds, when given on the
    /// command line or in the environment.
    pub ttl: Option<u64>,
    /// Chunk size for partial reads, in bytes, when given on the command
    /// line or in the environment.
    pub chunk_size: Option<u64>,
    /// Test the RomM connection and exit.
    pub test: bool,
    /// Stay in the foreground.
    pub foreground: bool,
}

/// The config file's settings; each may be missing.
pub struct ConfigFile {
    pub romm_url: Option<String>,
    pub token: Option<String>,
    pub profile: Option<String>,
    pub cache_dir: Option<String>,
    pub allow_other: Option<bool>,
    pub ttl: Option<u64>,
    pub chunk_size: Option<u64>,
}

impl Default for ConfigFile {
    fn default() -> (c: Self)
        ensures
            c.romm_url is None,
            c.token is None,
            c.profile is None,
            c.cache_dir is None,
            c.allow_other is None,
            c.ttl is None,
            c.chunk_size is None,
    {
        ConfigFile {
            romm_url: None,
            token: None,
            profile: None,
            cache_dir: None,
            allow_other: None,
            ttl: None,
            chunk_size: None,
        }
    }
}

/// The default config file below the home directory `home`.
pub open spec fn home_config_path(home: Seq<char>) -> Seq<char> {
    join_spec(join_spec(join_spec(home, ".config"@), "romm-fuse"@), "config.toml"@)
}

/// The cache directory when neither the command line nor the config file
/// names one.
pub const DEFAULT_CACHE_DIR: &'static str = "/tmp/romm-fuse-cache";

/// How long cached data stays valid, in seconds, when nothing says otherwise.
pub const DEFAULT_TTL: u64 = 300;

/// The chunk size, in bytes, when nothing says otherwise (256 KiB).
pub const DEFAULT_CHUNK_SIZE: u64 = 262144;

/// The system-wide config file.
pub const SYSTEM_CONFIG_PATH: &'static str = "/etc/romm-fuse/config.toml";

impl ConfigFile {
    /// The config files to try, in order: the one given, else the one under
    /// the home directory (when there is one) and then the system-wide one.
    pub fn candidate_paths(path: Option<&str>, home: Option<&str>) -> (v: Vec<String>)
        ensures
            v@.map_values(|s: String| s@) == match path {
                Some(p) => seq![p@],
                None => match home {
                    Some(h) => seq![home_config_path(h@), SYSTEM_CONFIG_PATH@],
                    None => seq![SYSTEM_CONFIG_PATH@],
                },
            },
    {
        let mut v: Vec<String> = Vec::new();
        match path {
            Some(p) => {
                v.push(p.to_owned());
            },
            None => {
                if let Some(h) = home {
                    let a = join(h, ".config");
                    let b = join(a.as_str(), "romm-fuse");
                    let c = join(b.as_str(), "config.toml");
                    v.push(c);
                }
                v.push(SYSTEM_CONFIG_PATH.to_owned());
            },
        }
        proof {
            let want = match path {
                Some(p) => seq![p@],
                None => match home {
                    Some(h) => seq![home_config_path(h@), SYSTEM_CONFIG_PATH@],
                    None => seq![SYSTEM_CONFIG_PATH@],
                },
            };
            assert(v@.map_values(|s: String| s@) =~= want);
        }
        v
    }
}

/// A profile's header: its name and the optional directory every platform
/// directory goes under.
pub struct ProfileMeta {
    pub name: String,
    pub prefix: Option<String>,
}

/// A parsed mapping profile: its header and, per RomM platform slug, the
/// directory name that platform gets.
pub struct ProfileConfig {
    pub profile: ProfileMeta,
    pub platforms: Vec<(String, String)>,
}

/// No slug occurs twice among the pairs, as in a map keyed by slug.
pub open spec fn unique_slugs<V>(pairs: Seq<(String, V)>) -> bool {
    forall|i: int, j: int| 0 <= i < j < pairs.len() ==> pairs[i].0@ != pairs[j].0@
}

/// Whether no slug occurs twice among `pairs`.
pub fn slugs_unique<V>(pairs: &[(String, V)]) -> (r: bool)
    ensures
        r == unique_slugs(pairs@),
{
    let mut i: usize = 0;
    while i < pairs.len()
        invariant
            i <= pairs@.len(),
            forall|a: int, b: int| 0 <= a < b < pairs@.len() && a < i ==> pairs@[a].0@ != pairs@[b].0@,
        decreases pairs@.len() - i,
    {
        let mut j: usize = i + 1;
        while j < pairs.len()
            invariant
                i < pairs@.len(),
                i + 1 <= j <= pairs@.len(),
                forall|a: int, b: int| 0 <= a < b < pairs@.len() && a < i ==> pairs@[a].0@ != pairs@[b].0@,
                forall|b: int| i < b < j ==> pairs@[i as int].0@ != pairs@[b].0@,
            decreases pairs@.len() - j,
        {
            if pairs[i].0 == pairs[j].0 {
                return false;
            }
            j = j + 1;
        }
        i = i + 1;
    }
    true
}

/// The directory name that the first pair of `platforms` naming `slug` gives.
pub open spec fn platform_dir_spec(platforms: Seq<(String, String)>, slug: Seq<char>) -> Option<
    Seq<char>,
>
    decreases platforms.len(),
{
    if platforms.len() == 0 {
        None
    } else if platforms[0].0@ == slug {
        Some(platforms[0].1@)
    } else {
        platform_dir_spec(platforms.drop_first(), slug)
    }
}

proof fn lemma_platform_dir_skip(platforms: Seq<(String, String)>, slug: Seq<char>, i: int)
    requires
        0 <= i <= platforms.len(),
        forall|j: int| 0 <= j < i ==> platforms[j].0@ != slug,
    ensures
        platform_dir_spec(platforms, slug) == platform_dir_spec(platforms.skip(i), slug),
    decreases i,
{
    if i > 0 {
        lemma_platform_dir_skip(platforms, slug, i - 1);
        assert(platforms.skip(i - 1).drop_first() =~= platforms.skip(i));
    } else {
        assert(platforms.skip(0) =~= platforms);
    }
}

/// With no slug twice, a profile maps `slug` to the name paired with it,
/// and to nothing when no pair has it.
pub proof fn law_platform_dir_is_map_lookup(platforms: Seq<(String, String)>, slug: Seq<char>)
    requires
        unique_slugs(platforms),
    ensures
        forall|i: int|
            0 <= i < platforms.len() && (#[trigger] platforms[i]).0@ == slug ==> platform_dir_spec(
                platforms,
                slug,
            ) == Some(platforms[i].1@),
        (forall|i: int| 0 <= i < platforms.len() ==> (#[trigger] platforms[i]).0@ != slug)
            ==> platform_dir_spec(platforms, slug) is None,
{
    assert forall|i: int| 0 <= i < platforms.len() && (#[trigger] platforms[i]).0@ == slug implies platform_dir_spec(
        platforms,
        slug,
    ) == Some(platforms[i].1@) by {
        lemma_platform_dir_skip(platforms, slug, i);
    }
    if forall|i: int| 0 <= i < platforms.len() ==> (#[trigger] platforms[i]).0@ != slug {
        lemma_platform_dir_skip(platforms, slug, platforms.len() as int);
    }
}

/// Whether `c` is white space in Unicode (`char::is_whitespace`).
pub open spec fn is_white_space(c: char) -> bool {
    let u = c as u32;
    (0x9 <= u <= 0xd) || u == 0x20 || u == 0x85 || u == 0xa0 || u == 0x1680 || (0x2000 <= u
        <= 0x200a) || u == 0x2028 || u == 0x2029 || u == 0x202f || u == 0x205f || u == 0x3000
}

/// `s` without its leading white space.
pub open spec fn trim_start_spec(s: Seq<char>) -> Seq<char>
    decreases s.len(),
{
    if s.len() > 0 && is_white_space(s[0]) {
        trim_start_spec(s.drop_first())
    } else {
        s
    }
}

/// `s` without its trailing white space.
pub open spec fn trim_end_spec(s: Seq<char>) -> Seq<char>
    decreases s.len(),
{
    if s.len() > 0 && is_white_space(s.last()) {
        trim_end_spec(s.drop_last())
    } else {
        s
    }
}

/// `s` without leading and trailing white space.
pub open spec fn trim_spec(s: Seq<char>) -> Seq<char> {
    trim_end_spec(trim_start_spec(s))
}

fn white_space(c: char) -> (r: bool)
    ensures
        r == is_white_space(c),
{
    let u = c as u32;
    (0x9 <= u && u <= 0xd) || u == 0x20 || u == 0x85 || u == 0xa0 || u == 0x1680 || (0x2000 <= u
        && u <= 0x200a) || u == 0x2028 || u == 0x2029 || u == 0x202f || u == 0x205f || u == 0x3000
}

/// What a line typed at a prompt answers: the line without surrounding
/// white space, or nothing when that leaves it empty.
pub fn prompt_answer(input: &str) -> (r: Option<String>)
    ensures
        match r {
            Some(a) => a@ == trim_spec(input@) && a@.len() > 0,
            None => trim_spec(input@).len() == 0,
        },
{
    let cs = chars_of(input);
    let mut i: usize = 0;
    proof {
        assert(cs@.skip(0) =~= cs@);
    }
    while i < cs.len() && white_space(cs[i])
        invariant
            i <= cs@.len(),
            cs@ == input@,
            trim_start_spec(cs@.skip(i as int)) == trim_start_spec(input@),
        decreases cs@.len() - i,
    {
        proof {
            assert(cs@.skip(i as int).drop_first() =~= cs@.skip(i + 1));
        }
        i = i + 1;
    }
    let mut j: usize = cs.len();
    proof {
        assert(cs@.subrange(i as int, j as int) =~= cs@.skip(i as int));
        assert(trim_start_spec(cs@.skip(i as int)) == cs@.skip(i as int));
    }
    while j > i && white_space(cs[j - 1])
        invariant
            i <= j <= cs@.len(),
            trim_end_spec(cs@.subrange(i as int, j as int)) == trim_spec(input@),
        decreases j,
    {
        proof {
            assert(cs@.subrange(i as int, j as int).drop_last() =~= cs@.subrange(i as int, j - 1));
        }
        j = j - 1;
    }
    let ghost t = cs@.subrange(i as int, j as int);
    if i == j {
        proof {
            assert(t.len() == 0);
        }
        return None;
    }
    proof {
        assert(!is_white_space(t.last()));
    }
    let mut out = String::new();
    push_chars(&mut out, vstd::slice::slice_subrange(cs.as_slice(), i, j));
    Some(out)
}

/// Where a profile's TOML text comes from.
pub enum ProfileSource {
    /// A custom profile file at this path.
    File(String),
    /// The text of a built-in profile.
    Builtin(&'static str),
}

impl ProfileConfig {
    /// The directory name of platform `slug`, if the profile maps it.
    pub fn platform_dir(&self, slug: &str) -> (r: Option<&String>)
        requires
            unique_slugs(self.platforms@),
        ensures
            match r {
                Some(d) => platform_dir_spec(self.platforms@, slug@) == Some(d@),
                None => platform_dir_spec(self.platforms@, slug@) is None,
            },
    {
        let mut i: usize = 0;
        while i < self.platforms.len()
            invariant
                i <= self.platforms@.len(),
                forall|j: int| 0 <= j < i ==> self.platforms@[j].0@ != slug@,
            decreases self.platforms@.len() - i,
        {
            if str_eq(self.platforms[i].0.as_str(), slug) {
                proof {
                    lemma_platform_dir_skip(self.platforms@, slug@, i as int);
                }
                return Some(&self.platforms[i].1);
            }
            i = i + 1;
        }
        proof {
            lemma_platform_dir_skip(self.platforms@, slug@, i as int);
        }
        None
    }

    /// The directory every platform directory goes under; empty when the
    /// profile has none.
    pub fn prefix(&self) -> (p: &str)
        ensures
            p@ == match self.profile.prefix {
                Some(x) => x@,
                None => Seq::<char>::empty(),
            },
    {
        match &self.profile.prefix {
            Some(x) => x.as_str(),
            None => {
                proof {
                    reveal_strlit("");
                }
                ""
            },
        }
    }

    /// Where the profile of a resolved configuration comes from: the custom
    /// profile file when one is given, else the built-in profile it names.
    pub fn source(args: &ResolvedConfig) -> (r: Result<ProfileSource, ProfileError>)
        ensures
            match args.config {
                Some(path) => r matches Ok(ProfileSource::File(p)) && p@ == path@,
                None => match builtin_text(args.profile@) {
                    Some(text) => r matches Ok(ProfileSource::Builtin(t)) && t@ == text,
                    None => r matches Err(ProfileError::UnknownBuiltin(n)) && n@ == args.profile@,
                },
            },
    {
        match &args.config {
            Some(path) => Ok(ProfileSource::File(path.clone())),
            None => match get_builtin(args.profile.as_str()) {
                Ok(text) => Ok(ProfileSource::Builtin(text)),
                Err(e) => Err(e),
            },
        }
    }
}

/// The settings a mount runs with.
pub struct ResolvedConfig {
    pub romm_url: String,
    pub token: String,
    pub profile: String,
    pub config: Option<String>,
    pub cache_dir: String,
    pub allow_other: bool,
    pub ttl: u64,
    pub chunk_size: u64,
    pub foreground: bool,
    pub mountpoint: Option<String>,
}

/// Why the settings could not be resolved.
pub enum ConfigError {
    MissingMountpoint,
    MissingUrl,
    MissingToken,
}

impl ConfigError {
    /// The message the error is reported with.
    pub fn message(&self) -> (m: &'static str)
        ensures
            m@ == match self {
                ConfigError::MissingMountpoint => "mountpoint is required"@,
                ConfigError::MissingUrl => "RomM URL is required (--romm-url, ROMM_URL, or config file)"@,
                ConfigError::MissingToken => "API token is required (--token, ROMM_TOKEN, or config file)"@,
            },
    {
        match self {
            ConfigError::MissingMountpoint => "mountpoint is required",
            ConfigError::MissingUrl => "RomM URL is required (--romm-url, ROMM_URL, or config file)",
            ConfigError::MissingToken => "API token is required (--token, ROMM_TOKEN, or config file)",
        }
    }
}

/// The first of `a`, `b`, `c` that is present.
pub open spec fn first_of(a: Option<String>, b: Option<String>, c: Option<String>) -> Option<String> {
    if a is Some {
        a
    } else if b is Some {
        b
    } else {
        c
    }
}

/// The profile name: from the command line, else the config file, else
/// `mister`.
pub open spec fn profile_spec(args: Args, file: ConfigFile) -> Seq<char> {
    match args.profile {
        Some(p) => p@,
        None => match file.profile {
            Some(p) => p@,
            None => "mister"@,
        },
    }
}

fn first_present(a: &Option<String>, b: Option<String>, c: Option<String>) -> (r: Option<String>)
    ensures
        r == first_of(*a, b, c),
{
    match a {
        Some(x) => Some(x.clone()),
        None => match b {
            Some(y) => Some(y),
            None => c,
        },
    }
}

impl ResolvedConfig {
    /// Whether the URL has to be asked for: neither the command line nor
    /// the config file gives one.
    pub fn needs_url_prompt(args: &Args, file: &ConfigFile) -> (r: bool)
        ensures
            r == (args.romm_url is None && file.romm_url is None),
    {
        args.romm_url.is_none() && file.romm_url.is_none()
    }

    /// Whether the token has to be asked for: neither the command line nor
    /// the config file gives one.
    pub fn needs_token_prompt(args: &Args, file: &ConfigFile) -> (r: bool)
        ensures
            r == (args.token is None && file.token is None),
    {
        args.token.is_none() && file.token.is_none()
    }

    /// Combines the command line (environment variables included), the
    /// config file and what was typed at the prompts, in that order of
    /// priority. The URL and token must come from one of them and the
    /// mountpoint from the command line; the profile, cache directory, time
    /// to live and chunk size fall back to their defaults when neither
    /// source gives them; `allow_other` is set by either source.
    pub fn resolve(
        args: &Args,
        file: ConfigFile,
        prompted_url: Option<String>,
        prompted_token: Option<String>,
    ) -> (r: Result<ResolvedConfig, ConfigError>)
        ensures
            ({
                let url = first_of(args.romm_url, file.romm_url, prompted_url);
                let token = first_of(args.token, file.token, prompted_token);
                match r {
                    Ok(c) => {
                        &&& args.mountpoint is Some && url is Some && token is Some
                        &&& c.romm_url == url->0
                        &&& c.token == token->0
                        &&& c.profile@ == profile_spec(*args, file)
                        &&& c.config == args.config
                        &&& c.cache_dir@ == match args.cache_dir {
                            Some(d) => d@,
                            None => match file.cache_dir {
                                Some(d) => d@,
                                None => DEFAULT_CACHE_DIR@,
                            },
                        }
                        &&& c.allow_other == (args.allow_other || file.allow_other == Some(true))
                        &&& c.ttl == match args.ttl {
                            Some(n) => n,
                            None => match file.ttl {
                                Some(n) => n,
                                None => DEFAULT_TTL,
                            },
                        }
                        &&& c.chunk_size == match args.chunk_size {
                            Some(n) => n,
                            None => match file.chunk_size {
                                Some(n) => n,
                                None => DEFAULT_CHUNK_SIZE,
                            },
                        }
                        &&& c.foreground == args.foreground
                        &&& c.mountpoint == args.mountpoint
                    },
                    Err(ConfigError::MissingMountpoint) => args.mountpoint is None,
                    Err(ConfigError::MissingUrl) => args.mountpoint is Some && url is None,
                    Err(ConfigError::MissingToken) => args.mountpoint is Some && url is Some
                        && token is None,
                }
            }),
    {
        let url = first_present(&args.romm_url, file.romm_url, prompted_url);
        let token = first_present(&args.token, file.token, prompted_token);
        let profile = match &args.profile {
            Some(p) => p.clone(),
            None => match file.profile {
                Some(p) => p,
                None => "mister".to_owned(),
            },
        };
        let mountpoint = match &args.mountpoint {
            Some(m) => m.clone(),
            None => {
                return Err(ConfigError::MissingMountpoint);
            },
        };
        let romm_url = match url {
            Some(u) => u,
            None => {
                return Err(ConfigError::MissingUrl);
            },
        };
        let token = match token {
            Some(t) => t,
            None => {
                return Err(ConfigError::MissingToken);
            },
        };
        let allow_other = args.allow_other || match file.allow_other {
            Some(b) => b,
            None => false,
        };
        let chunk_size = match args.chunk_size {
            Some(n) => n,
            None => match file.chunk_size {
                Some(n) => n,
                None => DEFAULT_CHUNK_SIZE,
            },
        };
        let ttl = match args.ttl {
            Some(n) => n,
            None => match file.ttl {
                Some(n) => n,
                None => DEFAULT_TTL,
            },
        };
        let cache_dir = match &args.cache_dir {
            Some(d) => d.clone(),
            None => match file.cache_dir {
                Some(d) => d,
                None => DEFAULT_CACHE_DIR.to_owned(),
            },
        };
        Ok(ResolvedConfig {
            romm_url,
            token,
            profile,
            config: args.config.clone(),
            cache_dir,
            allow_other,
            ttl,
            chunk_size,
            foreground: args.foreground,
            mountpoint: Some(mountpoint),
        })
    }
}

/// The profile comes from the command line whenever it names one; only when
/// it does not does the config file's profile apply, and only when neither
/// names one is it `mister`.
pub proof fn law_profile_priority(args: Args, file: ConfigFile)
    ensures
        args.profile is Some ==> profile_spec(args, file) == args.profile->0@,
        args.profile is None && file.profile is Some ==> profile_spec(args, file)
            == file.profile->0@,
        args.profile is None && file.profile is None ==> profile_spec(args, file) == seq![
            'm',
            'i',
            's',
            't',
            'e',
            'r',
        ],
{
    reveal_strlit("mister");
}

/// The URL and the token each come from the command line when it gives
/// one, else from the config file, else from what was typed at the prompt.
pub proof fn law_first_of_priority(a: Option<String>, b: Option<String>, c: Option<String>)
    ensures
        a is Some ==> first_of(a, b, c) == a,
        a is None && b is Some ==> first_of(a, b, c) == b,
        a is None && b is None ==> first_of(a, b, c) == c,
{
}

proof fn lemma_trim_start_cut(s: Seq<char>) -> (a: int)
    ensures
        0 <= a <= s.len(),
        trim_start_spec(s) == s.skip(a),
        forall|i: int| 0 <= i < a ==> is_white_space(#[trigger] s[i]),
        a < s.len() ==> !is_white_space(s[a]),
    decreases s.len(),
{
    if s.len() > 0 && is_white_space(s[0]) {
        let rest = s.drop_first();
        let a0 = lemma_trim_start_cut(rest);
        assert(rest.skip(a0) =~= s.skip(a0 + 1));
        assert forall|i: int| 0 <= i < a0 + 1 implies is_white_space(#[trigger] s[i]) by {
            if i > 0 {
                assert(s[i] == rest[i - 1]);
            }
        }
        if a0 + 1 < s.len() {
            assert(s[a0 + 1] == rest[a0]);
        }
        a0 + 1
    } else {
        assert(s.skip(0) =~= s);
        0
    }
}

proof fn lemma_trim_end_cut(s: Seq<char>) -> (b: int)
    ensures
        0 <= b <= s.len(),
        trim_end_spec(s) == s.take(b),
        forall|i: int| b <= i < s.len() ==> is_white_space(#[trigger] s[i]),
        b > 0 ==> !is_white_space(s[b - 1]),
    decreases s.len(),
{
    if s.len() > 0 && is_white_space(s.last()) {
        let rest = s.drop_last();
        let b0 = lemma_trim_end_cut(rest);
        assert(rest.take(b0) =~= s.take(b0));
        assert forall|i: int| b0 <= i < s.len() implies is_white_space(#[trigger] s[i]) by {
            if i < rest.len() {
                assert(s[i] == rest[i]);
            }
        }
        if b0 > 0 {
            assert(s[b0 - 1] == rest[b0 - 1]);
        }
        b0
    } else {
        assert(s.take(s.len() as int) =~= s);
        s.len() as int
    }
}

/// Trimming cuts off exactly the white space at both ends: what is left is
/// a run of consecutive characters of `s`, everything before and after it
/// is white space, and when it is not empty it starts and ends with a
/// character that is not.
pub proof fn law_trim_cuts_white_ends(s: Seq<char>)
    ensures
        exists|a: int|
            0 <= a && a + trim_spec(s).len() <= s.len() && #[trigger] s.subrange(
                a,
                a + trim_spec(s).len(),
            ) == trim_spec(s) && (forall|i: int| 0 <= i < a ==> is_white_space(#[trigger] s[i]))
                && (forall|i: int|
                a + trim_spec(s).len() <= i < s.len() ==> is_white_space(#[trigger] s[i])),
        trim_spec(s).len() > 0 ==> !is_white_space(trim_spec(s)[0]) && !is_white_space(
            trim_spec(s).last(),
        ),
{
    let a = lemma_trim_start_cut(s);
    let u = s.skip(a);
    let b = lemma_trim_end_cut(u);
    let r = trim_spec(s);
    assert(r == u.take(b));
    assert(r =~= s.subrange(a, a + b));
    assert forall|i: int| a + b <= i < s.len() implies is_white_space(#[trigger] s[i]) by {
        assert(s[i] == u[i - a]);
    }
    if r.len() > 0 {
        assert(r[0] == s[a]);
        assert(r.last() == u[b - 1]);
    }
    assert(s.subrange(a, a + r.len()) == r);
}

/// Without a config file named on the command line, the one read is
/// `.config/romm-fuse/config.toml` below the home directory.
pub proof fn law_home_config_path(home: Seq<char>)
    requires
        home.len() > 0,
        home.last() != '/',
    ensures
        home_config_path(home) == home + "/.config/romm-fuse/config.toml"@,
{
    reveal_strlit(".config");
    reveal_strlit("romm-fuse");
    reveal_strlit("config.toml");
    reveal_strlit("/.config/romm-fuse/config.toml");
    let a = join_spec(home, ".config"@);
    assert(a =~= home.push('/') + ".config"@);
    let b = join_spec(a, "romm-fuse"@);
    assert(b =~= a.push('/') + "romm-fuse"@);
    let c = join_spec(b, "config.toml"@);
    assert(c =~= b.push('/') + "config.toml"@);
    assert(c =~= home + "/.config/romm-fuse/config.toml"@);
}

} // verus!
