//! Runtime configuration: environment variables first, then the
//! `[codex_mem9]` table of the Codex config file, then the top-level keys
//! of the service config file (read by the `brew services` daemon, which
//! does not see the shell environment), then defaults.
use vstd::prelude::*;
use crate::paths::{join_path, join_path_exec};
use crate::text::{chars_of, string_from_chars, trim_end_len, trim_spec, trim_start_index};

verus! {

/// The Mem9 service used when none is configured.
pub const DEFAULT_API_URL: &'static str = "https://api.mem9.ai";

/// Seconds between two syncs of `watch` when none (or zero) is configured.
pub const DEFAULT_POLL_INTERVAL_SECONDS: u64 = 15;

/// The configuration the commands run with. Paths are path text.
#[derive(Clone, Debug)]
pub struct RuntimeConfig {
    pub api_url: String,
    pub api_key: Option<String>,
    pub tenant_id: String,
    pub codex_memories_dir: String,
    pub state_path: String,
    pub poll_interval_seconds: u64,
}

/// The settings of one config file: the `[codex_mem9]` table of the Codex
/// config file, or the top-level keys of the service config file. Absent
/// keys are `None`, and so is every key when the file does not exist.
#[derive(Clone, Debug)]
pub struct FileConfig {
    pub api_url: Option<String>,
    pub api_key: Option<String>,
    pub tenant_id: Option<String>,
    pub codex_memories_dir: Option<String>,
    pub state_path: Option<String>,
    pub poll_interval_seconds: Option<u64>,
}

/// The environment variables the configuration reads, as found (`None`
/// when unset or not Unicode).
#[derive(Clone, Debug)]
pub struct EnvironmentValues {
    /// `HOME`
    pub home: Option<String>,
    /// `MEM9_TENANT_ID`
    pub tenant_id: Option<String>,
    /// `MEM9_API_URL`
    pub api_url: Option<String>,
    /// `MEM9_API_KEY`
    pub api_key: Option<String>,
    /// `CODEX_CONFIG_PATH`
    pub codex_config_path: Option<String>,
    /// `CODEX_MEMORIES_DIR`
    pub codex_memories_dir: Option<String>,
    /// `CODEX_MEM9_STATE_PATH`
    pub state_path: Option<String>,
    /// `CODEX_MEM9_POLL_INTERVAL_SECONDS`
    pub poll_interval_seconds: Option<String>,
}

impl Default for FileConfig {
    /// No key set, as when the config file does not exist.
    fn default() -> (res: Self)
        ensures
            res.api_url is None,
            res.api_key is None,
            res.tenant_id is None,
            res.codex_memories_dir is None,
            res.state_path is None,
            res.poll_interval_seconds is None,
    {
        FileConfig {
            api_url: None,
            api_key: None,
            tenant_id: None,
            codex_memories_dir: None,
            state_path: None,
            poll_interval_seconds: None,
        }
    }
}

impl Default for EnvironmentValues {
    /// No variable set.
    fn default() -> (res: Self)
        ensures
            res.home is None,
            res.tenant_id is None,
            res.api_url is None,
            res.api_key is None,
            res.codex_config_path is None,
            res.codex_memories_dir is None,
            res.state_path is None,
            res.poll_interval_seconds is None,
    {
        EnvironmentValues {
            home: None,
            tenant_id: None,
            api_url: None,
            api_key: None,
            codex_config_path: None,
            codex_memories_dir: None,
            state_path: None,
            poll_interval_seconds: None,
        }
    }
}

/// Why no configuration could be made.
#[derive(Clone, Copy, Debug, PartialEq, Eq)]
pub enum ConfigError {
    /// Neither `MEM9_TENANT_ID` nor `[codex_mem9].tenant_id` is set.
    MissingTenantId,
}

/// The plain value of an optional string.
pub open spec fn opt_view(o: Option<String>) -> Option<Seq<char>> {
    match o {
        Some(s) => Some(s@),
        None => None,
    }
}

/// An environment value counts only when it is not blank.
pub open spec fn env_value_spec(raw: Option<Seq<char>>) -> Option<Seq<char>> {
    match raw {
        Some(v) => if trim_spec(v).len() > 0 {
            Some(v)
        } else {
            None
        },
        None => None,
    }
}

/// The first of two optional values that is present.
pub open spec fn or_spec(a: Option<Seq<char>>, b: Option<Seq<char>>) -> Option<Seq<char>> {
    match a {
        Some(x) => Some(x),
        None => b,
    }
}

/// The home directory: `HOME` when set and not blank, else `~`.
pub open spec fn home_dir_spec(env: EnvironmentValues) -> Seq<char> {
    match env_value_spec(opt_view(env.home)) {
        Some(h) => h,
        None => "~"@,
    }
}

/// Where the Codex config file is read from: `CODEX_CONFIG_PATH`, else
/// `<home>/.codex/config.toml`.
pub open spec fn codex_config_path_spec(env: EnvironmentValues) -> Seq<char> {
    match env_value_spec(opt_view(env.codex_config_path)) {
        Some(p) => p,
        None => join_path(join_path(home_dir_spec(env), ".codex"@), "config.toml"@),
    }
}

/// Where the service config file is read from:
/// `<home>/Library/Application Support/ai.dmego.codex-mem9/config.toml`.
pub open spec fn service_config_path_spec(env: EnvironmentValues) -> Seq<char> {
    join_path(
        join_path(
            join_path(join_path(home_dir_spec(env), "Library"@), "Application Support"@),
            "ai.dmego.codex-mem9"@,
        ),
        "config.toml"@,
    )
}

/// A setting from the config files: the Codex config file's value, else
/// the service config file's.
pub open spec fn file_setting(file: Option<String>, service: Option<String>) -> Option<Seq<char>> {
    or_spec(opt_view(file), opt_view(service))
}

/// A setting: the environment value when set and not blank, else the
/// Codex config file's, else the service config file's.
pub open spec fn setting(env: Option<String>, file: Option<String>, service: Option<String>) -> Option<
    Seq<char>,
> {
    or_spec(env_value_spec(opt_view(env)), file_setting(file, service))
}

/// The text is one or more ASCII digits.
pub open spec fn is_decimal(s: Seq<char>) -> bool {
    s.len() > 0 && forall|i: int| 0 <= i < s.len() ==> '0' <= #[trigger] s[i] <= '9'
}

/// The number the decimal digits `s` spell.
pub open spec fn decimal_value(s: Seq<char>) -> nat
    decreases s.len(),
{
    if s.len() == 0 {
        0
    } else {
        decimal_value(s.drop_last()) * 10 + ((s.last() as u32) - 48) as nat
    }
}

/// `u64::from_str`: an optional `+` and then decimal digits whose value
/// fits in a `u64`.
pub open spec fn parse_u64_spec(s: Seq<char>) -> Option<u64> {
    let digits = if s.len() > 0 && s[0] == '+' {
        s.drop_first()
    } else {
        s
    };
    if is_decimal(digits) && decimal_value(digits) <= u64::MAX {
        Some(decimal_value(digits) as u64)
    } else {
        None
    }
}

/// The poll interval: the environment value when it parses, else the
/// Codex config file's, else the service config file's; zero counts as
/// unset; else the default.
pub open spec fn poll_interval_spec(env: EnvironmentValues, file: FileConfig, service: FileConfig) -> u64 {
    let from_env = match env_value_spec(opt_view(env.poll_interval_seconds)) {
        Some(v) => parse_u64_spec(v),
        None => None,
    };
    let chosen = match from_env {
        Some(v) => Some(v),
        None => match file.poll_interval_seconds {
            Some(v) => Some(v),
            None => service.poll_interval_seconds,
        },
    };
    match chosen {
        Some(v) => if v > 0 {
            v
        } else {
            DEFAULT_POLL_INTERVAL_SECONDS
        },
        None => DEFAULT_POLL_INTERVAL_SECONDS,
    }
}

/// The configuration made of the environment, the Codex config file's
/// `[codex_mem9]` table and the service config file, or why none can be
/// made.
pub open spec fn runtime_config_spec(env: EnvironmentValues, file: FileConfig, service: FileConfig) -> Result<
    (Seq<char>, Option<Seq<char>>, Seq<char>, Seq<char>, Seq<char>, u64),
    ConfigError,
> {
    let home = home_dir_spec(env);
    let codex_dir = join_path(home, ".codex"@);
    match setting(env.tenant_id, file.tenant_id, service.tenant_id) {
        None => Err(ConfigError::MissingTenantId),
        Some(tenant_id) => {
            let api_key = setting(env.api_key, file.api_key, service.api_key);
            let api_url = match setting(env.api_url, file.api_url, service.api_url) {
                Some(u) => u,
                None => DEFAULT_API_URL@,
            };
            let memories = match setting(
                env.codex_memories_dir,
                file.codex_memories_dir,
                service.codex_memories_dir,
            ) {
                Some(d) => d,
                None => join_path(codex_dir, "memories"@),
            };
            let state = match setting(env.state_path, file.state_path, service.state_path) {
                Some(p) => p,
                None => join_path(join_path(codex_dir, "codex-mem9"@), "state.json"@),
            };
            Ok((api_url, api_key, tenant_id, memories, state, poll_interval_spec(env, file, service)))
        },
    }
}

/// The plain value of a configuration, field by field.
pub open spec fn config_view(c: RuntimeConfig) -> (
    Seq<char>,
    Option<Seq<char>>,
    Seq<char>,
    Seq<char>,
    Seq<char>,
    u64,
) {
    (
        c.api_url@,
        opt_view(c.api_key),
        c.tenant_id@,
        c.codex_memories_dir@,
        c.state_path@,
        c.poll_interval_seconds,
    )
}

impl ConfigError {
    /// What the user is told.
    pub fn message(&self) -> (res: String)
        ensures
            *self == ConfigError::MissingTenantId ==> res@ == MISSING_TENANT_ID_MESSAGE@,
    {
        match self {
            ConfigError::MissingTenantId => missing_tenant_id_message(),
        }
    }
}

/// What the user is told when no tenant is configured: where the tenant
/// can be set up.
pub fn missing_tenant_id_message() -> (res: String)
    ensures
        res@ == MISSING_TENANT_ID_MESSAGE@,
{
    MISSING_TENANT_ID_MESSAGE.to_string()
}

/// What the user is told when no tenant is configured.
pub const MISSING_TENANT_ID_MESSAGE: &'static str = "missing MEM9_TENANT_ID; run the mem9-setup skill first. If you use brew services, add [codex_mem9].tenant_id to ~/.codex/config.toml. Interactive Codex sessions can also read MEM9_TENANT_ID from the default shell environment.";

/// A copy of an optional string.
fn clone_opt(o: &Option<String>) -> (res: Option<String>)
    ensures
        opt_view(res) == opt_view(*o),
{
    match o {
        Some(s) => Some(s.clone()),
        None => None,
    }
}

/// An environment value, unless it is blank.
pub fn env_value(raw: &Option<String>) -> (res: Option<String>)
    ensures
        opt_view(res) == env_value_spec(opt_view(*raw)),
{
    match raw {
        Some(v) => {
            let c = chars_of(v.as_str());
            let end = trim_end_len(c.as_slice());
            let start = trim_start_index(c.as_slice(), 0, end);
            if start < end {
                Some(v.clone())
            } else {
                None
            }
        },
        None => None,
    }
}

/// The first of two optional values that is present.
fn or_else(a: Option<String>, b: &Option<String>) -> (res: Option<String>)
    ensures
        opt_view(res) == or_spec(opt_view(a), opt_view(*b)),
{
    match a {
        Some(x) => Some(x),
        None => clone_opt(b),
    }
}

/// The home directory: `HOME` when set and not blank, else `~`.
pub fn home_dir(env: &EnvironmentValues) -> (res: String)
    ensures
        res@ == home_dir_spec(*env),
{
    match env_value(&env.home) {
        Some(h) => h,
        None => "~".to_string(),
    }
}

/// `base` joined with the relative path `name`.
fn join(base: &str, name: &str) -> (res: String)
    ensures
        res@ == join_path(base@, name@),
{
    let j = join_path_exec(chars_of(base).as_slice(), chars_of(name).as_slice());
    string_from_chars(j.as_slice())
}

/// Where the Codex config file is read from.
pub fn codex_config_path(env: &EnvironmentValues) -> (res: String)
    ensures
        res@ == codex_config_path_spec(*env),
{
    match env_value(&env.codex_config_path) {
        Some(p) => p,
        None => {
            let home = home_dir(env);
            let dir = join(home.as_str(), ".codex");
            join(dir.as_str(), "config.toml")
        },
    }
}

/// Where the service config file is read from.
pub fn service_config_path(env: &EnvironmentValues) -> (res: String)
    ensures
        res@ == service_config_path_spec(*env),
{
    let home = home_dir(env);
    let library = join(home.as_str(), "Library");
    let support = join(library.as_str(), "Application Support");
    let dir = join(support.as_str(), "ai.dmego.codex-mem9");
    join(dir.as_str(), "config.toml")
}

/// A setting: the environment value unless blank, else the Codex config
/// file's, else the service config file's.
fn pick_setting(env: &Option<String>, file: &Option<String>, service: &Option<String>) -> (res:
    Option<String>)
    ensures
        opt_view(res) == setting(*env, *file, *service),
{
    or_else(env_value(env), &or_else(clone_opt(file), service))
}

proof fn lemma_decimal_value_grows(s: Seq<char>, i: int)
    requires
        0 <= i <= s.len(),
        forall|k: int| 0 <= k < s.len() ==> '0' <= #[trigger] s[k] <= '9',
    ensures
        decimal_value(s.take(i)) <= decimal_value(s),
    decreases s.len() - i,
{
    if i < s.len() {
        lemma_decimal_value_grows(s, i + 1);
        assert(s.take(i + 1).drop_last() =~= s.take(i));
    } else {
        assert(s.take(i) =~= s);
    }
}

/// `u64::from_str`: an optional `+`, then decimal digits whose value
/// fits in a `u64`.
pub fn parse_u64(s: &str) -> (res: Option<u64>)
    ensures
        res == parse_u64_spec(s@),
{
    let c = chars_of(s);
    let start: usize = if c.len() > 0 && c[0] == '+' {
        1
    } else {
        0
    };
    let ghost digits = if s@.len() > 0 && s@[0] == '+' {
        s@.drop_first()
    } else {
        s@
    };
    assert(digits =~= c@.skip(start as int));
    if start == c.len() {
        return None;
    }
    let mut i: usize = start;
    while i < c.len()
        invariant
            start <= i <= c@.len(),
            c@ == s@,
            digits == c@.skip(start as int),
            digits == (if s@.len() > 0 && s@[0] == '+' {
                s@.drop_first()
            } else {
                s@
            }),
            forall|k: int| start <= k < i ==> '0' <= #[trigger] c@[k] <= '9',
        decreases c@.len() - i,
    {
        if !('0' <= c[i] && c[i] <= '9') {
            assert(!is_decimal(digits)) by {
                assert(digits[i - start] == c@[i as int]);
            }
            return None;
        }
        i = i + 1;
    }
    assert(is_decimal(digits)) by {
        assert forall|k: int| 0 <= k < digits.len() implies '0' <= #[trigger] digits[k] <= '9' by {
            assert(digits[k] == c@[start + k]);
        }
    }
    let mut value: u64 = 0;
    let mut j: usize = start;
    assert(digits.take(0) =~= Seq::<char>::empty());
    while j < c.len()
        invariant
            start <= j <= c@.len(),
            c@ == s@,
            digits == c@.skip(start as int),
            digits == (if s@.len() > 0 && s@[0] == '+' {
                s@.drop_first()
            } else {
                s@
            }),
            is_decimal(digits),
            value as nat == decimal_value(digits.take(j - start)),
        decreases c@.len() - j,
    {
        assert(digits[j - start] == c@[j as int]);
        assert('0' <= c@[j as int] <= '9');
        let d = (c[j] as u32) - 48;
        assert(digits.take(j + 1 - start).drop_last() =~= digits.take(j - start));
        match value.checked_mul(10) {
            Some(v) => match v.checked_add(d as u64) {
                Some(w) => {
                    value = w;
                },
                None => {
                    proof {
                        lemma_decimal_value_grows(digits, j + 1 - start);
                    }
                    return None;
                },
            },
            None => {
                proof {
                    lemma_decimal_value_grows(digits, j + 1 - start);
                }
                return None;
            },
        }
        j = j + 1;
    }
    assert(digits.take(c@.len() - start) =~= digits);
    Some(value)
}

/// The poll interval (see `poll_interval_spec`).
fn poll_interval(env: &EnvironmentValues, file: &FileConfig, service: &FileConfig) -> (res: u64)
    ensures
        res == poll_interval_spec(*env, *file, *service),
{
    let from_env = match env_value(&env.poll_interval_seconds) {
        Some(v) => parse_u64(v.as_str()),
        None => None,
    };
    let chosen = match from_env {
        Some(v) => Some(v),
        None => match file.poll_interval_seconds {
            Some(v) => Some(v),
            None => service.poll_interval_seconds,
        },
    };
    match chosen {
        Some(v) => if v > 0 {
            v
        } else {
            DEFAULT_POLL_INTERVAL_SECONDS
        },
        None => DEFAULT_POLL_INTERVAL_SECONDS,
    }
}

/// The configuration made of the environment `env`, the `[codex_mem9]`
/// table `file` of the Codex config file and the top-level keys `service`
/// of the service config file: each setting from its environment variable
/// when that is set and not blank, else from the Codex config file, else
/// from the service config file, else its default (see
/// `runtime_config_spec`). Fails when no tenant is configured.
pub fn load_runtime_config(env: &EnvironmentValues, file: &FileConfig, service: &FileConfig) -> (res:
    Result<RuntimeConfig, ConfigError>)
    ensures
        match res {
            Ok(c) => runtime_config_spec(*env, *file, *service) == Ok::<
                (Seq<char>, Option<Seq<char>>, Seq<char>, Seq<char>, Seq<char>, u64),
                ConfigError,
            >(config_view(c)),
            Err(e) => runtime_config_spec(*env, *file, *service) == Err::<
                (Seq<char>, Option<Seq<char>>, Seq<char>, Seq<char>, Seq<char>, u64),
                ConfigError,
            >(e),
        },
{
    let home = home_dir(env);
    let codex_dir = join(home.as_str(), ".codex");
    let tenant_id = match pick_setting(&env.tenant_id, &file.tenant_id, &service.tenant_id) {
        Some(t) => t,
        None => return Err(ConfigError::MissingTenantId),
    };
    let api_key = pick_setting(&env.api_key, &file.api_key, &service.api_key);
    let api_url = match pick_setting(&env.api_url, &file.api_url, &service.api_url) {
        Some(u) => u,
        None => DEFAULT_API_URL.to_string(),
    };
    let codex_memories_dir = match pick_setting(
        &env.codex_memories_dir,
        &file.codex_memories_dir,
        &service.codex_memories_dir,
    ) {
        Some(d) => d,
        None => join(codex_dir.as_str(), "memories"),
    };
    let state_path = match pick_setting(&env.state_path, &file.state_path, &service.state_path) {
        Some(p) => p,
        None => {
            let dir = join(codex_dir.as_str(), "codex-mem9");
            join(dir.as_str(), "state.json")
        },
    };
    let poll_interval_seconds = poll_interval(env, file, service);
    Ok(RuntimeConfig { api_url, api_key, tenant_id, codex_memories_dir, state_path, poll_interval_seconds })
}

/// Law: the poll interval is never zero.
pub proof fn lemma_poll_interval_positive(env: EnvironmentValues, file: FileConfig, service: FileConfig)
    ensures
        poll_interval_spec(env, file, service) > 0,
{
}

/// Law: a setting given in the environment (and not blank) wins over both
/// config files.
pub proof fn lemma_environment_before_file(env: EnvironmentValues, file: FileConfig, service: FileConfig)
    ensures
        env_value_spec(opt_view(env.tenant_id)) matches Some(t) ==> runtime_config_spec(
            env,
            file,
            service,
        ) matches Ok(c) && c.2 == t,
        env_value_spec(opt_view(env.tenant_id)) is Some ==> (env_value_spec(opt_view(env.api_url))
            matches Some(u) ==> runtime_config_spec(env, file, service) matches Ok(c) && c.0 == u),
        env_value_spec(opt_view(env.tenant_id)) is Some ==> (env_value_spec(opt_view(env.api_key))
            matches Some(k) ==> runtime_config_spec(env, file, service) matches Ok(c) && c.1 == Some(
            k,
        )),
{
}

/// Law: where the environment leaves a setting unset, the Codex config
/// file's `[codex_mem9]` table wins over the service config file.
pub proof fn lemma_codex_config_before_service_file(
    env: EnvironmentValues,
    file: FileConfig,
    service: FileConfig,
)
    ensures
        env_value_spec(opt_view(env.tenant_id)) is None ==> (opt_view(file.tenant_id) matches Some(
            t,
        ) ==> runtime_config_spec(env, file, service) matches Ok(c) && c.2 == t),
        setting(env.tenant_id, file.tenant_id, service.tenant_id) is Some ==> (env_value_spec(
            opt_view(env.api_url),
        ) is None ==> (opt_view(file.api_url) matches Some(u) ==> runtime_config_spec(
            env,
            file,
            service,
        ) matches Ok(c) && c.0 == u)),
        setting(env.tenant_id, file.tenant_id, service.tenant_id) is Some ==> (env_value_spec(
            opt_view(env.api_key),
        ) is None ==> (opt_view(file.api_key) matches Some(k) ==> runtime_config_spec(
            env,
            file,
            service,
        ) matches Ok(c) && c.1 == Some(k))),
{
}

/// Law: with neither the environment nor the Codex config file giving a
/// setting, the service config file's value is used.
pub proof fn lemma_service_file_fills_in(env: EnvironmentValues, file: FileConfig, service: FileConfig)
    ensures
        env_value_spec(opt_view(env.tenant_id)) is None && file.tenant_id is None ==> (opt_view(
            service.tenant_id,
        ) matches Some(t) ==> runtime_config_spec(env, file, service) matches Ok(c) && c.2 == t),
        setting(env.tenant_id, file.tenant_id, service.tenant_id) is Some ==> (env_value_spec(
            opt_view(env.api_url),
        ) is None && file.api_url is None ==> (opt_view(service.api_url) matches Some(u)
            ==> runtime_config_spec(env, file, service) matches Ok(c) && c.0 == u)),
        setting(env.tenant_id, file.tenant_id, service.tenant_id) is Some ==> (env_value_spec(
            opt_view(env.api_key),
        ) is None && file.api_key is None ==> (opt_view(service.api_key) matches Some(k)
            ==> runtime_config_spec(env, file, service) matches Ok(c) && c.1 == Some(k))),
{
}

/// Law: the memories directory, the state path and the poll interval
/// follow the same order as the other settings: the environment (when set
/// and not blank; for the interval, when it parses) wins over the Codex
/// config file, which wins over the service config file; with none of
/// them the defaults under `<home>/.codex` apply.
pub proof fn lemma_paths_and_interval_precedence(
    env: EnvironmentValues,
    file: FileConfig,
    service: FileConfig,
)
    ensures
        env_value_spec(opt_view(env.state_path)) matches Some(p) ==> (runtime_config_spec(
            env,
            file,
            service,
        ) matches Ok(c) ==> c.4 == p),
        env_value_spec(opt_view(env.codex_memories_dir)) matches Some(d) ==> (runtime_config_spec(
            env,
            file,
            service,
        ) matches Ok(c) ==> c.3 == d),
        env_value_spec(opt_view(env.state_path)) is None ==> (opt_view(file.state_path) matches Some(
            p,
        ) ==> (runtime_config_spec(env, file, service) matches Ok(c) ==> c.4 == p)),
        env_value_spec(opt_view(env.codex_memories_dir)) is None ==> (opt_view(
            file.codex_memories_dir,
        ) matches Some(d) ==> (runtime_config_spec(env, file, service) matches Ok(c) ==> c.3 == d)),
        env_value_spec(opt_view(env.state_path)) is None && file.state_path is None ==> (opt_view(
            service.state_path,
        ) matches Some(p) ==> (runtime_config_spec(env, file, service) matches Ok(c) ==> c.4 == p)),
        env_value_spec(opt_view(env.codex_memories_dir)) is None && file.codex_memories_dir is None
            ==> (opt_view(service.codex_memories_dir) matches Some(d) ==> (runtime_config_spec(
            env,
            file,
            service,
        ) matches Ok(c) ==> c.3 == d)),
        env_value_spec(opt_view(env.state_path)) is None && file.state_path is None
            && service.state_path is None ==> (runtime_config_spec(env, file, service) matches Ok(c)
            ==> c.4 == join_path(
            join_path(join_path(home_dir_spec(env), ".codex"@), "codex-mem9"@),
            "state.json"@,
        )),
        env_value_spec(opt_view(env.codex_memories_dir)) is None && file.codex_memories_dir is None
            && service.codex_memories_dir is None ==> (runtime_config_spec(env, file, service) matches Ok(
            c,
        ) ==> c.3 == join_path(join_path(home_dir_spec(env), ".codex"@), "memories"@)),
        env_value_spec(opt_view(env.poll_interval_seconds)) matches Some(v) ==> (parse_u64_spec(v)
            matches Some(n) ==> (runtime_config_spec(env, file, service) matches Ok(c) ==> c.5 == (
        if n > 0 {
            n
        } else {
            DEFAULT_POLL_INTERVAL_SECONDS
        }))),
        env_value_spec(opt_view(env.api_url)) is None && file.api_url is None && service.api_url
            is None ==> (runtime_config_spec(env, file, service) matches Ok(c) ==> c.0
            == DEFAULT_API_URL@),
{
}

/// Law: configuration fails exactly when no tenant is given, neither in
/// the environment nor in either config file.
pub proof fn lemma_missing_tenant(env: EnvironmentValues, file: FileConfig, service: FileConfig)
    ensures
        runtime_config_spec(env, file, service) is Err <==> (env_value_spec(opt_view(env.tenant_id))
            is None && file.tenant_id is None && service.tenant_id is None),
{
}

} // verus!
