//! Configuration: the settings read from `config.toml`, and the paths the
//! program keeps its files under.
use vstd::prelude::*;
use crate::text::{
    append_chars, decimal, decimal_chars, is_ws, lemma_parse_decimal, parse_u32, parse_u32_chars,
    path_join, path_join_chars, string_of, to_chars, trim, trim_chars,
};

verus! {

/// One malware list to follow.
#[derive(Clone, Debug)]
pub struct FeedConfig {
    pub name: String,
    /// `"lenucksi"` (a campaign index) or `"plain"` (one package per line).
    pub kind: String,
    pub base_url: Option<String>,
    pub url: Option<String>,
    pub enabled: Option<bool>,
}

/// The program's settings.
#[derive(Clone, Debug)]
pub struct Config {
    /// How long a downloaded feed stays fresh, in seconds.
    pub cache_ttl_secs: u64,
    /// How many days back a file counts as recently modified.
    pub recent_days: u64,
    /// Send desktop notifications.
    pub notify: bool,
    /// Write alerts to stderr.
    pub log: bool,
    pub feeds: Vec<FeedConfig>,
}

/// The configuration file inside the configuration directory.
pub fn config_file(config_dir: &str) -> (r: String)
    ensures
        r@ == path_join(config_dir@, "config.toml"@),
{
    let d = to_chars(config_dir);
    let n = to_chars("config.toml");
    string_of(path_join_chars(&d, &n).as_slice())
}

#[verifier::external_type_specification]
#[verifier::external_body]
pub struct ExSystemTime(std::time::SystemTime);

/// `SystemTime::now`: the current reading of the system clock. Nothing is
/// promised of it.
#[verifier::external_body]
fn system_now() -> std::time::SystemTime {
    std::time::SystemTime::now()
}

/// `SystemTime::duration_since(UNIX_EPOCH)`: the time elapsed since the
/// epoch, `None` when the reading is earlier. Nothing is promised of it.
#[verifier::external_body]
fn since_epoch(t: &std::time::SystemTime) -> Option<std::time::Duration> {
    t.duration_since(std::time::UNIX_EPOCH).ok()
}

/// `Duration::as_secs`: the whole seconds of a duration.
#[verifier::external_body]
fn whole_secs(d: &std::time::Duration) -> u64 {
    d.as_secs()
}

/// `Duration::as_nanos`: a duration in nanoseconds.
#[verifier::external_body]
fn total_nanos(d: &std::time::Duration) -> u128 {
    d.as_nanos()
}

/// A clock reading in seconds as a timestamp: the seconds converted with
/// `as i64`, or 0 when the clock is before the epoch.
pub open spec fn epoch_value(secs: Option<u64>) -> i64 {
    match secs {
        Some(s) => s as i64,
        None => 0,
    }
}

/// A clock reading in seconds as a timestamp.
pub fn epoch_from(secs: Option<u64>) -> (r: i64)
    ensures
        r == epoch_value(secs),
{
    match secs {
        Some(s) => s as i64,
        None => 0,
    }
}

/// A clock reading in nanoseconds as a timestamp: converted with `as i64`,
/// or 0 when the clock is before the epoch.
pub open spec fn nanos_value(nanos: Option<u128>) -> i64 {
    match nanos {
        Some(n) => n as i64,
        None => 0,
    }
}

/// A clock reading in nanoseconds as a timestamp.
pub fn nanos_from(nanos: Option<u128>) -> (r: i64)
    ensures
        r == nanos_value(nanos),
{
    match nanos {
        Some(n) => n as i64,
        None => 0,
    }
}

/// The current time in seconds since the epoch (0 if the clock is before it).
/// The reading itself is the clock's; the result is `epoch_value` of it.
pub fn now_epoch() -> (r: i64)
    ensures
        exists|secs: Option<u64>| r == epoch_value(secs),
{
    let secs = match since_epoch(&system_now()) {
        Some(d) => Some(whole_secs(&d)),
        None => None,
    };
    epoch_from(secs)
}

/// The current time in nanoseconds since the epoch (0 if the clock is before it).
pub fn now_nanos() -> (r: i64)
    ensures
        exists|nanos: Option<u128>| r == nanos_value(nanos),
{
    let nanos = match since_epoch(&system_now()) {
        Some(d) => Some(total_nanos(&d)),
        None => None,
    };
    nanos_from(nanos)
}


/// The program's directory under a base directory (the user's config or
/// state directory, or `/tmp` when there is none).
pub fn app_dir(base: &str) -> (r: String)
    ensures
        r@ == path_join(base@, "aur-guard"@),
{
    let d = to_chars(base);
    let n = to_chars("aur-guard");
    string_of(path_join_chars(&d, &n).as_slice())
}

/// The daemon's socket: in the runtime directory when there is one, else in
/// the state directory.
pub fn socket_path(runtime_dir: Option<&str>, state_dir: &str) -> (r: String)
    ensures
        r@ == path_join(
            match runtime_dir {
                Some(d) => d@,
                None => state_dir@,
            },
            "aur-guard.sock"@,
        ),
{
    let d = match runtime_dir {
        Some(x) => to_chars(x),
        None => to_chars(state_dir),
    };
    string_of(path_join_chars(&d, &to_chars("aur-guard.sock")).as_slice())
}

/// The daemon's pid file in the state directory.
pub fn pidfile(state_dir: &str) -> (r: String)
    ensures
        r@ == path_join(state_dir@, "daemon.pid"@),
{
    string_of(path_join_chars(&to_chars(state_dir), &to_chars("daemon.pid")).as_slice())
}

/// The cached feed in the state directory.
pub fn state_file(state_dir: &str) -> (r: String)
    ensures
        r@ == path_join(path_join(state_dir@, "feeds"@), "current.json"@),
{
    let f = path_join_chars(&to_chars(state_dir), &to_chars("feeds"));
    string_of(path_join_chars(&f, &to_chars("current.json")).as_slice())
}

/// The feed baseline in the state directory.
pub fn baseline_file(state_dir: &str) -> (r: String)
    ensures
        r@ == path_join(state_dir@, "feed_baseline.json"@),
{
    string_of(path_join_chars(&to_chars(state_dir), &to_chars("feed_baseline.json")).as_slice())
}

/// paru's configuration file under the configuration home.
pub fn paru_conf(config_home: &str) -> (r: String)
    ensures
        r@ == path_join(path_join(config_home@, "paru"@), "paru.conf"@),
{
    let f = path_join_chars(&to_chars(config_home), &to_chars("paru"));
    string_of(path_join_chars(&f, &to_chars("paru.conf")).as_slice())
}

/// The contents of the pid file for a process: its pid and a newline.
pub fn pid_file_content(pid: u32) -> (r: String)
    ensures
        r@ == decimal(pid as nat) + "\n"@,
{
    let d = decimal_chars(pid as u64);
    string_of(append_chars(&d, &to_chars("\n")).as_slice())
}

/// The pid in a pid file: its trimmed text as a `u32`.
pub fn parse_pid(text: &str) -> (r: Option<u32>)
    ensures
        r == parse_u32(trim(text@)),
{
    parse_u32_chars(&trim_chars(&to_chars(text)))
}

/// Reading a pid file gives back the pid written into it.
pub proof fn law_pid_file_round_trip(pid: u32)
    ensures
        parse_u32(trim(decimal(pid as nat) + "\n"@)) == Some(pid),
{
    reveal_strlit("\n");
    let d = decimal(pid as nat);
    let s = d + "\n"@;
    lemma_decimal_shape(pid as nat);
    assert(s.drop_last() =~= d);
    assert(is_ws(s.last()));
    assert(crate::text::trim_start(s) == s) by {
        assert(s[0] == d[0]);
    }
    assert(crate::text::trim_end(s) == crate::text::trim_end(d));
    assert(crate::text::trim_end(d) == d) by {
        assert(!is_ws(d.last()));
    }
    lemma_parse_decimal(pid as nat);
}

proof fn lemma_decimal_shape(n: nat)
    ensures
        decimal(n).len() > 0,
        crate::text::is_digit(decimal(n)[0]),
        crate::text::is_digit(decimal(n).last()),
        !is_ws(decimal(n)[0]),
        !is_ws(decimal(n).last()),
    decreases n,
{
    lemma_decimal_digits_all(n);
}

proof fn lemma_decimal_digits_all(n: nat)
    ensures
        decimal(n).len() > 0,
        forall|i: int| 0 <= i < decimal(n).len() ==> crate::text::is_digit(#[trigger] decimal(n)[i]),
    decreases n,
{
    if n >= 10 {
        lemma_decimal_digits_all(n / 10);
        assert forall|i: int| 0 <= i < decimal(n).len() implies crate::text::is_digit(
            #[trigger] decimal(n)[i],
        ) by {
            if i < decimal(n).len() - 1 {
                assert(decimal(n)[i] == decimal(n / 10)[i]);
            }
        }
    }
}

} // verus!
