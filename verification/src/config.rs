//! Configuration: the defaults, the configuration file and the environment.

use crate::format::{prefixed, decimal, parse_unsigned, text_of_u64, unsigned};
use crate::outside::{home_directory, lossy, lossy_text};
use crate::path::{is_relative, join, join_path, relative};
use crate::text::{
    bare, blank, chars_of, contains, copy_bytes, find_char, find_from, find_text, first_of,
    law_trim, law_trim_around, lemma_find_text_is, lemma_find_text_none, lemma_first_of_is, lines,
    lines_of, occurs_at, string_of, trim, trim_range, trimmed, views, white_space,
};
use vstd::hash_map::StringHashMap;
use vstd::prelude::*;
use vstd::string::*;
use vstd::utf8::*;

verus! {

/// Where things are kept, and how long and how much is waited for. Paths are byte strings, times
/// are in nanoseconds.
#[derive(Debug, Clone)]
pub struct Config {
    pub socket_path: Vec<u8>,
    pub central_dir: Vec<u8>,
    pub key_file: Vec<u8>,
    pub local_dir: Vec<u8>,
    pub dial_timeout: u128,
    pub eof_grace: u128,
    pub log_file: Vec<u8>,
    pub session_cap: usize,
}

/// A configuration, with its paths as sequences.
pub struct ConfigView {
    pub socket_path: Seq<u8>,
    pub central_dir: Seq<u8>,
    pub key_file: Seq<u8>,
    pub local_dir: Seq<u8>,
    pub dial_timeout: u128,
    pub eof_grace: u128,
    pub log_file: Seq<u8>,
    pub session_cap: usize,
}

impl View for Config {
    type V = ConfigView;

    open spec fn view(&self) -> ConfigView {
        ConfigView {
            socket_path: self.socket_path@,
            central_dir: self.central_dir@,
            key_file: self.key_file@,
            local_dir: self.local_dir@,
            dial_timeout: self.dial_timeout,
            eof_grace: self.eof_grace,
            log_file: self.log_file@,
            session_cap: self.session_cap,
        }
    }
}

/// What the environment sets; a variable that is not set, or is not text, is `None`.
#[derive(Debug)]
pub struct Environment {
    /// `TTRACKD_SOCK`
    pub socket: Option<String>,
    /// `TTRACK_CENTRAL_DIR`
    pub central_dir: Option<String>,
    /// `TTRACK_KEY_FILE`
    pub key_file: Option<String>,
    /// `TTRACK_DIR`
    pub local_dir: Option<String>,
    /// `TTRACK_SESSION_CAP`
    pub session_cap: Option<String>,
}

/// The bytes of a text.
pub open spec fn bytes_of(s: &str) -> Seq<u8> {
    encode_utf8(s@)
}

/// The configuration of a user with this home directory, before anything is read.
pub open spec fn default_config(home: Option<Seq<u8>>) -> ConfigView {
    ConfigView {
        socket_path: bytes_of("/run/ttrackd.sock"),
        central_dir: bytes_of("/var/lib/ttrack"),
        key_file: join(bytes_of("/var/lib/ttrack"), bytes_of(".ttrack.key")),
        local_dir: join(
            match home {
                Some(h) => h,
                None => bytes_of("."),
            },
            bytes_of(".local/share/ttrack"),
        ),
        dial_timeout: 1_000_000_000,
        eof_grace: 500_000_000,
        log_file: bytes_of("/var/log/ttrack/ttrack.log"),
        session_cap: 10,
    }
}

/// The bytes of an optional path.
pub open spec fn view_path(p: Option<Vec<u8>>) -> Option<Seq<u8>> {
    match p {
        Some(b) => Some(b@),
        None => None,
    }
}

impl Config {
    /// The configuration of a user with this home directory, before anything is read.
    pub fn with_home(home: Option<Vec<u8>>) -> (r: Config)
        ensures
            r@ == default_config(view_path(home)),
    {
        let base = match home {
            Some(h) => h,
            None => ".".as_bytes_vec(),
        };
        let central_dir = "/var/lib/ttrack".as_bytes_vec();
        let key_file = join_path(central_dir.as_slice(), ".ttrack.key".as_bytes());
        Config {
            socket_path: "/run/ttrackd.sock".as_bytes_vec(),
            central_dir,
            key_file,
            local_dir: join_path(base.as_slice(), ".local/share/ttrack".as_bytes()),
            dial_timeout: 1_000_000_000,
            eof_grace: 500_000_000,
            log_file: "/var/log/ttrack/ttrack.log".as_bytes_vec(),
            session_cap: 10,
        }
    }
}

impl Default for Config {
    /// The configuration of the current user, before anything is read.
    fn default() -> (r: Self)
        ensures
            exists|home: Option<Seq<u8>>| r@ == #[trigger] default_config(home),
    {
        Config::with_home(home_directory())
    }
}

/// A value without the comment behind it, which begins with a blank and `#`.
pub open spec fn without_comment(v: Seq<char>) -> Seq<char> {
    match find_text(v, " #"@) {
        Some(i) => trim(v.take(i)),
        None => v,
    }
}

/// What a line of the configuration file sets: a name and a value.
pub open spec fn setting(raw: Seq<char>) -> Option<(Seq<char>, Seq<char>)> {
    let line = trim(raw);
    let k = first_of(line, '=');
    if line.len() == 0 || line[0] == '#' || k >= line.len() {
        None
    } else {
        Some((trim(line.take(k)), without_comment(trim(line.skip(k + 1)))))
    }
}

/// What some lines set: of two lines for one name the later counts.
pub open spec fn settings(lines: Seq<Seq<char>>) -> Map<Seq<char>, Seq<char>>
    decreases lines.len(),
{
    if lines.len() == 0 {
        Map::empty()
    } else {
        match setting(lines.last()) {
            Some((k, v)) => settings(lines.drop_last()).insert(k, v),
            None => settings(lines.drop_last()),
        }
    }
}

/// Names and values, as characters.
pub open spec fn kv_view(m: Map<Seq<char>, String>) -> Map<Seq<char>, Seq<char>> {
    Map::new(|k: Seq<char>| m.contains_key(k), |k: Seq<char>| m[k]@)
}

/// A name and its value, as characters.
pub open spec fn view_pair(p: Option<(String, String)>) -> Option<(Seq<char>, Seq<char>)> {
    match p {
        Some((k, v)) => Some((k@, v@)),
        None => None,
    }
}

/// What a line of the configuration file sets.
pub fn parse_setting(raw: &str) -> (r: Option<(String, String)>)
    ensures
        view_pair(r) == setting(raw@),
{
    let line = trimmed(raw);
    let cs = chars_of(line.as_str());
    if cs.len() == 0 || cs[0] == '#' {
        return None;
    }
    let k = find_char(cs.as_slice(), 0, '=');
    assert(cs@.skip(0) =~= cs@);
    if k >= cs.len() {
        return None;
    }
    let (a, b) = trim_range(cs.as_slice(), 0, k);
    let key = string_of(cs.as_slice(), a, b);
    let (c, d) = trim_range(cs.as_slice(), k + 1, cs.len());
    let value = string_of(cs.as_slice(), c, d);
    proof {
        assert(cs@.subrange(0, k as int) =~= cs@.take(k as int));
        assert(cs@.subrange(k + 1, cs@.len() as int) =~= cs@.skip(k + 1));
    }
    let vs = chars_of(value.as_str());
    let mark = chars_of(" #");
    assert(vs@.skip(0) =~= vs@);
    match find_from(vs.as_slice(), mark.as_slice(), 0) {
        None => Some((key, value)),
        Some(i) => {
            let (e, f) = trim_range(vs.as_slice(), 0, i);
            assert(vs@.subrange(0, i as int) =~= vs@.take(i as int));
            Some((key, string_of(vs.as_slice(), e, f)))
        },
    }
}

/// What the configuration file sets.
pub fn parse_kv(content: &str) -> (r: StringHashMap<String>)
    ensures
        kv_view(r@) == settings(lines(content@)),
{
    let list = lines_of(content);
    let ghost all = lines(content@);
    let mut out: StringHashMap<String> = StringHashMap::new();
    let mut i: usize = 0;
    assert(kv_view(out@) =~= settings(all.take(0)));
    while i < list.len()
        invariant
            i <= list@.len(),
            views(list@) == all,
            kv_view(out@) == settings(all.take(i as int)),
        decreases list@.len() - i,
    {
        let ghost next = all.take(i + 1);
        proof {
            assert(next.drop_last() =~= all.take(i as int));
            assert(next.last() == list@[i as int]@);
        }
        let ghost before = out@;
        if let Some((k, v)) = parse_setting(list[i].as_str()) {
            let ghost name = k@;
            let ghost value = v@;
            out.insert(k, v);
            proof {
                assert(setting(next.last()) == Some((name, value)));
                assert(kv_view(out@) =~= kv_view(before).insert(name, value));
            }
        }
        i = i + 1;
    }
    assert(all.take(i as int) =~= all);
    out
}

/// The value that is set for a name, if there is one and it is not empty.
pub open spec fn filled_value(kv: Map<Seq<char>, Seq<char>>, name: Seq<char>) -> Option<Seq<char>> {
    if kv.contains_key(name) && kv[name].len() > 0 {
        Some(kv[name])
    } else {
        None
    }
}

/// The value that is set for a name.
pub open spec fn any_value(kv: Map<Seq<char>, Seq<char>>, name: Seq<char>) -> Option<Seq<char>> {
    if kv.contains_key(name) {
        Some(kv[name])
    } else {
        None
    }
}

/// A path that is set, or the one that stood before.
pub open spec fn path_or(value: Option<Seq<char>>, before: Seq<u8>) -> Seq<u8> {
    match value {
        Some(v) => encode_utf8(v),
        None => before,
    }
}

/// The number of milliseconds that is set, in nanoseconds, or what stood before.
pub open spec fn grace_or(value: Option<Seq<char>>, before: u128) -> u128 {
    match value {
        Some(v) => match unsigned(v, u64::MAX as int) {
            Some(n) => (n * 1_000_000) as u128,
            None => before,
        },
        None => before,
    }
}

/// The cap that is set, where it is a number above zero, or the one that stood before.
pub open spec fn cap_or(value: Option<Seq<char>>, before: usize) -> usize {
    match value {
        Some(v) => match unsigned(v, usize::MAX as int) {
            Some(n) => if n > 0 {
                n as usize
            } else {
                before
            },
            None => before,
        },
        None => before,
    }
}

/// `c`, with what the configuration file sets. The time to wait for the daemon is given apart,
/// where the file sets one that counts.
pub open spec fn with_settings(
    c: ConfigView,
    kv: Map<Seq<char>, Seq<char>>,
    dial_timeout: Option<u128>,
) -> ConfigView {
    ConfigView {
        socket_path: path_or(filled_value(kv, "socket_path"@), c.socket_path),
        central_dir: path_or(filled_value(kv, "central_dir"@), c.central_dir),
        key_file: path_or(any_value(kv, "key_file"@), c.key_file),
        local_dir: c.local_dir,
        dial_timeout: match dial_timeout {
            Some(t) => t,
            None => c.dial_timeout,
        },
        eof_grace: grace_or(any_value(kv, "eof_grace_ms"@), c.eof_grace),
        log_file: path_or(any_value(kv, "log_file"@), c.log_file),
        session_cap: cap_or(any_value(kv, "session_cap"@), c.session_cap),
    }
}

/// The number above zero that a text stands for, or `before`.
fn cap_from(text: &str, before: usize) -> (r: usize)
    ensures
        r == cap_or(Some(text@), before),
{
    match parse_unsigned(text, usize::MAX as u64) {
        Some(n) => if n > 0 {
            n as usize
        } else {
            before
        },
        None => before,
    }
}

/// Takes over what the configuration file sets.
pub fn apply_kv(cfg: &mut Config, kv: &StringHashMap<String>, dial_timeout: Option<u128>)
    ensures
        final(cfg)@ == with_settings(old(cfg)@, kv_view(kv@), dial_timeout),
{
    if let Some(v) = kv.get("socket_path") {
        if !v.as_str().is_empty() {
            cfg.socket_path = v.as_str().as_bytes_vec();
        }
    }
    if let Some(v) = kv.get("central_dir") {
        if !v.as_str().is_empty() {
            cfg.central_dir = v.as_str().as_bytes_vec();
        }
    }
    if let Some(v) = kv.get("key_file") {
        cfg.key_file = v.as_str().as_bytes_vec();
    }
    if let Some(v) = kv.get("log_file") {
        cfg.log_file = v.as_str().as_bytes_vec();
    }
    if let Some(t) = dial_timeout {
        cfg.dial_timeout = t;
    }
    if let Some(v) = kv.get("eof_grace_ms") {
        if let Some(n) = parse_unsigned(v.as_str(), u64::MAX) {
            cfg.eof_grace = n as u128 * 1_000_000;
        }
    }
    if let Some(v) = kv.get("session_cap") {
        cfg.session_cap = cap_from(v.as_str(), cfg.session_cap);
    }
}

/// A variable that is set and not empty.
pub open spec fn filled_var(v: Option<String>) -> Option<Seq<char>> {
    match v {
        Some(t) => if t@.len() > 0 {
            Some(t@)
        } else {
            None
        },
        None => None,
    }
}

/// `c`, with what the environment sets.
pub open spec fn with_environment(c: ConfigView, env: Environment) -> ConfigView {
    ConfigView {
        socket_path: path_or(filled_var(env.socket), c.socket_path),
        central_dir: path_or(filled_var(env.central_dir), c.central_dir),
        key_file: path_or(filled_var(env.key_file), c.key_file),
        local_dir: path_or(filled_var(env.local_dir), c.local_dir),
        session_cap: cap_or(
            match env.session_cap {
                Some(t) => Some(t@),
                None => None,
            },
            c.session_cap,
        ),
        ..c
    }
}

/// Takes over a path from a variable that is set and not empty.
fn path_from(value: &Option<String>, before: Vec<u8>) -> (r: Vec<u8>)
    ensures
        r@ == path_or(filled_var(*value), before@),
{
    if let Some(v) = value {
        if !v.as_str().is_empty() {
            return v.as_str().as_bytes_vec();
        }
    }
    before
}

/// Takes over what the environment sets.
pub fn apply_env(cfg: &mut Config, env: &Environment)
    ensures
        final(cfg)@ == with_environment(old(cfg)@, *env),
{
    cfg.socket_path = path_from(&env.socket, copy_bytes(cfg.socket_path.as_slice()));
    cfg.central_dir = path_from(&env.central_dir, copy_bytes(cfg.central_dir.as_slice()));
    cfg.key_file = path_from(&env.key_file, copy_bytes(cfg.key_file.as_slice()));
    cfg.local_dir = path_from(&env.local_dir, copy_bytes(cfg.local_dir.as_slice()));
    if let Some(v) = &env.session_cap {
        cfg.session_cap = cap_from(v.as_str(), cfg.session_cap);
    }
}

/// `c`, with a key file that is found from anywhere if the central directory is.
pub open spec fn with_key_in_place(c: ConfigView) -> ConfigView {
    ConfigView {
        key_file: if relative(c.key_file) {
            join(c.central_dir, c.key_file)
        } else {
            c.key_file
        },
        ..c
    }
}

/// The configuration: the environment counts before the file, the file before the defaults.
pub open spec fn loaded(
    home: Option<Seq<u8>>,
    content: Option<Seq<char>>,
    dial_timeout: Option<u128>,
    env: Environment,
) -> ConfigView {
    let base = match content {
        Some(text) => with_settings(default_config(home), settings(lines(text)), dial_timeout),
        None => default_config(home),
    };
    with_key_in_place(with_environment(base, env))
}

/// The characters of an optional text.
pub open spec fn view_str(s: Option<&str>) -> Option<Seq<char>> {
    match s {
        Some(t) => Some(t@),
        None => None,
    }
}

/// What the configuration file sets as the time to wait for the daemon, as it stands there.
pub fn dial_timeout_text(content: &str) -> (r: Option<String>)
    ensures
        crate::text::view_opt(r) == any_value(settings(lines(content@)), "dial_timeout_sec"@),
{
    let kv = parse_kv(content);
    match kv.get("dial_timeout_sec") {
        Some(v) => Some(v.clone()),
        None => None,
    }
}

/// Where the configuration file is: where the variable `TTRACK_CONFIG` says, or else in its usual
/// place.
pub fn config_path(var: Option<String>) -> (r: String)
    ensures
        r@ == crate::text::text_or(var, "/etc/ttrack/ttrack.conf"@),
{
    match var {
        Some(path) => path,
        None => "/etc/ttrack/ttrack.conf".to_owned(),
    }
}

impl Config {
    /// The configuration of a user with this home directory. `content` is the configuration file,
    /// if it could be read, and `dial_timeout` what it sets as the time to wait for the daemon.
    pub fn load_with_home(
        home: Option<Vec<u8>>,
        content: Option<&str>,
        dial_timeout: Option<u128>,
        env: &Environment,
    ) -> (r: Config)
        ensures
            r@ == loaded(view_path(home), view_str(content), dial_timeout, *env),
    {
        let mut cfg = Config::with_home(home);
        if let Some(text) = content {
            let kv = parse_kv(text);
            apply_kv(&mut cfg, &kv, dial_timeout);
        }
        apply_env(&mut cfg, env);
        if is_relative(cfg.key_file.as_slice()) {
            cfg.key_file = join_path(cfg.central_dir.as_slice(), cfg.key_file.as_slice());
        }
        cfg
    }

    /// The configuration of the current user.
    pub fn load(content: Option<&str>, dial_timeout: Option<u128>, env: &Environment) -> (r: Config)
        ensures
            exists|home: Option<Seq<u8>>|
                r@ == #[trigger] loaded(home, view_str(content), dial_timeout, *env),
    {
        Config::load_with_home(home_directory(), content, dial_timeout, env)
    }
}

/// A central directory that is found from anywhere has a key file that is.
pub proof fn law_key_in_place(
    home: Option<Seq<u8>>,
    content: Option<Seq<char>>,
    dial_timeout: Option<u128>,
    env: Environment,
)
    ensures
        ({
            let c = loaded(home, content, dial_timeout, env);
            !relative(c.central_dir) ==> !relative(c.key_file)
        }),
{
}

/// What the environment sets counts, whatever the file says.
pub proof fn law_environment_first(
    home: Option<Seq<u8>>,
    content: Option<Seq<char>>,
    dial_timeout: Option<u128>,
    env: Environment,
)
    ensures
        ({
            let c = loaded(home, content, dial_timeout, env);
            &&& env.socket matches Some(v) ==> v@.len() > 0 ==> c.socket_path == encode_utf8(v@)
            &&& env.central_dir matches Some(v) ==> v@.len() > 0 ==> c.central_dir == encode_utf8(v@)
            &&& env.local_dir matches Some(v) ==> v@.len() > 0 ==> c.local_dir == encode_utf8(v@)
            &&& env.key_file matches Some(v) ==> v@.len() > 0 ==> c.key_file == if relative(
                encode_utf8(v@),
            ) {
                join(c.central_dir, encode_utf8(v@))
            } else {
                encode_utf8(v@)
            }
            &&& env.session_cap matches Some(t) ==> (unsigned(t@, usize::MAX as int) matches Some(n)
                ==> (n > 0 ==> c.session_cap == n))
        }),
{
}

/// A variable that is set to nothing is as one that is not set.
pub proof fn law_empty_variables(
    home: Option<Seq<u8>>,
    content: Option<Seq<char>>,
    dial_timeout: Option<u128>,
    env: Environment,
    bare_env: Environment,
)
    requires
        env.socket is Some && env.socket->0@.len() == 0,
        env.central_dir is Some && env.central_dir->0@.len() == 0,
        env.key_file is Some && env.key_file->0@.len() == 0,
        env.local_dir is Some && env.local_dir->0@.len() == 0,
        bare_env.socket is None,
        bare_env.central_dir is None,
        bare_env.key_file is None,
        bare_env.local_dir is None,
        bare_env.session_cap == env.session_cap,
    ensures
        loaded(home, content, dial_timeout, env) == loaded(home, content, dial_timeout, bare_env),
{
}

/// The cap on live sessions is never zero.
pub proof fn law_cap_above_zero(
    home: Option<Seq<u8>>,
    content: Option<Seq<char>>,
    dial_timeout: Option<u128>,
    env: Environment,
)
    ensures
        loaded(home, content, dial_timeout, env).session_cap > 0,
{
    if let Some(text) = content {
        let kv = settings(lines(text));
        if let Some(v) = any_value(kv, "session_cap"@) {
            lemma_unsigned_range(v, usize::MAX as int);
        }
    }
    if let Some(t) = env.session_cap {
        lemma_unsigned_range(t@, usize::MAX as int);
    }
}

/// A number that was accepted is no greater than the greatest that is.
proof fn lemma_unsigned_range(s: Seq<char>, max: int)
    ensures
        unsigned(s, max) matches Some(n) ==> n <= max,
{
}

/// What is shown of a configuration.
pub open spec fn check_lines(cfg: ConfigView) -> Seq<Seq<char>> {
    seq![
        "socket_path="@ + lossy(cfg.socket_path),
        "central_dir="@ + lossy(cfg.central_dir),
        "key_file="@ + lossy(cfg.key_file),
        "local_dir="@ + lossy(cfg.local_dir),
        "session_cap="@ + decimal(cfg.session_cap as nat),
    ]
}

impl Config {
    /// What is shown of the configuration.
    pub fn check(&self) -> (r: Vec<String>)
        ensures
            views(r@) == check_lines(self@),
    {
        let out = vec![
            prefixed("socket_path=", lossy_text(self.socket_path.as_slice()).as_str()),
            prefixed("central_dir=", lossy_text(self.central_dir.as_slice()).as_str()),
            prefixed("key_file=", lossy_text(self.key_file.as_slice()).as_str()),
            prefixed("local_dir=", lossy_text(self.local_dir.as_slice()).as_str()),
            prefixed("session_cap=", text_of_u64(self.session_cap as u64).as_str()),
        ];
        assert(views(out@) =~= check_lines(self@));
        out
    }
}

/// A line that sets another name than `k`, or nothing.
pub open spec fn leaves(line: Seq<char>, k: Seq<char>) -> bool {
    match setting(line) {
        Some((name, _)) => name != k,
        None => true,
    }
}

/// The last line for a name is the one that counts.
pub proof fn law_last_line_counts(
    before: Seq<Seq<char>>,
    line: Seq<char>,
    behind: Seq<Seq<char>>,
    k: Seq<char>,
    v: Seq<char>,
)
    requires
        setting(line) == Some((k, v)),
        forall|i: int| 0 <= i < behind.len() ==> leaves(#[trigger] behind[i], k),
    ensures
        settings(before.push(line) + behind).contains_key(k),
        settings(before.push(line) + behind)[k] == v,
    decreases behind.len(),
{
    let all = before.push(line) + behind;
    if behind.len() == 0 {
        assert(all =~= before.push(line));
        assert(before.push(line).drop_last() =~= before);
    } else {
        let fewer = behind.drop_last();
        assert forall|i: int| 0 <= i < fewer.len() implies leaves(#[trigger] fewer[i], k) by {
            assert(fewer[i] == behind[i]);
        }
        law_last_line_counts(before, line, fewer, k, v);
        assert(all.drop_last() =~= before.push(line) + fewer);
        assert(all.last() == behind[behind.len() - 1]);
    }
}

/// A line that is empty or a comment may stand anywhere.
pub proof fn law_comments_do_not_count(
    before: Seq<Seq<char>>,
    line: Seq<char>,
    behind: Seq<Seq<char>>,
)
    requires
        trim(line).len() == 0 || trim(line)[0] == '#',
    ensures
        settings(before.push(line) + behind) == settings(before + behind),
    decreases behind.len(),
{
    let all = before.push(line) + behind;
    if behind.len() == 0 {
        assert(all =~= before.push(line));
        assert(before.push(line).drop_last() =~= before);
        assert(before + behind =~= before);
    } else {
        law_comments_do_not_count(before, line, behind.drop_last());
        assert(all.drop_last() =~= before.push(line) + behind.drop_last());
        assert((before + behind).drop_last() =~= before + behind.drop_last());
        assert(all.last() == behind.last());
        assert((before + behind).last() == behind.last());
    }
}

/// What may stand before an equals sign: a name that is no comment, and white space behind it.
pub open spec fn key_part(name: Seq<char>, b: Seq<char>) -> bool {
    &&& blank(b)
    &&& bare(name)
    &&& name.len() > 0
    &&& name[0] != '#'
    &&& forall|i: int| 0 <= i < name.len() ==> name[i] != '='
}

/// What a line sets that has a name, an equals sign and a text in it, and white space around it.
proof fn lemma_set_text(
    name: Seq<char>,
    a: Seq<char>,
    b: Seq<char>,
    c: Seq<char>,
    text: Seq<char>,
    d: Seq<char>,
)
    requires
        key_part(name, b),
        blank(a),
        blank(c),
        blank(d),
        bare(text),
        text.len() > 0,
    ensures
        setting(a + (name + b + "="@ + (c + text)) + d) == Some((name, without_comment(text))),
{
    reveal_strlit("=");
    assert("="@ =~= seq!['=']);
    let key = name + b;
    let line = key + "="@ + (c + text);
    assert forall|i: int| 0 <= i < key.len() implies key[i] != '=' by {
        if i >= name.len() {
            assert(white_space(b[i - name.len()]));
        }
    }
    assert(line[0] == name[0]);
    assert(line.last() == text.last());
    law_trim_around(a, line, d);
    lemma_setting(line, key, c + text);
    law_trim_around(Seq::empty(), name, b);
    assert(Seq::<char>::empty() + name + b =~= key);
    law_trim_around(c, text, Seq::empty());
    assert(c + text + Seq::<char>::empty() =~= c + text);
}

/// A note begins no earlier than behind the value.
proof fn lemma_note_place(value: Seq<char>, mark: Seq<char>, note: Seq<char>, j: int)
    requires
        !contains(value, mark),
        mark.len() == 2,
        mark[0] != mark[1],
        0 <= j < value.len(),
    ensures
        !occurs_at(value + mark + note, mark, j),
{
    let text = value + mark + note;
    if occurs_at(text, mark, j) {
        let part = text.subrange(j, j + 2);
        assert(part[1] == mark[1]);
        assert(text[j + 1] == mark[1]);
        if j + 2 <= value.len() {
            assert(value.subrange(j, j + 2) =~= part);
            assert(occurs_at(value, mark, j));
        } else {
            assert(text[j + 1] == mark[0]);
        }
    }
}

/// Where the note begins.
proof fn lemma_note_found(value: Seq<char>, mark: Seq<char>, note: Seq<char>)
    requires
        !contains(value, mark),
        mark.len() == 2,
        mark[0] != mark[1],
    ensures
        find_text(value + mark + note, mark) == Some(value.len() as int),
        find_text(value, mark) is None,
{
    let text = value + mark + note;
    let n = value.len() as int;
    assert(text.subrange(n, n + 2) =~= mark);
    assert(occurs_at(text, mark, n));
    assert forall|j: int| 0 <= j < n implies !#[trigger] occurs_at(text, mark, j) by {
        lemma_note_place(value, mark, note, j);
    }
    lemma_find_text_is(text, mark, n);
    lemma_find_text_none(value, mark);
}

/// What is left of a value, with a note behind it or not.
proof fn lemma_without_note(value: Seq<char>, note: Seq<char>)
    requires
        bare(value),
        !contains(value, " #"@),
    ensures
        without_comment(value) == value,
        without_comment(value + " #"@ + note) == value,
{
    reveal_strlit(" #");
    lemma_note_found(value, " #"@, note);
    assert((value + " #"@ + note).take(value.len() as int) =~= value);
    law_trim_around(Seq::empty(), value, Seq::empty());
    assert(Seq::<char>::empty() + value + Seq::<char>::empty() =~= value);
}

/// A name and a value with an equals sign between them are set, whatever white space is around
/// each.
pub proof fn law_setting(
    name: Seq<char>,
    value: Seq<char>,
    a: Seq<char>,
    b: Seq<char>,
    c: Seq<char>,
    d: Seq<char>,
)
    requires
        key_part(name, b),
        blank(a),
        blank(c),
        blank(d),
        bare(value),
        value.len() > 0,
        !contains(value, " #"@),
    ensures
        setting(a + name + b + "="@ + c + value + d) == Some((name, value)),
{
    lemma_set_text(name, a, b, c, value, d);
    lemma_without_note(value, Seq::empty());
    assert(a + (name + b + "="@ + (c + value)) + d =~= a + name + b + "="@ + c + value + d);
}

/// What stands behind a value, from a blank and `#` on, is no part of it.
pub proof fn law_setting_with_note(
    name: Seq<char>,
    value: Seq<char>,
    a: Seq<char>,
    b: Seq<char>,
    c: Seq<char>,
    note: Seq<char>,
    d: Seq<char>,
)
    requires
        key_part(name, b),
        blank(a),
        blank(c),
        blank(d),
        bare(value),
        value.len() > 0,
        !contains(value, " #"@),
        bare(note),
        note.len() > 0,
    ensures
        setting(a + name + b + "="@ + c + value + " #"@ + note + d) == Some((name, value)),
{
    let text = value + " #"@ + note;
    assert(text[0] == value[0]);
    assert(text.last() == note.last());
    lemma_set_text(name, a, b, c, text, d);
    lemma_without_note(value, note);
    assert(a + (name + b + "="@ + (c + text)) + d =~= a + name + b + "="@ + c + value + " #"@ + note
        + d);
}

/// A line is split at its first equals sign.
proof fn lemma_setting(line: Seq<char>, key: Seq<char>, rest: Seq<char>)
    requires
        line == key + "="@ + rest,
        forall|i: int| 0 <= i < key.len() ==> key[i] != '=',
        "="@ == seq!['='],
    ensures
        first_of(line, '=') == key.len(),
        line.take(key.len() as int) == key,
        line.skip(key.len() as int + 1) == rest,
{
    lemma_first_of_is(line, '=', key.len() as int);
    assert(line.take(key.len() as int) =~= key);
    assert(line.skip(key.len() as int + 1) =~= rest);
}

/// A line without an equals sign sets nothing.
pub proof fn law_no_setting(line: Seq<char>)
    requires
        forall|i: int| 0 <= i < line.len() ==> line[i] != '=',
    ensures
        setting(line) is None,
{
    law_trim(line);
    let (a, b) = choose|a: Seq<char>, b: Seq<char>| #[trigger]
        (a + trim(line) + b) == line && blank(a) && blank(b);
    let t = trim(line);
    assert forall|i: int| 0 <= i < t.len() implies t[i] != '=' by {
        assert(line[a.len() + i] == t[i]);
    }
    lemma_first_of_is(t, '=', t.len() as int);
}

/// What the file sets is taken over, each setting by its name, where the environment sets nothing.
pub proof fn law_file_settings(
    home: Option<Seq<u8>>,
    text: Seq<char>,
    dial_timeout: Option<u128>,
    env: Environment,
    v: Seq<char>,
    n: int,
)
    requires
        env.socket is None,
        env.central_dir is None,
        env.key_file is None,
        env.local_dir is None,
        env.session_cap is None,
    ensures
        ({
            let kv = settings(lines(text));
            let c = loaded(home, Some(text), dial_timeout, env);
            &&& kv.contains_pair("socket_path"@, v) && v.len() > 0 ==> c.socket_path == encode_utf8(v)
            &&& kv.contains_pair("central_dir"@, v) && v.len() > 0 ==> c.central_dir == encode_utf8(v)
            &&& kv.contains_pair("log_file"@, v) ==> c.log_file == encode_utf8(v)
            &&& kv.contains_pair("key_file"@, v) && !relative(encode_utf8(v)) ==> c.key_file
                == encode_utf8(v)
            &&& kv.contains_pair("key_file"@, v) && relative(encode_utf8(v)) ==> c.key_file == join(
                c.central_dir,
                encode_utf8(v),
            )
            &&& kv.contains_pair("session_cap"@, v) && unsigned(v, usize::MAX as int) == Some(n) && n
                > 0 ==> c.session_cap == n
            &&& kv.contains_pair("eof_grace_ms"@, v) && unsigned(v, u64::MAX as int) == Some(n) && n
                >= 0 ==> c.eof_grace == n * 1_000_000
            &&& dial_timeout is Some ==> c.dial_timeout == dial_timeout->0
        }),
{
    let kv = settings(lines(text));
    if kv.contains_pair("eof_grace_ms"@, v) && unsigned(v, u64::MAX as int) == Some(n) && n >= 0 {
        lemma_unsigned_range(v, u64::MAX as int);
        assert(n * 1_000_000 <= u64::MAX * 1_000_000) by (nonlinear_arith)
            requires
                0 <= n <= u64::MAX,
        ;
    }
    if kv.contains_pair("session_cap"@, v) {
        lemma_unsigned_range(v, usize::MAX as int);
    }
}

/// What nothing sets stays as it is by default.
pub proof fn law_defaults(home: Seq<u8>, text: Seq<char>, env: Environment)
    requires
        env.socket is None,
        env.central_dir is None,
        env.key_file is None,
        env.local_dir is None,
        env.session_cap is None,
    ensures
        ({
            let kv = settings(lines(text));
            let c = loaded(Some(home), Some(text), None, env);
            &&& !kv.contains_key("socket_path"@) ==> c.socket_path == encode_utf8(
                "/run/ttrackd.sock"@,
            )
            &&& !kv.contains_key("central_dir"@) ==> c.central_dir == encode_utf8("/var/lib/ttrack"@)
            &&& !kv.contains_key("log_file"@) ==> c.log_file == encode_utf8(
                "/var/log/ttrack/ttrack.log"@,
            )
            &&& c.local_dir == join(home, encode_utf8(".local/share/ttrack"@))
            &&& !kv.contains_key("key_file"@) ==> c.key_file == join(
                encode_utf8("/var/lib/ttrack"@),
                encode_utf8(".ttrack.key"@),
            )
            &&& !kv.contains_key("session_cap"@) ==> c.session_cap == 10
            &&& !kv.contains_key("eof_grace_ms"@) ==> c.eof_grace == 500_000_000
            &&& c.dial_timeout == 1_000_000_000
        }),
{
    let (dir, name) = (encode_utf8("/var/lib/ttrack"@), encode_utf8(".ttrack.key"@));
    reveal_strlit("/var/lib/ttrack");
    reveal_strlit(".ttrack.key");
    is_ascii_chars_encode_utf8("/var/lib/ttrack"@);
    is_ascii_chars_encode_utf8(".ttrack.key"@);
    assert(dir[0] == '/' as u8);
    assert(name[0] == '.' as u8);
    assert(join(dir, name)[0] == dir[0]);
}

} // verus!
