//! Settings of the broker.
use vstd::prelude::*;
use vstd::string::*;

use crate::text;

verus! {

/// An IPv4 address and a port to listen on.
pub type ListenAddr = ([u8; 4], u16);

/// The settings of the broker.
#[derive(Debug, Clone)]
pub struct Config {
    /// gRPC listen port (`0.0.0.0:<port>`).
    pub port: u16,
    /// HTTP status listen port (`0.0.0.0:<port>`).
    pub web_port: u16,
    /// Optional HTTP path prefix when a reverse proxy forwards `/msg/...`
    /// without stripping it. Root routes stay registered. Example: `/msg`.
    pub web_base: String,
    /// Accept MQTT 3.1.1 clients over TCP and WebSocket.
    pub mqtt_enabled: bool,
    /// MQTT TCP port (`0.0.0.0:<port>`). 0 disables the TCP listener.
    pub mqtt_port: u16,
    /// MQTT WebSocket port (`0.0.0.0:<port>`). 0 attaches `GET /mqtt` to the status server.
    pub mqtt_ws_port: u16,
    /// Shared secret. When set, every call must send it. Empty disables auth.
    pub auth_token: Option<String>,
    /// Data directory. SQLite is `<dir>/queue.db`, logs are `<dir>/logs`.
    pub data_dir: Option<String>,
    /// Optional HTTP fallback used only when a topic has no live subscriber.
    pub downstream_url: Option<String>,
    pub worker_poll_ms: u64,
    pub max_delivery_attempts: i64,
    /// How many days to keep a message. Older rows are deleted. 0 disables purge.
    pub message_retention_days: i64,
    /// How many hours to keep a delivered message. 0 disables purge.
    pub delivered_retention_hours: u64,
    /// Delete unconfigured ephemeral topic rows that have not received a
    /// message for this many hours. 0 disables.
    pub ephemeral_idle_hours: u64,
    /// How often to run idle-topic purge, in hours. 0 runs it on every sweep.
    pub purge_interval_hours: u64,
    /// How long a worker may hold a claimed message before it is retried.
    pub ack_timeout_secs: u64,
    /// Drop a registered consumer if it does not register again within this
    /// many seconds. 0 keeps it until it unregisters.
    pub consumer_ttl_secs: u64,
    /// Whether the content of messages is logged.
    pub log_messages: bool,
    /// Rotate the log file after this many bytes.
    pub log_max_bytes: usize,
    /// How many log files to keep, including the current one.
    pub log_keep_files: usize,
}

/// All addresses of the machine, at a port.
pub open spec fn any_at(port: u16) -> ListenAddr {
    ([0u8, 0u8, 0u8, 0u8], port)
}

fn listen_at(port: u16) -> (r: ListenAddr)
    ensures
        r.0@ == seq![0u8, 0u8, 0u8, 0u8],
        r.1 == port,
{
    ([0u8, 0u8, 0u8, 0u8], port)
}

/// The path that requests carry in front: one slash before it, none behind it.
/// Nothing where it is blank or only slashes.
pub open spec fn base_path(raw: Seq<char>) -> Option<Seq<char>> {
    let inner = text::trimmed_of(text::trimmed(raw), '/');
    if inner.len() == 0 {
        None
    } else {
        Some("/"@ + inner)
    }
}

/// `/msg` from `msg`, `/msg/`, or `/msg`. Empty or `/` is `None`.
pub fn normalize_web_base(raw: &str) -> (r: Option<String>)
    ensures
        text::opt_text(r) == base_path(raw@),
{
    let inner: &str = text::trim_char(text::trim(raw), '/');
    if inner.is_empty() {
        None
    } else {
        Some(text::joined("/", inner))
    }
}

/// The URL of the database file in a directory.
pub open spec fn url_in(dir: Seq<char>) -> Seq<char> {
    let dir = text::trimmed_end_of(text::trimmed(dir), '/');
    (if "/"@.is_prefix_of(dir) {
        "sqlite://"@
    } else {
        "sqlite:"@
    }) + dir + "/queue.db"@
}

fn sqlite_url(dir: &str) -> (r: String)
    ensures
        r@ == url_in(dir@),
{
    let dir: &str = text::trim_end_char(text::trim(dir), '/');
    let scheme: &str = if text::starts_with(dir, "/") {
        "sqlite://"
    } else {
        "sqlite:"
    };
    let base: String = text::joined(scheme, dir);
    text::joined(base.as_str(), "/queue.db")
}

/// The path of the file that a database URL names, if it names one.
pub open spec fn file_of(url: Seq<char>) -> Option<Seq<char>> {
    match text::after_prefix(url, "sqlite:"@) {
        Some(rest) => match text::after_prefix(rest, "///"@) {
            Some(path) => Some("/"@ + path),
            None => if "//"@.is_prefix_of(rest) {
                None
            } else {
                Some(rest)
            },
        },
        None => None,
    }
}

/// The path of the file that a database URL names, if it names one.
pub fn sqlite_file_path(url: &str) -> (r: Option<String>)
    ensures
        text::opt_text(r) == file_of(url@),
{
    match text::strip_prefix(url, "sqlite:") {
        Some(rest) => match text::strip_prefix(rest, "///") {
            Some(path) => Some(text::joined("/", path)),
            None => if text::starts_with(rest, "//") {
                None
            } else {
                Some(rest.to_string())
            },
        },
        None => None,
    }
}

/// The database of a directory is the file `queue.db` in it.
pub proof fn law_the_database_is_in_its_directory(dir: Seq<char>)
    ensures
        file_of(url_in(dir)) == Some(
            text::trimmed_end_of(text::trimmed(dir), '/') + "/queue.db"@,
        ),
{
    let inner = text::trimmed_end_of(text::trimmed(dir), '/');
    let url = url_in(dir);
    reveal_strlit("sqlite:");
    reveal_strlit("sqlite://");
    reveal_strlit("///");
    reveal_strlit("//");
    reveal_strlit("/");
    reveal_strlit("/queue.db");
    let scheme = "sqlite:"@;
    if "/"@.is_prefix_of(inner) {
        assert(inner[0] == "/"@[0]);
        assert(url =~= "sqlite://"@ + inner + "/queue.db"@);
        assert(scheme.is_prefix_of(url)) by {
            assert(url.take(7) =~= scheme);
        }
        let rest = url.skip(7);
        assert(rest =~= "//"@ + inner + "/queue.db"@);
        assert("///"@.is_prefix_of(rest)) by {
            assert(rest.take(3) =~= "///"@);
        }
        assert("/"@ + rest.skip(3) =~= inner + "/queue.db"@);
    } else {
        assert(url =~= scheme + inner + "/queue.db"@);
        assert(scheme.is_prefix_of(url)) by {
            assert(url.take(7) =~= scheme);
        }
        let rest = url.skip(7);
        assert(rest =~= inner + "/queue.db"@);
        if inner.len() == 0 {
            assert(rest[1] == 'q');
        } else {
            assert(rest[0] == inner[0]);
            if inner[0] == '/' {
                assert(inner.take(1) =~= "/"@);
            }
        }
        assert(!"///"@.is_prefix_of(rest)) by {
            if "///"@.is_prefix_of(rest) {
                assert("///"@[0] == rest[0]);
                assert("///"@[1] == rest[1]);
            }
        }
        assert(!"//"@.is_prefix_of(rest)) by {
            if "//"@.is_prefix_of(rest) {
                assert("//"@[0] == rest[0]);
                assert("//"@[1] == rest[1]);
            }
        }
    }
}

/// The path of an entry of a directory.
pub open spec fn entry_path(dir: Seq<char>, name: Seq<char>) -> Seq<char> {
    if dir.len() == 0 || dir.last() == '/' {
        dir + name
    } else {
        dir + "/"@ + name
    }
}

fn path_in(dir: &str, name: &str) -> (r: String)
    ensures
        r@ == entry_path(dir@, name@),
{
    let n: usize = dir.unicode_len();
    if n == 0 || dir.get_char(n - 1) == '/' {
        text::joined(dir, name)
    } else {
        let base: String = text::joined(dir, "/");
        text::joined(base.as_str(), name)
    }
}

impl Config {
    pub fn grpc_listen_addr(&self) -> (r: ListenAddr)
        ensures
            r.0@ == any_at(self.port).0@,
            r.1 == self.port,
    {
        listen_at(self.port)
    }

    pub fn status_listen_addr(&self) -> (r: ListenAddr)
        ensures
            r.0@ == any_at(self.web_port).0@,
            r.1 == self.web_port,
    {
        listen_at(self.web_port)
    }

    pub fn mqtt_listen_addr(&self) -> (r: ListenAddr)
        ensures
            r.0@ == any_at(self.mqtt_port).0@,
            r.1 == self.mqtt_port,
    {
        listen_at(self.mqtt_port)
    }

    pub fn mqtt_ws_listen_addr(&self) -> (r: ListenAddr)
        ensures
            r.0@ == any_at(self.mqtt_ws_port).0@,
            r.1 == self.mqtt_ws_port,
    {
        listen_at(self.mqtt_ws_port)
    }

    /// Whether MQTT has a TCP port of its own.
    pub fn serves_mqtt_tcp(&self) -> (r: bool)
        ensures
            r == (self.mqtt_enabled && self.mqtt_port != 0),
    {
        self.mqtt_enabled && self.mqtt_port != 0
    }

    /// Whether MQTT has a WebSocket port of its own.
    pub fn serves_mqtt_ws(&self) -> (r: bool)
        ensures
            r == (self.mqtt_enabled && self.mqtt_ws_port != 0),
    {
        self.mqtt_enabled && self.mqtt_ws_port != 0
    }

    /// Whether MQTT over WebSocket is attached to the status port.
    pub fn serves_mqtt_on_status(&self) -> (r: bool)
        ensures
            r == (self.mqtt_enabled && self.mqtt_ws_port == 0),
    {
        self.mqtt_enabled && self.mqtt_ws_port == 0
    }

    pub fn database_url(&self) -> (r: String)
        ensures
            r@ == (match self.data_dir {
                Some(dir) => url_in(dir@),
                None => "sqlite:./queue.db"@,
            }),
    {
        match &self.data_dir {
            Some(dir) => sqlite_url(dir.as_str()),
            None => "sqlite:./queue.db".to_string(),
        }
    }

    pub fn log_dir(&self) -> (r: Option<String>)
        ensures
            text::opt_text(r) == (match self.data_dir {
                Some(dir) => Some(entry_path(dir@, "logs"@)),
                None => None,
            }),
    {
        match &self.data_dir {
            Some(dir) => Some(path_in(dir.as_str(), "logs")),
            None => None,
        }
    }

    /// How many log files to keep beside the current one.
    pub fn log_archives(&self) -> (r: usize)
        ensures
            r == (if self.log_keep_files == 0 {
                0
            } else {
                self.log_keep_files - 1
            }),
    {
        if self.log_keep_files == 0 {
            0
        } else {
            self.log_keep_files - 1
        }
    }

    /// `/msg` from `msg`, `/msg/`, or `/msg`. Empty or `/` is `None`.
    pub fn status_web_base(&self) -> (r: Option<String>)
        ensures
            text::opt_text(r) == base_path(self.web_base@),
    {
        normalize_web_base(self.web_base.as_str())
    }

    /// For how many seconds a claimed message is held: at least one.
    pub open spec fn visibility(self) -> u64 {
        if self.ack_timeout_secs == 0 {
            1
        } else {
            self.ack_timeout_secs
        }
    }

    /// For how many seconds a claimed message is held: at least one.
    pub fn visibility_secs(&self) -> (r: u64)
        ensures
            r == self.visibility(),
    {
        if self.ack_timeout_secs == 0 {
            1
        } else {
            self.ack_timeout_secs
        }
    }

    /// Settings for trials: nothing is purged, and little is waited for.
    pub fn test_default() -> (r: Self)
        ensures
            r.port == 7500,
            r.web_port == 7501,
            r.web_base@ == Seq::<char>::empty(),
            r.mqtt_enabled,
            r.mqtt_port == 7883,
            r.mqtt_ws_port == 8083,
            r.auth_token is None,
            r.data_dir is None,
            r.downstream_url is None,
            r.worker_poll_ms == 20,
            r.max_delivery_attempts == 10,
            r.message_retention_days == 0,
            r.delivered_retention_hours == 0,
            r.ephemeral_idle_hours == 0,
            r.purge_interval_hours == 1,
            r.ack_timeout_secs == 3,
            r.consumer_ttl_secs == 0,
            !r.log_messages,
            r.log_max_bytes == 1024,
            r.log_keep_files == 1,
    {
        let web_base: String = String::new();
        proof {
            assert(web_base@ =~= Seq::<char>::empty());
        }
        Config {
            port: 7500,
            web_port: 7501,
            web_base,
            mqtt_enabled: true,
            mqtt_port: 7883,
            mqtt_ws_port: 8083,
            auth_token: None,
            data_dir: None,
            downstream_url: None,
            worker_poll_ms: 20,
            max_delivery_attempts: 10,
            message_retention_days: 0,
            delivered_retention_hours: 0,
            ephemeral_idle_hours: 0,
            purge_interval_hours: 1,
            ack_timeout_secs: 3,
            consumer_ttl_secs: 0,
            log_messages: false,
            log_max_bytes: 1024,
            log_keep_files: 1,
        }
    }
}

/// The path under which the web pages are served begins with one slash and ends
/// with none, however it was written; nothing but slashes and white space stands
/// for none.
pub proof fn law_the_base_path_has_one_slash(
    before: Seq<char>,
    inner: Seq<char>,
    behind: Seq<char>,
)
    requires
        forall|i: int| 0 <= i < before.len() ==> #[trigger] before[i] == '/',
        forall|i: int| 0 <= i < behind.len() ==> #[trigger] behind[i] == '/',
        text::tight(inner),
        inner[0] != '/',
        inner[inner.len() - 1] != '/',
    ensures
        base_path(before + inner + behind) == Some(seq!['/'] + inner),
        base_path(before) is None,
{
    reveal_strlit("/");
    let none = Seq::<char>::empty();
    let whole = before + inner + behind;
    assert(text::tight(whole)) by {
        if before.len() > 0 {
            assert(whole[0] == before[0]);
        } else {
            assert(whole[0] == inner[0]);
        }
        if behind.len() > 0 {
            assert(whole[whole.len() - 1] == behind[behind.len() - 1]);
        } else {
            assert(whole[whole.len() - 1] == inner[inner.len() - 1]);
        }
    }
    text::law_tight_texts_stay(whole);
    text::law_trimming_takes_a_separator_off_the_ends(before, inner, behind, '/');
    assert("/"@ =~= seq!['/']);
    text::law_tight_texts_stay(before);
    text::law_trimming_takes_a_separator_off_the_ends(before, none, none, '/');
    assert(before + none + none =~= before);
    if before.len() > 0 {
        assert(before[0] == '/' && before[before.len() - 1] == '/');
        assert(text::tight(before));
    } else {
        assert(before =~= none);
        assert(text::trimmed(before) =~= none);
    }
}

/// The file behind a database address is what follows `sqlite:`, or `sqlite://` and
/// a path from the root. Other addresses name no file.
pub proof fn law_the_file_follows_the_scheme(path: Seq<char>, url: Seq<char>)
    ensures
        !"//"@.is_prefix_of(path) ==> file_of("sqlite:"@ + path) == Some(path),
        file_of("sqlite:///"@ + path) == Some("/"@ + path),
        !"sqlite:"@.is_prefix_of(url) ==> file_of(url) is None,
{
    reveal_strlit("sqlite:");
    reveal_strlit("sqlite:///");
    reveal_strlit("///");
    reveal_strlit("//");
    let url = "sqlite:"@ + path;
    text::law_a_prefix_is_taken_off("sqlite:"@, path, url);
    if "///"@.is_prefix_of(path) {
        assert("//"@.is_prefix_of(path)) by {
            assert(path.take(3)[0] == '/' && path.take(3)[1] == '/');
            assert(path.take(2) =~= "//"@);
        }
    }
    let long = "sqlite:///"@ + path;
    assert(long =~= "sqlite:"@ + ("///"@ + path));
    text::law_a_prefix_is_taken_off("sqlite:"@, "///"@ + path, long);
    text::law_a_prefix_is_taken_off("///"@, path, "///"@ + path);
}

/// An entry of a directory stands behind one slash.
pub proof fn law_an_entry_stands_behind_a_slash(dir: Seq<char>, name: Seq<char>)
    requires
        dir.len() > 0,
        dir[dir.len() - 1] != '/',
    ensures
        entry_path(dir, name) == dir.push('/') + name,
        entry_path(dir.push('/'), name) == dir.push('/') + name,
{
    reveal_strlit("/");
    assert(dir + "/"@ + name =~= dir.push('/') + name);
}

/// A claimed message is held for the time in which it may be acknowledged, and
/// for a second at least.
pub proof fn law_a_message_is_held_while_it_may_be_acknowledged(config: Config)
    ensures
        config.ack_timeout_secs >= 1 ==> config.visibility() == config.ack_timeout_secs,
        config.ack_timeout_secs == 0 ==> config.visibility() == 1,
{
}

/// White space around the base path does not count. An address with two slashes
/// that is not from the root names no file.
pub proof fn law_white_space_around_the_base_does_not_count(
    before: Seq<char>,
    path: Seq<char>,
    behind: Seq<char>,
)
    requires
        text::blank(before),
        text::blank(behind),
        text::tight(path),
    ensures
        base_path(before + path + behind) == base_path(path),
        base_path(before) is None,
        path[0] != '/' ==> file_of("sqlite://"@ + path) is None,
        path[0] != '/' && path[path.len() - 1] != '/' ==> url_in(before + path + behind)
            == "sqlite:"@ + path + "/queue.db"@,
        path[0] == '/' && path[path.len() - 1] != '/' ==> url_in(before + path + behind)
            == "sqlite://"@ + path + "/queue.db"@,
{
    reveal_strlit("/");
    reveal_strlit("//");
    reveal_strlit("///");
    reveal_strlit("sqlite:");
    reveal_strlit("sqlite://");
    text::law_trimming_takes_white_space_off_the_ends(before, path, behind);
    text::law_tight_texts_stay(path);
    text::law_tight_texts_stay(before);
    assert(text::trimmed(before) =~= Seq::<char>::empty());
    text::law_trimming_takes_a_separator_off_the_ends(Seq::empty(), Seq::empty(), Seq::empty(), '/');
    assert(Seq::<char>::empty() + Seq::<char>::empty() + Seq::<char>::empty()
        =~= Seq::<char>::empty());
    if path[0] != '/' {
        let url = "sqlite://"@ + path;
        let rest = "//"@ + path;
        assert(url =~= "sqlite:"@ + rest);
        text::law_a_prefix_is_taken_off("sqlite:"@, rest, url);
        assert(rest.subrange(0, 2) =~= "//"@);
        assert(!"///"@.is_prefix_of(rest)) by {
            if "///"@.is_prefix_of(rest) {
                assert(rest.subrange(0, 3)[2] == rest[2]);
                assert("///"@[2] == '/');
            }
        }
    }
    if path[path.len() - 1] != '/' {
        assert(text::trimmed_end_of(path, '/') == path);
        assert("/"@.is_prefix_of(path) <==> path[0] == '/') by {
            if path[0] == '/' {
                assert(path.subrange(0, 1) =~= "/"@);
            }
            if "/"@.is_prefix_of(path) {
                assert(path.subrange(0, 1)[0] == path[0]);
                assert("/"@[0] == '/');
            }
        }
    }
}

} // verus!
