//! The location of each file that qex uses.
//!
//! qex uses the XDG directories. The caller reads the variables of the
//! environment and hands their values over. A path is text here.

use crate::ids;
use crate::job;
use crate::text;
use vstd::prelude::*;
use vstd::string::*;

verus! {

/// The values of the environment that decide where the files are.
#[derive(Debug)]
pub struct Places {
    /// `$HOME`
    pub home: Option<String>,
    /// `$XDG_CONFIG_HOME`
    pub config_home: Option<String>,
    /// `$XDG_STATE_HOME`
    pub state_home: Option<String>,
    /// The directory for temporary files.
    pub temp: String,
}

/// The text where no home directory is known.
pub const NO_HOME: &'static str =
    "HOME is not set; qex cannot locate its config or state directory";

// ---------------------------------------------------------------------------
// Paths as text.
// ---------------------------------------------------------------------------

/// The path with a part added to it. A part that starts at the root takes the
/// place of the path.
pub open spec fn joined(base: Seq<char>, part: Seq<char>) -> Seq<char> {
    if part.len() > 0 && part[0] == '/' {
        part
    } else if base.len() == 0 || base.last() == '/' {
        base + part
    } else {
        base + "/"@ + part
    }
}

/// Adds a part to a path.
pub fn join(base: &str, part: &str) -> (r: String)
    ensures
        r@ == joined(base@, part@),
{
    let b = text::chars(base);
    let p = text::chars(part);
    if p.len() > 0 && p[0] == '/' {
        return text::owned(part);
    }
    let mut out = text::owned(base);
    if b.len() > 0 && b[b.len() - 1] != '/' {
        out.append("/");
    }
    out.append(part);
    out
}

/// True when the part at `i` of a path counts as a component. An empty part
/// never does, and `.` does only at the start of a path with no root.
pub open spec fn counts(parts: Seq<Seq<char>>, i: int, root: bool) -> bool {
    parts[i].len() > 0 && (parts[i] != "."@ || (i == 0 && !root))
}

/// The components among the first `n` parts of a path.
pub open spec fn components_of(parts: Seq<Seq<char>>, root: bool, n: nat) -> Seq<Seq<char>>
    decreases n,
{
    if n == 0 {
        Seq::empty()
    } else if counts(parts, n - 1, root) {
        components_of(parts, root, (n - 1) as nat).push(parts[n - 1])
    } else {
        components_of(parts, root, (n - 1) as nat)
    }
}

/// True when the path starts at the root.
pub open spec fn rooted(s: Seq<char>) -> bool {
    s.len() > 0 && s[0] == '/'
}

/// The components of a path.
pub open spec fn components(s: Seq<char>) -> Seq<Seq<char>> {
    components_of(text::parts(s, '/'), rooted(s), text::parts(s, '/').len())
}

/// True when the two texts name one path: both or neither start at the root,
/// and they have the same components.
pub open spec fn one_path(a: Seq<char>, b: Seq<char>) -> bool {
    rooted(a) == rooted(b) && components(a) == components(b)
}

fn is_rooted(s: &str) -> (r: bool)
    ensures
        r == rooted(s@),
{
    let c = text::chars(s);
    c.len() > 0 && c[0] == '/'
}

fn split_path(s: &str) -> (r: Vec<String>)
    ensures
        text::views(r@) == components(s@),
{
    let root = is_rooted(s);
    let parts = text::split(s, '/');
    let ghost all = text::parts(s@, '/');
    assert(parts@.len() == text::views(parts@).len());
    let mut out: Vec<String> = Vec::new();
    let mut i: usize = 0;
    while i < parts.len()
        invariant
            i <= parts@.len(),
            root == rooted(s@),
            all == text::parts(s@, '/'),
            text::views(parts@) == all,
            text::views(out@) == components_of(all, root, i as nat),
        decreases parts@.len() - i,
    {
        assert(all[i as int] == parts@[i as int]@);
        let empty = text::is_empty(parts[i].as_str());
        let dot = text::same(parts[i].as_str(), ".");
        let ghost before = out@;
        if !empty && (!dot || (i == 0 && !root)) {
            out.push(parts[i].clone());
            assert(text::views(out@) == text::views(before).push(all[i as int]));
        }
        i += 1;
    }
    assert(all.len() == parts@.len());
    out
}

/// Tests if the two texts name one path.
pub fn same_path(a: &str, b: &str) -> (r: bool)
    ensures
        r == one_path(a@, b@),
{
    if is_rooted(a) != is_rooted(b) {
        return false;
    }
    let x = split_path(a);
    let y = split_path(b);
    assert(text::views(x@).len() == x@.len());
    assert(text::views(y@).len() == y@.len());
    if x.len() != y.len() {
        return false;
    }
    let mut i: usize = 0;
    while i < x.len()
        invariant
            i <= x@.len(),
            x@.len() == y@.len(),
            text::views(x@) == components(a@),
            text::views(y@) == components(b@),
            forall|k: int| 0 <= k < i ==> #[trigger] x@[k]@ == y@[k]@,
        decreases x@.len() - i,
    {
        if !text::same(x[i].as_str(), y[i].as_str()) {
            assert(text::views(x@)[i as int] != text::views(y@)[i as int]);
            return false;
        }
        i += 1;
    }
    assert(text::views(x@) == text::views(y@));
    true
}

/// The length of the first `n` characters without what ends them and says
/// nothing: `/` and a part `.` after a `/`.
pub open spec fn solid_end(s: Seq<char>, n: nat) -> nat
    decreases n,
{
    if n > 0 && s[n - 1] == '/' {
        solid_end(s, (n - 1) as nat)
    } else if n > 1 && s[n - 1] == '.' && s[n - 2] == '/' {
        solid_end(s, (n - 1) as nat)
    } else {
        n
    }
}

/// The position behind the last `/` among the first `n` characters.
pub open spec fn name_start(s: Seq<char>, n: nat) -> nat
    decreases n,
{
    if n == 0 || s[n - 1] == '/' {
        n
    } else {
        name_start(s, (n - 1) as nat)
    }
}

fn end_of(s: &Vec<char>, n: usize) -> (r: usize)
    requires
        n <= s@.len(),
    ensures
        r == solid_end(s@, n as nat),
        r <= n,
{
    let mut k: usize = n;
    while (k > 0 && s[k - 1] == '/') || (k > 1 && s[k - 1] == '.' && s[k - 2] == '/')
        invariant
            k <= n <= s@.len(),
            solid_end(s@, n as nat) == solid_end(s@, k as nat),
        decreases k,
    {
        k -= 1;
    }
    k
}

fn start_of(s: &Vec<char>, n: usize) -> (r: usize)
    requires
        n <= s@.len(),
    ensures
        r == name_start(s@, n as nat),
        r <= n,
{
    let mut k: usize = n;
    while k > 0 && s[k - 1] != '/'
        invariant
            k <= n <= s@.len(),
            name_start(s@, n as nat) == name_start(s@, k as nat),
        decreases k,
    {
        k -= 1;
    }
    k
}

/// The path without its last component, or `None` for a path with none.
pub open spec fn parent_of(s: Seq<char>) -> Option<Seq<char>> {
    let end = solid_end(s, s.len());
    if end == 0 {
        None
    } else {
        let q = solid_end(s, name_start(s, end));
        if q == 0 && rooted(s) {
            Some("/"@)
        } else {
            Some(s.take(q as int))
        }
    }
}

/// Gives the directory of a path.
pub fn parent(s: &str) -> (r: Option<String>)
    ensures
        text::opt_view(r) == parent_of(s@),
{
    let c = text::chars(s);
    let end: usize = end_of(&c, c.len());
    if end == 0 {
        return None;
    }
    let at: usize = start_of(&c, end);
    let q: usize = end_of(&c, at);
    if q == 0 && c[0] == '/' {
        return Some(text::owned("/"));
    }
    let out = text::piece(&c, 0, q);
    assert(s@.subrange(0, q as int) == s@.take(q as int));
    Some(out)
}

/// The position behind the last `.` among the first `n` characters, and 0 where
/// there is none.
pub open spec fn after_dot(s: Seq<char>, n: nat) -> nat
    decreases n,
{
    if n == 0 || s[n - 1] == '.' {
        n
    } else {
        after_dot(s, (n - 1) as nat)
    }
}

/// The length of a file name without its extension. A name that starts with its
/// only `.` has no extension.
pub open spec fn stem_len(name: Seq<char>) -> nat {
    let k = after_dot(name, name.len());
    if k <= 1 {
        name.len()
    } else {
        (k - 1) as nat
    }
}

/// The path with the extension of its file name replaced. A path that names no
/// file stays as it is.
pub open spec fn extended(s: Seq<char>, extension: Seq<char>) -> Seq<char> {
    let end = solid_end(s, s.len());
    let at = name_start(s, end);
    let name = s.subrange(at as int, end as int);
    if name.len() == 0 || name == "."@ || name == ".."@ {
        s
    } else {
        s.take(at as int + stem_len(name)) + "."@ + extension
    }
}

proof fn lemma_after_dot(s: Seq<char>, n: nat)
    ensures
        after_dot(s, n) <= n,
    decreases n,
{
    if n > 0 {
        lemma_after_dot(s, (n - 1) as nat);
    }
}

/// Replaces the extension of the file name.
pub fn with_extension(s: &str, extension: &str) -> (r: String)
    ensures
        r@ == extended(s@, extension@),
{
    let c = text::chars(s);
    let end: usize = end_of(&c, c.len());
    let at: usize = start_of(&c, end);
    let name = text::piece(&c, at, end);
    let n = text::chars(name.as_str());
    if n.len() == 0 || text::same(name.as_str(), ".") || text::same(name.as_str(), "..") {
        return text::owned(s);
    }
    let mut k: usize = n.len();
    while k > 0 && n[k - 1] != '.'
        invariant
            k <= n@.len(),
            after_dot(n@, n@.len()) == after_dot(n@, k as nat),
        decreases k,
    {
        k -= 1;
    }
    let stem: usize = if k <= 1 {
        n.len()
    } else {
        k - 1
    };
    proof {
        lemma_after_dot(n@, n@.len());
    }
    assert(n@.len() == end - at);
    let mut out = text::piece(&c, 0, at + stem);
    assert(s@.subrange(0, at as int + stem) == s@.take(at as int + stem));
    out.append(".");
    out.append(extension);
    out
}

/// The extension of the file name of a path: what follows its last `.`, unless
/// the name starts with its only one.
pub open spec fn extension_of(s: Seq<char>) -> Option<Seq<char>> {
    let end = solid_end(s, s.len());
    let at = name_start(s, end);
    let name = s.subrange(at as int, end as int);
    if name.len() == 0 || name == "."@ || name == ".."@ || stem_len(name) == name.len() {
        None
    } else {
        Some(name.skip(stem_len(name) as int + 1))
    }
}

/// Gives the extension of the file name.
pub fn extension(s: &str) -> (r: Option<String>)
    ensures
        text::opt_view(r) == extension_of(s@),
{
    let c = text::chars(s);
    let end: usize = end_of(&c, c.len());
    let at: usize = start_of(&c, end);
    let name = text::piece(&c, at, end);
    let n = text::chars(name.as_str());
    if n.len() == 0 || text::same(name.as_str(), ".") || text::same(name.as_str(), "..") {
        return None;
    }
    let mut k: usize = n.len();
    while k > 0 && n[k - 1] != '.'
        invariant
            k <= n@.len(),
            after_dot(n@, n@.len()) == after_dot(n@, k as nat),
        decreases k,
    {
        k -= 1;
    }
    if k <= 1 {
        return None;
    }
    let out = text::piece(&n, k, n.len());
    assert(n@.subrange(k as int, n@.len() as int) == n@.skip(k as int));
    Some(out)
}

/// The file that holds the end of a log, beside the file that holds its start.
pub fn tail_path(head: &str) -> (r: String)
    ensures
        r@ == extended(head@, "log.tail"@),
{
    with_extension(head, "log.tail")
}

// ---------------------------------------------------------------------------
// The directories.
// ---------------------------------------------------------------------------

/// The text where it holds at least one character.
pub open spec fn given(t: Option<String>) -> Option<Seq<char>> {
    match t {
        Some(s) => if s@.len() > 0 {
            Some(s@)
        } else {
            None
        },
        None => None,
    }
}

/// The value of the variable, or a directory below the home directory.
pub open spec fn base_of(value: Option<String>, places: Places, suffix: Seq<char>) -> Option<
    Seq<char>,
> {
    match given(value) {
        Some(v) => Some(v),
        None => match given(places.home) {
            Some(h) => Some(joined(h, suffix)),
            None => None,
        },
    }
}

/// The state directory.
pub open spec fn state_place(places: Places) -> Option<Seq<char>> {
    match base_of(places.state_home, places, ".local/state"@) {
        Some(b) => Some(joined(b, "qex"@)),
        None => None,
    }
}

/// The path below the state directory that the parts give.
pub open spec fn below_state(places: Places, parts: Seq<Seq<char>>) -> Option<Seq<char>>
    decreases parts.len(),
{
    if parts.len() == 0 {
        state_place(places)
    } else {
        match below_state(places, parts.drop_last()) {
            Some(b) => Some(joined(b, parts.last())),
            None => None,
        }
    }
}

/// True when the result is the path, or the fault that no home directory is
/// known.
pub open spec fn gives(r: Result<String, String>, path: Option<Seq<char>>) -> bool {
    match r {
        Ok(p) => path == Some(p@),
        Err(e) => path is None && e@ == NO_HOME@,
    }
}

fn is_given(t: &Option<String>) -> (r: Option<&String>)
    ensures
        match r {
            Some(s) => given(*t) == Some(s@),
            None => given(*t) is None,
        },
{
    match t {
        Some(s) => {
            if text::is_empty(s.as_str()) {
                None
            } else {
                Some(s)
            }
        },
        None => None,
    }
}

fn xdg(value: &Option<String>, places: &Places, suffix: &str) -> (r: Result<String, String>)
    ensures
        gives(r, base_of(*value, *places, suffix@)),
{
    match is_given(value) {
        Some(v) => Ok(v.clone()),
        None => match is_given(&places.home) {
            Some(h) => Ok(join(h.as_str(), suffix)),
            None => Err(text::owned(NO_HOME)),
        },
    }
}

/// Gives the location of the config file: `~/.config/qex.toml`.
pub fn config_file(places: &Places) -> (r: Result<String, String>)
    ensures
        gives(
            r,
            match base_of(places.config_home, *places, ".config"@) {
                Some(b) => Some(joined(b, "qex.toml"@)),
                None => None,
            },
        ),
{
    match xdg(&places.config_home, places, ".config") {
        Ok(b) => Ok(join(b.as_str(), "qex.toml")),
        Err(e) => Err(e),
    }
}

/// Gives the location of the state directory: `~/.local/state/qex`.
pub fn state_dir(places: &Places) -> (r: Result<String, String>)
    ensures
        gives(r, state_place(*places)),
{
    match xdg(&places.state_home, places, ".local/state") {
        Ok(b) => Ok(join(b.as_str(), "qex")),
        Err(e) => Err(e),
    }
}

fn below(dir: Result<String, String>, part: &str) -> (r: Result<String, String>)
    ensures
        match dir {
            Ok(d) => r matches Ok(p) && p@ == joined(d@, part@),
            Err(e) => r == Err::<String, String>(e),
        },
{
    match dir {
        Ok(d) => Ok(join(d.as_str(), part)),
        Err(e) => Err(e),
    }
}

/// `~/.local/state/qex/jobs`
pub fn jobs_dir(places: &Places) -> (r: Result<String, String>)
    ensures
        gives(r, below_state(*places, seq!["jobs"@])),
{
    reveal_with_fuel(below_state, 2);
    assert(seq!["jobs"@].drop_last() == Seq::<Seq<char>>::empty());
    below(state_dir(places), "jobs")
}

/// Gives the location of the runtime directory, which holds the socket, the
/// spawn lock and the log of the coordinator.
///
/// The directory is always inside the state directory: the jobs of a user are
/// there, and there must be one coordinator for those jobs.
pub fn runtime_dir(places: &Places) -> (r: Result<String, String>)
    ensures
        gives(r, below_state(*places, seq!["run"@])),
{
    reveal_with_fuel(below_state, 2);
    assert(seq!["run"@].drop_last() == Seq::<Seq<char>>::empty());
    below(state_dir(places), "run")
}

/// The file that one command locks while it starts a coordinator.
pub fn spawn_lock_path(places: &Places) -> (r: Result<String, String>)
    ensures
        gives(r, below_state(*places, seq!["run"@, "spawn.lock"@])),
{
    assert(seq!["run"@, "spawn.lock"@].drop_last() == seq!["run"@]);
    below(runtime_dir(places), "spawn.lock")
}

/// The log of the coordinator.
pub fn daemon_log_path(places: &Places) -> (r: Result<String, String>)
    ensures
        gives(r, below_state(*places, seq!["run"@, "daemon.log"@])),
{
    assert(seq!["run"@, "daemon.log"@].drop_last() == seq!["run"@]);
    below(runtime_dir(places), "daemon.log")
}

/// Gives the location of the directory for one job.
pub fn job_dir(places: &Places, id: u128) -> (r: Result<String, String>)
    ensures
        gives(r, below_state(*places, seq!["jobs"@, ids::hyphenated(id as nat)])),
{
    assert(seq!["jobs"@, ids::hyphenated(id as nat)].drop_last() == seq!["jobs"@]);
    let name = ids::id_text(id);
    below(jobs_dir(places), name.as_str())
}

// ---------------------------------------------------------------------------
// The socket.
// ---------------------------------------------------------------------------

/// The maximum length of a socket path, in bytes.
///
/// The `sun_path` field of `sockaddr_un` holds 104 bytes on macOS and 108 bytes
/// on Linux. This is the smaller value with space for the final zero byte.
pub const MAX_SOCKET_PATH: usize = 100;

/// The bytes of a text.
pub open spec fn bytes_of(s: Seq<char>) -> Seq<u8> {
    vstd::utf8::encode_utf8(s)
}

/// The FNV-1a number of some bytes.
pub open spec fn fnv(bytes: Seq<u8>) -> u64
    decreases bytes.len(),
{
    if bytes.len() == 0 {
        0xcbf29ce484222325
    } else {
        (fnv(bytes.drop_last()) ^ (bytes.last() as u64)).wrapping_mul(0x100000001b3)
    }
}

/// A short name for a long path. It identifies the path, and it is not a secure
/// hash.
pub fn path_hash(path: &str) -> (r: String)
    ensures
        r@ == text::padded(job::hex(fnv(bytes_of(path@)) as nat), '0', 8),
{
    let bytes = path.as_bytes();
    let total: usize = bytes.len();
    let mut hash: u64 = 0xcbf29ce484222325;
    let mut i: usize = 0;
    while i < total
        invariant
            i <= total == bytes@.len(),
            hash == fnv(bytes@.take(i as int)),
        decreases total - i,
    {
        assert(bytes@.take(i + 1).drop_last() == bytes@.take(i as int));
        hash = (hash ^ (bytes[i] as u64)).wrapping_mul(0x100000001b3);
        i += 1;
    }
    assert(bytes@.take(total as int) == bytes@);
    text::pad_left(job::hexadecimal(hash).as_str(), '0', 8)
}

/// The name of the short directory for the socket of a user.
pub open spec fn short_name(uid: nat, preferred: Seq<char>) -> Seq<char> {
    short_prefix(uid) + text::padded(job::hex(fnv(bytes_of(preferred)) as nat), '0', 8)
}

/// What the name of every short directory of the user starts with.
pub open spec fn short_prefix(uid: nat) -> Seq<char> {
    "qex-"@ + text::digits(uid) + "-"@
}

pub(crate) fn prefix(uid: u32) -> (r: String)
    ensures
        r@ == short_prefix(uid as nat),
{
    let mut out = text::owned("qex-");
    out.append(text::decimal(uid as u64).as_str());
    out.append("-");
    out
}

/// Where the socket is: beside the jobs, or in a short directory where that
/// path is too long for the system.
#[derive(Debug)]
pub struct SocketPlace {
    pub path: String,
    /// The short directory that the caller makes before it uses the socket.
    pub short_dir: Option<String>,
}

/// The path of the socket, and its short directory.
pub open spec fn socket_place(preferred: Seq<char>, temp: Seq<char>, uid: nat) -> (
    Seq<char>,
    Option<Seq<char>>,
) {
    if bytes_of(preferred).len() <= MAX_SOCKET_PATH {
        (preferred, None)
    } else {
        let dir = joined(temp, short_name(uid, preferred));
        (joined(dir, "s"@), Some(dir))
    }
}

/// Gives the location of the control socket.
///
/// A long home directory can make the path too long. The socket is then in a
/// short directory among the temporary files. The name of that directory comes
/// from the user id and from the long path, so the CLI and the coordinator
/// always calculate the same name.
pub fn socket_path(places: &Places, uid: u32) -> (r: Result<SocketPlace, String>)
    ensures
        match r {
            Ok(p) => {
                &&& below_state(*places, seq!["run"@, "s"@]) is Some
                &&& (p.path@, text::opt_view(p.short_dir)) == socket_place(
                    below_state(*places, seq!["run"@, "s"@])->0,
                    places.temp@,
                    uid as nat,
                )
            },
            Err(e) => below_state(*places, seq!["run"@, "s"@]) is None && e@ == NO_HOME@,
        },
{
    assert(seq!["run"@, "s"@].drop_last() == seq!["run"@]);
    match runtime_dir(places) {
        Err(e) => Err(e),
        Ok(dir) => {
            let preferred = join(dir.as_str(), "s");
            if preferred.as_str().as_bytes().len() <= MAX_SOCKET_PATH {
                return Ok(SocketPlace { path: preferred, short_dir: None });
            }
            let mut name = prefix(uid);
            name.append(path_hash(preferred.as_str()).as_str());
            let short = join(places.temp.as_str(), name.as_str());
            Ok(SocketPlace { path: join(short.as_str(), "s"), short_dir: Some(short) })
        },
    }
}

/// One state directory gives one socket, and thus one coordinator: nothing else
/// of the environment changes the path, but for the directory of the temporary
/// files that the path of a long state directory needs.
pub proof fn law_one_state_directory_gives_one_socket(a: Places, b: Places, uid: nat)
    requires
        state_place(a) == state_place(b),
        state_place(a) is Some,
        a.temp@ == b.temp@ || bytes_of(
            below_state(a, seq!["run"@, "s"@])->0,
        ).len() <= MAX_SOCKET_PATH,
    ensures
        socket_place(below_state(a, seq!["run"@, "s"@])->0, a.temp@, uid) == socket_place(
            below_state(b, seq!["run"@, "s"@])->0,
            b.temp@,
            uid,
        ),
{
    reveal_with_fuel(below_state, 3);
    assert(seq!["run"@, "s"@].drop_last() == seq!["run"@]);
    assert(seq!["run"@].drop_last() == Seq::<Seq<char>>::empty());
}

// ---------------------------------------------------------------------------
// What the paths promise.
// ---------------------------------------------------------------------------

proof fn lemma_components_join(
    a: Seq<Seq<char>>,
    b: Seq<Seq<char>>,
    b_rooted: Seq<Seq<char>>,
    root: bool,
    n: nat,
)
    requires
        a.len() > 0,
        n <= b.len(),
        b_rooted == seq![Seq::<char>::empty()] + b,
    ensures
        components_of(a + b, root, a.len() + n) == components_of(a, root, a.len()) + components_of(
            b_rooted,
            true,
            n + 1,
        ),
    decreases n,
{
    if n == 0 {
        lemma_components_start(a, b, root, a.len());
        assert(components_of(b_rooted, true, 0) == Seq::<Seq<char>>::empty());
        assert(!counts(b_rooted, 0, true));
        assert(components_of(b_rooted, true, 1) == Seq::<Seq<char>>::empty());
        assert(components_of(a, root, a.len()) + Seq::<Seq<char>>::empty() == components_of(
            a,
            root,
            a.len(),
        ));
    } else {
        lemma_components_join(a, b, b_rooted, root, (n - 1) as nat);
        assert((a + b)[a.len() + n - 1] == b[n - 1]);
        assert(b_rooted[n as int] == b[n - 1]);
        let left = components_of(a, root, a.len());
        let right = components_of(b_rooted, true, n);
        assert(left + right.push(b[n - 1]) == (left + right).push(b[n - 1]));
        assert((a.len() + n - 1) as nat == a.len() + (n - 1) as nat);
    }
}

proof fn lemma_components_start(a: Seq<Seq<char>>, b: Seq<Seq<char>>, root: bool, n: nat)
    requires
        n <= a.len(),
    ensures
        components_of(a + b, root, n) == components_of(a, root, n),
    decreases n,
{
    if n > 0 {
        lemma_components_start(a, b, root, (n - 1) as nat);
        assert((a + b)[n - 1] == a[n - 1]);
    }
}

/// The components of two paths with a `/` between them are the components of the
/// first and then those of the second as they stand below a root.
pub proof fn law_components_join(a: Seq<char>, b: Seq<char>)
    requires
        a.len() > 0,
    ensures
        components(a.push('/') + b) == components(a) + components(seq!['/'] + b),
        rooted(a.push('/') + b) == (a[0] == '/'),
{
    let whole = a.push('/') + b;
    assert(whole[0] == a[0]);
    text::law_parts_join(a, b, '/');
    text::law_the_parts_make_the_text(a, '/');
    text::law_the_parts_make_the_text(b, '/');
    let pa = text::parts(a, '/');
    let pb = text::parts(b, '/');
    let below = seq!['/'] + b;
    assert(below == Seq::<char>::empty().push('/') + b);
    text::lemma_first_part(Seq::empty(), b, '/');
    assert(below[0] == '/');
    lemma_components_join(pa, pb, text::parts(below, '/'), rooted(a), pb.len());
}

/// One part of a path: below a root it is one component, unless it is empty or
/// `.`. A path with no `/` is one component, unless it is empty.
pub proof fn law_one_component(x: Seq<char>)
    requires
        forall|j: int| 0 <= j < x.len() ==> #[trigger] x[j] != '/',
    ensures
        components(seq!['/'] + x) == if x.len() == 0 || x == seq!['.'] {
            Seq::empty()
        } else {
            seq![x]
        },
        components(x) == if x.len() == 0 {
            Seq::empty()
        } else {
            seq![x]
        },
{
    reveal_strlit(".");
    assert("."@ == seq!['.']);
    let none = Seq::<Seq<char>>::empty();
    let below = seq!['/'] + x;
    assert(below == Seq::<char>::empty().push('/') + x);
    text::lemma_first_part(Seq::empty(), x, '/');
    text::lemma_one_part(x, '/');
    let parts = text::parts(below, '/');
    assert(parts == seq![Seq::<char>::empty(), x]);
    assert(below[0] == '/');
    assert(parts[0].len() == 0 && parts[1] == x);
    assert(components_of(parts, true, 0) == none);
    assert(components_of(parts, true, 1) == none);
    assert(none.push(x) == seq![x]);
    assert(components_of(parts, true, 2) == if counts(parts, 1, true) {
        none.push(x)
    } else {
        none
    });
    let one = text::parts(x, '/');
    assert(one[0] == x);
    if x.len() > 0 {
        assert(x[0] != '/');
    }
    assert(components_of(one, rooted(x), 0) == none);
    assert(components_of(one, rooted(x), 1) == if counts(one, 0, rooted(x)) {
        none.push(x)
    } else {
        none
    });
}

/// True for the name of a file or a directory: it is not empty, not `.`, and it
/// holds no `/`.
pub open spec fn plain_name(x: Seq<char>) -> bool {
    x.len() > 0 && x != seq!['.'] && forall|j: int| 0 <= j < x.len() ==> #[trigger] x[j] != '/'
}

/// The path from the root through the names.
pub open spec fn from_root(names: Seq<Seq<char>>) -> Seq<char>
    decreases names.len(),
{
    if names.len() == 0 {
        Seq::empty()
    } else {
        from_root(names.drop_last()).push('/') + names.last()
    }
}

proof fn lemma_from_root(names: Seq<Seq<char>>)
    requires
        forall|i: int| 0 <= i < names.len() ==> plain_name(#[trigger] names[i]),
    ensures
        names.len() > 0 ==> from_root(names).len() > 0 && from_root(names)[0] == '/',
        components(from_root(names)) == names,
    decreases names.len(),
{
    if names.len() == 0 {
        law_one_component(Seq::empty());
    } else {
        let less = names.drop_last();
        assert forall|i: int| 0 <= i < less.len() implies plain_name(#[trigger] less[i]) by {
            assert(less[i] == names[i]);
        }
        lemma_from_root(less);
        let x = names.last();
        assert(plain_name(names[names.len() - 1]));
        law_one_component(x);
        if less.len() == 0 {
            assert(from_root(less).push('/') + x == seq!['/'] + x);
            assert(seq![x] == names);
        } else {
            law_components_join(from_root(less), x);
            assert(less + seq![x] == names);
            assert((from_root(less).push('/') + x)[0] == from_root(less)[0]);
        }
    }
}

/// Two paths from the root are one path exactly when they go through the same
/// names: a directory and a directory inside it are two paths, and so are two
/// directories where the name of one begins with the name of the other.
pub proof fn law_different_names_are_different_paths(a: Seq<Seq<char>>, b: Seq<Seq<char>>)
    requires
        a.len() > 0,
        b.len() > 0,
        forall|i: int| 0 <= i < a.len() ==> plain_name(#[trigger] a[i]),
        forall|i: int| 0 <= i < b.len() ==> plain_name(#[trigger] b[i]),
    ensures
        one_path(from_root(a), from_root(b)) <==> a == b,
        !one_path(from_root(a), from_root(a).skip(1)),
{
    lemma_from_root(a);
    lemma_from_root(b);
    let bare = from_root(a).skip(1);
    if rooted(bare) {
        assert(a[0].len() > 0);
        lemma_second_char(a);
    }
}

proof fn lemma_second_char(names: Seq<Seq<char>>)
    requires
        names.len() > 0,
        forall|i: int| 0 <= i < names.len() ==> plain_name(#[trigger] names[i]),
    ensures
        from_root(names).len() > 1,
        from_root(names)[1] != '/',
    decreases names.len(),
{
    let less = names.drop_last();
    let x = names.last();
    assert(plain_name(names[names.len() - 1]));
    if less.len() == 0 {
        assert(from_root(less).len() == 0);
        assert(from_root(names)[1] == x[0]);
    } else {
        assert forall|i: int| 0 <= i < less.len() implies plain_name(#[trigger] less[i]) by {
            assert(less[i] == names[i]);
        }
        lemma_second_char(less);
        assert(from_root(names)[1] == from_root(less)[1]);
    }
}

/// A `/` at the end of a path, a second `/` and a part `.` change nothing.
pub proof fn law_empty_parts_change_no_path(a: Seq<char>, b: Seq<char>)
    requires
        a.len() > 0,
    ensures
        one_path(a.push('/'), a),
        one_path(a.push('/').push('.'), a),
        one_path(a.push('/').push('/') + b, a.push('/') + b),
        one_path(a + seq!['/', '.', '/'] + b, a.push('/') + b),
{
    law_one_component(Seq::empty());
    law_one_component(seq!['.']);
    law_components_join(a, Seq::empty());
    assert(a.push('/') + Seq::<char>::empty() == a.push('/'));
    law_components_join(a, seq!['.']);
    assert(a.push('/') + seq!['.'] == a.push('/').push('.'));
    let none = Seq::<Seq<char>>::empty();
    assert(components(a) + none == components(a));
    assert(seq!['/'] + Seq::<char>::empty() == seq!['/']);
    assert(a.push('/')[0] == a[0]);
    assert(a.push('/').push('.')[0] == a[0]);
    law_components_join(a, b);
    law_components_join(a.push('/'), b);
    let dotted = a.push('/').push('.');
    law_components_join(dotted, b);
    assert(dotted.push('/') + b == a + seq!['/', '.', '/'] + b);
}

/// A part below a path adds its components to those of the path; a part that
/// starts at the root takes the place of the path.
pub proof fn law_a_part_below_a_path(base: Seq<char>, part: Seq<char>)
    ensures
        part.len() > 0 && part[0] == '/' ==> joined(base, part) == part,
        base.len() == 0 ==> joined(base, part) == part,
        base.len() > 0 && (part.len() == 0 || part[0] != '/') ==> components(joined(base, part))
            == components(base) + components(seq!['/'] + part) && rooted(joined(base, part)) == (
        base[0] == '/'),
{
    reveal_strlit("/");
    assert("/"@ == seq!['/']);
    assert(Seq::<char>::empty() + part == part);
    if base.len() == 0 {
        assert(base + part == part);
    }
    if base.len() > 0 && (part.len() == 0 || part[0] != '/') {
        if base.last() == '/' {
            let front = base.drop_last();
            assert(base == front.push('/'));
            if front.len() > 0 {
                law_components_join(front, part);
                law_empty_parts_change_no_path(front, part);
                assert(front[0] == base[0]);
            } else {
                law_one_component(Seq::empty());
                assert(base == seq!['/'] + Seq::<char>::empty());
                assert(base + part == seq!['/'] + part);
                assert(Seq::<Seq<char>>::empty() + components(seq!['/'] + part) == components(
                    seq!['/'] + part,
                ));
                assert((base + part)[0] == '/');
            }
        } else {
            law_components_join(base, part);
            assert(base + "/"@ + part == base.push('/') + part);
        }
    }
}

proof fn lemma_name_start(s: Seq<char>, n: nat, at: nat)
    requires
        at <= n <= s.len(),
        at == 0 || s[at - 1] == '/',
        forall|j: int| at <= j < n ==> #[trigger] s[j] != '/',
    ensures
        name_start(s, n) == at,
    decreases n,
{
    if n > at {
        assert(s[n - 1] != '/');
        lemma_name_start(s, (n - 1) as nat, at);
    }
}

proof fn lemma_dot_at(s: Seq<char>, n: nat, at: nat)
    requires
        at <= n <= s.len(),
        at == 0 || s[at - 1] == '.',
        forall|j: int| at <= j < n ==> #[trigger] s[j] != '.',
    ensures
        after_dot(s, n) == at,
    decreases n,
{
    if n > at {
        assert(s[n - 1] != '.');
        lemma_dot_at(s, (n - 1) as nat, at);
    }
}

proof fn lemma_whole_name(dir: Seq<char>, name: Seq<char>)
    requires
        dir.len() == 0 || dir.last() == '/',
        name.len() > 0,
        name.last() != '.',
        forall|j: int| 0 <= j < name.len() ==> #[trigger] name[j] != '/',
    ensures
        solid_end(dir + name, (dir + name).len()) == dir.len() + name.len(),
        name_start(dir + name, (dir + name).len()) == dir.len(),
        (dir + name).subrange(dir.len() as int, (dir + name).len() as int) == name,
        name != "."@ && name != ".."@,
{
    reveal_strlit(".");
    reveal_strlit("..");
    let s = dir + name;
    assert(s[s.len() - 1] == name[name.len() - 1]);
    assert forall|j: int| dir.len() <= j < s.len() implies #[trigger] s[j] != '/' by {
        assert(s[j] == name[j - dir.len()]);
    }
    if dir.len() > 0 {
        assert(s[dir.len() - 1] == dir.last());
    }
    lemma_name_start(s, s.len(), dir.len());
    assert(s.subrange(dir.len() as int, s.len() as int) == name);
}

/// The extension of a file is what follows the last `.` of its name, and a new
/// extension takes its place.
pub proof fn law_the_extension_of_a_file(
    dir: Seq<char>,
    stem: Seq<char>,
    ext: Seq<char>,
    new: Seq<char>,
)
    requires
        dir.len() == 0 || dir.last() == '/',
        stem.len() > 0,
        ext.len() > 0,
        forall|j: int| 0 <= j < stem.len() ==> #[trigger] stem[j] != '/',
        forall|j: int| 0 <= j < ext.len() ==> #[trigger] ext[j] != '/' && ext[j] != '.',
    ensures
        extension_of(dir + (stem.push('.') + ext)) == Some(ext),
        extended(dir + (stem.push('.') + ext), new) == dir + stem.push('.') + new,
{
    reveal_strlit(".");
    let name = stem.push('.') + ext;
    let s = dir + name;
    let k = stem.len() + 1;
    assert(name.last() == ext[ext.len() - 1]);
    assert forall|j: int| 0 <= j < name.len() implies #[trigger] name[j] != '/' by {
        if j < stem.len() {
            assert(name[j] == stem[j]);
        } else if j >= k {
            assert(name[j] == ext[j - k]);
        }
    }
    lemma_whole_name(dir, name);
    assert(name[k - 1] == '.');
    assert forall|j: int| k <= j < name.len() implies #[trigger] name[j] != '.' by {
        assert(name[j] == ext[j - k]);
    }
    lemma_dot_at(name, name.len(), k);
    assert(name.skip(k as int) == ext);
    assert(s.take(dir.len() as int + stem.len()) + "."@ + new == dir + stem.push('.') + new);
}

/// A name with no `.` has no extension, and a new extension follows it.
pub proof fn law_a_file_with_no_extension(dir: Seq<char>, name: Seq<char>, new: Seq<char>)
    requires
        dir.len() == 0 || dir.last() == '/',
        name.len() > 0,
        forall|j: int| 0 <= j < name.len() ==> #[trigger] name[j] != '/' && name[j] != '.',
    ensures
        extension_of(dir + name) is None,
        extended(dir + name, new) == dir + name.push('.') + new,
{
    reveal_strlit(".");
    let s = dir + name;
    assert(name.last() == name[name.len() - 1]);
    lemma_whole_name(dir, name);
    lemma_dot_at(name, name.len(), 0);
    assert(s.take(dir.len() as int + name.len()) == s);
    assert(s + "."@ + new == dir + name.push('.') + new);
}

/// The directory of a file is the path before the `/` and the name of the file.
pub proof fn law_the_directory_of_a_file(dir: Seq<char>, name: Seq<char>)
    requires
        plain_name(name),
        dir.len() == 0 || (dir.last() != '/' && dir.last() != '.'),
    ensures
        dir.len() > 0 ==> parent_of(dir.push('/') + name) == Some(dir),
        parent_of(seq!['/'] + name) == Some(seq!['/']),
        parent_of(name) == Some(Seq::<char>::empty()),
{
    reveal_strlit("/");
    assert("/"@ == seq!['/']);
    lemma_parent(dir.push('/'), name);
    lemma_parent(seq!['/'], name);
    lemma_parent(Seq::empty(), name);
    assert(Seq::<char>::empty() + name == name);
    if dir.len() > 0 {
        let s = dir.push('/') + name;
        assert(s[dir.len() as int] == '/');
        assert(s[dir.len() - 1] == dir.last());
        assert(solid_end(s, dir.len() + 1) == solid_end(s, dir.len()));
        assert(solid_end(s, dir.len()) == dir.len());
        assert(s.take(dir.len() as int) == dir);
    }
    let s = seq!['/'] + name;
    assert(s[0] == '/');
    assert(solid_end(s, 1) == solid_end(s, 0));
    assert(solid_end(s, 0) == 0);
    assert(name[0] != '/');
    assert(solid_end(name, 0) == 0);
    assert(name.take(0) == Seq::<char>::empty());
}

proof fn lemma_parent(front: Seq<char>, name: Seq<char>)
    requires
        plain_name(name),
        front.len() == 0 || front.last() == '/',
    ensures
        solid_end(front + name, (front + name).len()) == (front + name).len(),
        name_start(front + name, (front + name).len()) == front.len(),
{
    let s = front + name;
    let n = s.len();
    assert forall|j: int| front.len() <= j < n implies #[trigger] s[j] != '/' by {
        assert(s[j] == name[j - front.len()]);
    }
    assert(s[n - 1] == name.last());
    if name.last() == '.' {
        assert(name.len() > 1) by {
            if name.len() == 1 {
                assert(name == seq!['.']);
            }
        }
        assert(s[n - 2] == name[name.len() - 2]);
    }
    if front.len() > 0 {
        assert(s[front.len() - 1] == front.last());
    }
    lemma_name_start(s, n, front.len());
}

/// The state is below `$XDG_STATE_HOME` where it is set to something, below the
/// home directory where it is not, and nowhere with neither of them.
pub proof fn law_where_the_state_is(places: Places)
    ensures
        places.state_home is Some && places.state_home->0@.len() > 0 ==> state_place(places)
            == Some(joined(places.state_home->0@, "qex"@)),
        (places.state_home is None || places.state_home->0@.len() == 0) && places.home is Some
            && places.home->0@.len() > 0 ==> state_place(places) == Some(
            joined(joined(places.home->0@, ".local/state"@), "qex"@),
        ),
        (places.state_home is None || places.state_home->0@.len() == 0) && (places.home is None
            || places.home->0@.len() == 0) ==> state_place(places) is None,
{
}

/// The socket is beside the jobs wherever the system takes that path, and in a
/// directory with the number of the user among the temporary files elsewhere.
pub proof fn law_where_the_socket_is(preferred: Seq<char>, temp: Seq<char>, uid: nat)
    ensures
        bytes_of(preferred).len() <= 100 ==> socket_place(preferred, temp, uid) == (preferred, None::<Seq<char>>),
        bytes_of(preferred).len() > 100 ==> (socket_place(preferred, temp, uid).1 matches Some(dir)
            && socket_place(preferred, temp, uid).0 == joined(dir, "s"@) && exists|tail: Seq<char>|
            dir == joined(temp, #[trigger] named_short(uid, tail))),
{
    if bytes_of(preferred).len() > 100 {
        let tail = text::padded(job::hex(fnv(bytes_of(preferred)) as nat), '0', 8);
        assert(short_name(uid, preferred) == named_short(uid, tail));
    }
}

/// The name of a short directory with the number of the user in it.
pub open spec fn named_short(uid: nat, tail: Seq<char>) -> Seq<char> {
    "qex-"@ + text::digits(uid) + "-"@ + tail
}

/// Two texts are one path exactly where both or neither start at the root and
/// they have the same components.
pub proof fn law_which_texts_are_one_path(a: &str, b: &str, r: bool)
    requires
        call_ensures(same_path, (a, b), r),
    ensures
        r <==> (a@.len() > 0 && a@[0] == '/' <==> b@.len() > 0 && b@[0] == '/') && components(a@)
            == components(b@),
{
}

/// The files of qex are below its state directory: the records under `jobs`, and
/// the socket, the lock and the log under `run`.
pub proof fn law_where_the_files_are(
    places: &Places,
    id: u128,
    state: Result<String, String>,
    jobs: Result<String, String>,
    run: Result<String, String>,
    job: Result<String, String>,
    lock: Result<String, String>,
    log: Result<String, String>,
)
    requires
        call_ensures(state_dir, (places,), state),
        call_ensures(jobs_dir, (places,), jobs),
        call_ensures(runtime_dir, (places,), run),
        call_ensures(job_dir, (places, id), job),
        call_ensures(spawn_lock_path, (places,), lock),
        call_ensures(daemon_log_path, (places,), log),
    ensures
        state is Ok <==> state_place(*places) is Some,
        state is Err ==> state->Err_0@ == NO_HOME@ && jobs is Err && run is Err && job is Err,
        state is Ok ==> {
            let s = state->Ok_0@;
            &&& jobs is Ok && jobs->Ok_0@ == joined(s, "jobs"@)
            &&& run is Ok && run->Ok_0@ == joined(s, "run"@)
            &&& job is Ok && job->Ok_0@ == joined(joined(s, "jobs"@), ids::hyphenated(id as nat))
            &&& lock is Ok && lock->Ok_0@ == joined(joined(s, "run"@), "spawn.lock"@)
            &&& log is Ok && log->Ok_0@ == joined(joined(s, "run"@), "daemon.log"@)
        },
{
    let none = Seq::<Seq<char>>::empty();
    let p = *places;
    assert(below_state(p, none) == state_place(p));
    lemma_below_one(p, "jobs"@);
    lemma_below_one(p, "run"@);
    lemma_below_two(p, "jobs"@, ids::hyphenated(id as nat));
    lemma_below_two(p, "run"@, "spawn.lock"@);
    lemma_below_two(p, "run"@, "daemon.log"@);
}

proof fn lemma_below_one(places: Places, a: Seq<char>)
    ensures
        below_state(places, seq![a]) == match state_place(places) {
            Some(s) => Some(joined(s, a)),
            None => None,
        },
{
    let none = Seq::<Seq<char>>::empty();
    assert(seq![a].drop_last() == none);
    assert(below_state(places, none) == state_place(places));
}

proof fn lemma_below_two(places: Places, a: Seq<char>, b: Seq<char>)
    ensures
        below_state(places, seq![a, b]) == match state_place(places) {
            Some(s) => Some(joined(joined(s, a), b)),
            None => None,
        },
{
    lemma_below_one(places, a);
    assert(seq![a, b].drop_last() == seq![a]);
}

/// The directory and the extension of a file are those of its path, and the file
/// for the end of a log has the name of the log with another extension.
pub proof fn law_the_parts_of_a_path(
    path: &str,
    dir: Seq<char>,
    stem: Seq<char>,
    ext: Seq<char>,
    up: Option<String>,
    extension_r: Option<String>,
    tail: String,
)
    requires
        path@ == dir.push('/') + (stem.push('.') + ext),
        dir.len() > 0,
        dir.last() != '/' && dir.last() != '.',
        stem.len() > 0,
        ext.len() > 0,
        forall|j: int| 0 <= j < stem.len() ==> #[trigger] stem[j] != '/',
        forall|j: int| 0 <= j < ext.len() ==> #[trigger] ext[j] != '/' && ext[j] != '.',
        call_ensures(parent, (path,), up),
        call_ensures(extension, (path,), extension_r),
        call_ensures(tail_path, (path,), tail),
    ensures
        up is Some && up->0@ == dir,
        extension_r is Some && extension_r->0@ == ext,
        tail@ == dir.push('/') + stem.push('.') + "log.tail"@,
{
    let name = stem.push('.') + ext;
    assert(plain_name(name)) by {
        assert forall|j: int| 0 <= j < name.len() implies #[trigger] name[j] != '/' by {
            if j < stem.len() {
                assert(name[j] == stem[j]);
            } else if j > stem.len() {
                assert(name[j] == ext[j - stem.len() - 1]);
            }
        }
        assert(name.len() > 1);
        assert(seq!['.'].len() == 1);
    }
    law_the_directory_of_a_file(dir, name);
    law_the_extension_of_a_file(dir.push('/'), stem, ext, "log.tail"@);
}

} // verus!
