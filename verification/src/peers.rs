//! Shares the resource claims between the users of one machine.
//!
//! Each coordinator writes its claims to a file in a shared directory, and it
//! reads the files of the other coordinators before it starts a job. The shared
//! directory is writable by every user, so every file is tested before its
//! record counts.

use crate::text;
use crate::units;
use vstd::prelude::*;
use vstd::string::*;

verus! {

/// The record that one coordinator publishes.
#[derive(Debug, Clone)]
pub struct Peer {
    pub uid: u32,
    pub pid: i32,
    pub boot_id: String,
    pub cpu: u64,
    pub mem: u64,
    pub updated_at: u64,
}

/// The total of the claims of the other coordinators.
#[derive(Debug, Clone, Copy, PartialEq, Eq, Structural)]
pub struct Claims {
    pub cpu: u64,
    pub mem: u64,
    /// The number of other coordinators that qex counted.
    pub count: usize,
}

impl Default for Claims {
    fn default() -> (r: Self)
        ensures
            r == (Claims { cpu: 0, mem: 0, count: 0 }),
    {
        Claims { cpu: 0, mem: 0, count: 0 }
    }
}

// ---------------------------------------------------------------------------
// The directory.
// ---------------------------------------------------------------------------

/// What stands at the path of the shared directory.
#[derive(Debug, Clone, Copy, PartialEq, Eq, Structural)]
pub struct Meta {
    pub is_dir: bool,
    pub mode: u32,
    pub owner: u32,
}

/// What qex does with the shared directory.
#[derive(Debug, Clone, Copy, PartialEq, Eq, Structural)]
pub enum PeerDir {
    /// The directory is safe to use.
    Use,
    /// There is none. Make it with the mode 1777.
    Make,
    /// The directory fails a test. qex operates for one user only.
    Refuse,
}

/// The bit that stops a user from the deletion of the files of a different one.
pub const STICKY: u32 = 0o1000;

/// The bit that lets every user write.
pub const WORLD_WRITE: u32 = 0o002;

/// True when the directory is safe: it has the sticky bit, and every user can
/// write it, or its owner is the root user or the current one.
pub open spec fn safe_dir(meta: Meta, uid: u32) -> bool {
    &&& meta.is_dir
    &&& meta.mode & STICKY != 0
    &&& meta.mode & WORLD_WRITE != 0 || meta.owner == 0 || meta.owner == uid
}

/// Decides about the shared directory. `found` is `None` when there is nothing
/// at the path.
///
/// The owner of a directory that every user can write does not matter: qex makes
/// the directory, so the first user of the machine owns it. The safety comes
/// from the sticky bit and from the test of the owner of each file.
pub fn peer_dir(found: Option<Meta>, uid: u32) -> (r: PeerDir)
    ensures
        r == match found {
            None => PeerDir::Make,
            Some(meta) => if safe_dir(meta, uid) {
                PeerDir::Use
            } else {
                PeerDir::Refuse
            },
        },
{
    match found {
        None => PeerDir::Make,
        Some(meta) => {
            if !meta.is_dir {
                return PeerDir::Refuse;
            }
            if meta.mode & STICKY == 0 {
                return PeerDir::Refuse;
            }
            let world_writable = meta.mode & WORLD_WRITE != 0;
            if !world_writable && meta.owner != 0 && meta.owner != uid {
                return PeerDir::Refuse;
            }
            PeerDir::Use
        },
    }
}

/// The true state of the shared accounting.
pub open spec fn state_text(enabled: bool, dir: Seq<char>, usable: bool, c: Claims) -> Seq<char> {
    if !enabled {
        "off; the config file sets [peers] enabled = false"@
    } else if usable {
        "on, in "@ + dir + " ("@ + text::digits(c.count as nat) + " other coordinator(s), "@
            + text::digits(c.cpu as nat) + " cores and "@ + units::size_text(c.mem as nat)
            + " claimed)"@
    } else {
        "NOT ACTIVE; qex cannot use the directory "@ + dir
            + ". It must be a directory with the sticky bit. qex uses the budget of this user only."@
    }
}

/// Writes the true state of the shared accounting. A message that says "on"
/// while the directory fails a test would tell the user that a feature operates
/// when it does not.
pub fn describe(enabled: bool, dir: &str, usable: bool, c: &Claims) -> (r: String)
    ensures
        r@ == state_text(enabled, dir@, usable, *c),
{
    if !enabled {
        return text::owned("off; the config file sets [peers] enabled = false");
    }
    if usable {
        let mut m = text::owned("on, in ");
        m.append(dir);
        m.append(" (");
        m.append(text::decimal(c.count as u64).as_str());
        m.append(" other coordinator(s), ");
        m.append(text::decimal(c.cpu).as_str());
        m.append(" cores and ");
        m.append(units::format_size(c.mem).as_str());
        m.append(" claimed)");
        return m;
    }
    let mut m = text::owned("NOT ACTIVE; qex cannot use the directory ");
    m.append(dir);
    m.append(
        ". It must be a directory with the sticky bit. qex uses the budget of this user only.",
    );
    m
}

// ---------------------------------------------------------------------------
// The names.
// ---------------------------------------------------------------------------

/// Gives the file name of the directory of one user.
pub fn user_dir_name(uid: u32) -> (r: String)
    ensures
        r@ == "u"@ + text::digits(uid as nat),
{
    let mut m = text::owned("u");
    m.append(text::decimal(uid as u64).as_str());
    m
}

/// Gives the file name for one coordinator.
///
/// The name holds the process id, so each coordinator has its own file. One user
/// can have more than one coordinator, with one for each state directory.
pub fn peer_file_name(pid: i32) -> (r: String)
    ensures
        r@ == "peer-"@ + text::signed(pid as int) + ".json"@,
{
    let mut m = text::owned("peer-");
    m.append(text::signed_decimal(pid as i64).as_str());
    m.append(".json");
    m
}

/// The user that the name of a directory gives.
pub open spec fn user_of(name: Seq<char>) -> Option<nat> {
    if name.len() > 0 && name[0] == 'u' {
        text::parsed(name.skip(1), u32::MAX as nat)
    } else {
        None
    }
}

/// Reads the user from the name of a directory.
pub fn user_of_dir(name: &str) -> (r: Option<u32>)
    ensures
        match r {
            Some(u) => user_of(name@) == Some(u as nat),
            None => user_of(name@) is None,
        },
{
    let c = text::chars(name);
    if c.len() == 0 || c[0] != 'u' {
        return None;
    }
    let rest = text::piece(&c, 1, c.len());
    assert(name@.subrange(1, name@.len() as int) == name@.skip(1));
    match text::parse_number(rest.as_str(), u32::MAX as u64) {
        Some(n) => Some(n as u32),
        None => None,
    }
}

/// True for the name of a record.
pub open spec fn record_name(name: Seq<char>) -> bool {
    text::begins(name, "peer-"@) && text::finishes(name, ".json"@)
}

/// Tests if a file has the name of a record.
pub fn is_record_name(name: &str) -> (r: bool)
    ensures
        r == record_name(name@),
{
    text::starts_with(name, "peer-") && text::ends_with(name, ".json")
}

// ---------------------------------------------------------------------------
// The records.
// ---------------------------------------------------------------------------

/// The largest file that can be a record, in bytes.
pub const MAX_RECORD: u64 = 65536;

/// One file in the directory of a user, as the caller found it. The caller opens
/// it without a symbolic link.
#[derive(Debug)]
pub struct PeerFile {
    /// The name of the directory.
    pub dir: String,
    pub name: String,
    pub is_file: bool,
    pub owner: u32,
    pub len: u64,
    /// The record in the file, where it holds one.
    pub peer: Option<Peer>,
    /// True when the process of the record is alive.
    pub alive: bool,
}

/// The coordinator that reads the records.
#[derive(Debug)]
pub struct Reader {
    pub uid: u32,
    pub pid: i32,
    pub boot_id: String,
    pub now: u64,
    /// The seconds after which a record is old.
    pub stale: u64,
}

/// What the reader does with a file.
#[derive(Debug, Clone, Copy, PartialEq, Eq, Structural)]
pub enum PeerFate {
    /// The file is not a record that counts, and it stays.
    Skip,
    /// The record is of a coordinator that stopped. The file goes.
    Delete,
    /// The claims count.
    Count,
}

/// True when the file holds a record of the user of its directory: the owner of
/// the file, the name of the directory and the record name one user.
pub open spec fn own_record(file: PeerFile) -> bool {
    &&& record_name(file.name@)
    &&& user_of(file.dir@) == Some(file.owner as nat)
    &&& file.is_file
    &&& file.len <= MAX_RECORD
    &&& file.peer matches Some(p) && p.uid == file.owner
}

/// The seconds since the record was written, and 0 where its clock is ahead.
pub open spec fn age(now: u64, at: u64) -> int {
    if now < at {
        0
    } else {
        now - at
    }
}

/// What the reader does with a file.
pub open spec fn fate(file: PeerFile, me: Reader) -> PeerFate {
    if !own_record(file) {
        PeerFate::Skip
    } else {
        let p = file.peer->0;
        if file.owner == me.uid && p.pid == me.pid {
            PeerFate::Skip
        } else if p.boot_id@ != me.boot_id@ || age(me.now, p.updated_at) > me.stale || !file.alive {
            PeerFate::Delete
        } else {
            PeerFate::Count
        }
    }
}

/// Decides about one file.
///
/// A user cannot write a record for a different user. A record of a different
/// start of the machine is old, because the system uses each process id again.
pub fn read_peer(file: &PeerFile, me: &Reader) -> (r: PeerFate)
    ensures
        r == fate(*file, *me),
{
    if !is_record_name(file.name.as_str()) {
        return PeerFate::Skip;
    }
    match user_of_dir(file.dir.as_str()) {
        Some(u) => {
            if u != file.owner {
                return PeerFate::Skip;
            }
        },
        None => {
            return PeerFate::Skip;
        },
    }
    if !file.is_file || file.len > MAX_RECORD {
        return PeerFate::Skip;
    }
    match &file.peer {
        None => PeerFate::Skip,
        Some(p) => {
            if p.uid != file.owner {
                return PeerFate::Skip;
            }
            if file.owner == me.uid && p.pid == me.pid {
                return PeerFate::Skip;
            }
            let old: u64 = if me.now < p.updated_at {
                0
            } else {
                me.now - p.updated_at
            };
            if !text::same(p.boot_id.as_str(), me.boot_id.as_str()) || old > me.stale
                || !file.alive {
                return PeerFate::Delete;
            }
            PeerFate::Count
        },
    }
}

/// The cores that the counted records claim.
pub open spec fn total_cpu(files: Seq<PeerFile>, me: Reader) -> nat
    decreases files.len(),
{
    if files.len() == 0 {
        0
    } else {
        total_cpu(files.drop_last(), me) + if fate(files.last(), me) is Count {
            files.last().peer->0.cpu as nat
        } else {
            0
        }
    }
}

/// The memory that the counted records claim.
pub open spec fn total_mem(files: Seq<PeerFile>, me: Reader) -> nat
    decreases files.len(),
{
    if files.len() == 0 {
        0
    } else {
        total_mem(files.drop_last(), me) + if fate(files.last(), me) is Count {
            files.last().peer->0.mem as nat
        } else {
            0
        }
    }
}

/// The positions of the files with the fate.
pub open spec fn with_fate(files: Seq<PeerFile>, me: Reader, want: PeerFate) -> Seq<usize>
    decreases files.len(),
{
    if files.len() == 0 {
        Seq::empty()
    } else if fate(files.last(), me) == want {
        with_fate(files.drop_last(), me, want).push((files.len() - 1) as usize)
    } else {
        with_fate(files.drop_last(), me, want)
    }
}

proof fn lemma_totals_grow(files: Seq<PeerFile>, me: Reader, n: int)
    requires
        0 <= n <= files.len(),
    ensures
        total_cpu(files.take(n), me) <= total_cpu(files, me),
        total_mem(files.take(n), me) <= total_mem(files, me),
    decreases files.len(),
{
    if n == files.len() {
        assert(files.take(n) == files);
    } else {
        assert(files.drop_last().take(n) == files.take(n));
        lemma_totals_grow(files.drop_last(), me, n);
    }
}

/// Adds the claims of the other coordinators, and gives the positions of the
/// files to delete.
///
/// A file that fails a test counts nothing and gives no error: a damaged file
/// must not stop the queue.
pub fn claims(files: &Vec<PeerFile>, me: &Reader) -> (r: (Claims, Vec<usize>))
    requires
        total_cpu(files@, *me) <= u64::MAX,
        total_mem(files@, *me) <= u64::MAX,
    ensures
        r.0.cpu == total_cpu(files@, *me),
        r.0.mem == total_mem(files@, *me),
        r.0.count == with_fate(files@, *me, PeerFate::Count).len(),
        r.1@ == with_fate(files@, *me, PeerFate::Delete),
{
    let mut total = Claims { cpu: 0, mem: 0, count: 0 };
    let mut old: Vec<usize> = Vec::new();
    let mut i: usize = 0;
    while i < files.len()
        invariant
            i <= files@.len(),
            total_cpu(files@, *me) <= u64::MAX,
            total_mem(files@, *me) <= u64::MAX,
            total.cpu == total_cpu(files@.take(i as int), *me),
            total.mem == total_mem(files@.take(i as int), *me),
            total.count == with_fate(files@.take(i as int), *me, PeerFate::Count).len(),
            total.count <= i,
            old@ == with_fate(files@.take(i as int), *me, PeerFate::Delete),
        decreases files@.len() - i,
    {
        proof {
            assert(files@.take(i + 1).drop_last() == files@.take(i as int));
            lemma_totals_grow(files@, *me, i + 1);
        }
        match read_peer(&files[i], me) {
            PeerFate::Skip => {},
            PeerFate::Delete => {
                old.push(i);
            },
            PeerFate::Count => match &files[i].peer {
                Some(p) => {
                    total.cpu = total.cpu + p.cpu;
                    total.mem = total.mem + p.mem;
                    total.count = total.count + 1;
                },
                None => {},
            },
        }
        i += 1;
    }
    assert(files@.take(files@.len() as int) == files@);
    (total, old)
}

/// The record of a coordinator never counts for itself: its claims are already
/// in its own total.
pub proof fn law_a_coordinator_does_not_count_itself(file: PeerFile, me: Reader)
    requires
        file.peer matches Some(p) && p.uid == me.uid && p.pid == me.pid,
    ensures
        fate(file, me) == PeerFate::Skip,
{
}

/// A record counts only where the owner of its file, its directory and the
/// record itself name one user, so no user can claim for a different one.
pub proof fn law_a_user_claims_for_nobody_else(file: PeerFile, me: Reader)
    requires
        fate(file, me) == PeerFate::Count,
    ensures
        file.peer is Some,
        file.peer->0.uid == file.owner,
        user_of(file.dir@) == Some(file.owner as nat),
{
}

/// One more file that counts raises the two totals and the count by exactly
/// what its record claims. One more file that does not count leaves all three as
/// they were.
pub proof fn law_a_record_adds_its_own_claim(files: Seq<PeerFile>, file: PeerFile, me: Reader)
    ensures
        fate(file, me) is Count ==> {
            &&& file.peer is Some
            &&& total_cpu(files.push(file), me) == total_cpu(files, me) + file.peer->0.cpu
            &&& total_mem(files.push(file), me) == total_mem(files, me) + file.peer->0.mem
            &&& with_fate(files.push(file), me, PeerFate::Count).len() == with_fate(
                files,
                me,
                PeerFate::Count,
            ).len() + 1
        },
        fate(file, me) !is Count ==> {
            &&& total_cpu(files.push(file), me) == total_cpu(files, me)
            &&& total_mem(files.push(file), me) == total_mem(files, me)
            &&& with_fate(files.push(file), me, PeerFate::Count) == with_fate(
                files,
                me,
                PeerFate::Count,
            )
        },
        total_cpu(Seq::empty(), me) == 0,
        total_mem(Seq::empty(), me) == 0,
        with_fate(Seq::empty(), me, PeerFate::Count).len() == 0,
{
    assert(files.push(file).drop_last() == files);
}

/// A record counts exactly when its file is a small regular file with the name
/// of a record, one user is the owner of the file, of the directory and of the
/// record, the record is not of the reader itself, it is of the current start of
/// the machine, it is not older than the limit, and its process is alive.
pub proof fn law_which_records_count(file: PeerFile, p: Peer, me: Reader)
    requires
        file.peer == Some(p),
    ensures
        fate(file, me) is Count <==> {
            &&& record_name(file.name@) && file.is_file && file.len <= 65536
            &&& user_of(file.dir@) == Some(p.uid as nat) && file.owner == p.uid
            &&& p.uid != me.uid || p.pid != me.pid
            &&& p.boot_id@ == me.boot_id@ && me.now <= p.updated_at + me.stale && file.alive
        },
        fate(file, me) is Delete <==> {
            &&& record_name(file.name@) && file.is_file && file.len <= 65536
            &&& user_of(file.dir@) == Some(p.uid as nat) && file.owner == p.uid
            &&& p.uid != me.uid || p.pid != me.pid
            &&& p.boot_id@ != me.boot_id@ || me.now > p.updated_at + me.stale || !file.alive
        },
{
}

/// A file with no record in it counts nothing, and it stays.
pub proof fn law_a_damaged_file_is_passed_over(file: PeerFile, me: Reader)
    requires
        file.peer is None,
    ensures
        fate(file, me) is Skip,
{
}

/// The positions with a fate are exactly those of the files that have it, in the
/// order of the files.
pub proof fn law_the_positions_of_a_fate(files: Seq<PeerFile>, me: Reader, want: PeerFate)
    requires
        files.len() <= usize::MAX,
    ensures
        forall|i: usize|
            with_fate(files, me, want).contains(i) <==> i < files.len() && #[trigger] fate(
                files[i as int],
                me,
            ) == want,
        forall|a: int, b: int|
            0 <= a < b < with_fate(files, me, want).len() ==> #[trigger] with_fate(
                files,
                me,
                want,
            )[a] < #[trigger] with_fate(files, me, want)[b],
    decreases files.len(),
{
    let all = with_fate(files, me, want);
    if files.len() > 0 {
        let less = files.drop_last();
        let list = with_fate(less, me, want);
        law_the_positions_of_a_fate(less, me, want);
        let n = (files.len() - 1) as usize;
        assert forall|a: int| 0 <= a < list.len() implies #[trigger] list[a] < n by {
            assert(list.contains(list[a]));
            assert(fate(less[list[a] as int], me) == want);
        }
        assert forall|i: usize|
            all.contains(i) <==> i < files.len() && #[trigger] fate(files[i as int], me) == want by {
            if i < n {
                assert(less[i as int] == files[i as int]);
            }
            assert(list.contains(i) <==> i < less.len() && fate(less[i as int], me) == want);
            if list.contains(i) {
                let a = list.index_of(i);
                assert(all[a] == i);
            }
            if i == n && fate(files.last(), me) == want {
                assert(all.last() == i);
            }
            if all.contains(i) {
                let a = all.index_of(i);
                if a < list.len() {
                    assert(list[a] == i);
                    assert(list.contains(i));
                }
            }
        }
    }
}

/// The directory of a user and the file of a coordinator are found again by
/// their names, and no other name of a directory gives the user.
pub proof fn law_the_names_are_read_as_they_are_written(uid: u32, middle: Seq<char>)
    ensures
        user_of("u"@ + text::digits(uid as nat)) == Some(uid as nat),
        record_name("peer-"@ + middle + ".json"@),
{
    reveal_strlit("u");
    reveal_strlit("peer-");
    reveal_strlit(".json");
    text::law_a_number_is_read_as_it_is_written(uid as nat, u32::MAX as nat);
    let name = "u"@ + text::digits(uid as nat);
    assert(name[0] == 'u');
    assert(name.skip(1) == text::digits(uid as nat));
    let file = "peer-"@ + middle + ".json"@;
    assert(file.take(5) == "peer-"@);
    assert(file.skip(file.len() - 5) == ".json"@);
    assert(text::stands_at(file, "peer-"@, 0));
}

/// The name of a directory with a user begins with `u`, and only decimal digits
/// follow it, with a `+` before them or not.
pub proof fn law_no_other_directory_has_a_user(name: Seq<char>, k: int)
    requires
        name.len() == 0 || name[0] != 'u' || name.len() == 1 || (1 <= k < name.len() && !('0'
            <= name[k] <= '9') && (name[k] != '+' || k > 1)),
    ensures
        user_of(name) is None,
{
    if name.len() > 1 && name[0] == 'u' {
        let rest = name.skip(1);
        assert(rest[k - 1] == name[k]);
        text::law_only_digits_make_a_number(rest, u32::MAX as nat, k - 1);
    }
}

/// The shared directory is safe where it has the sticky bit, and every user can
/// write it or the root user or the current one owns it; nothing else is.
pub proof fn law_which_directory_is_safe(meta: Meta, uid: u32)
    ensures
        !meta.is_dir || meta.mode & 0o1000 == 0 ==> !safe_dir(meta, uid),
        meta.mode & 0o002 == 0 && meta.owner != 0 && meta.owner != uid ==> !safe_dir(meta, uid),
        meta.is_dir && meta.mode & 0o1000 != 0 && meta.mode & 0o002 != 0 ==> safe_dir(meta, uid),
        meta.is_dir && meta.mode & 0o1000 != 0 && (meta.owner == 0 || meta.owner == uid)
            ==> safe_dir(meta, uid),
{
}

/// Two calls on a list of files and on the same list with one more file: the
/// totals differ by exactly what the new file claims where it counts, and by
/// nothing where it does not.
pub proof fn law_one_more_claim(
    files: &Vec<PeerFile>,
    more: &Vec<PeerFile>,
    file: PeerFile,
    me: &Reader,
    a: (Claims, Vec<usize>),
    b: (Claims, Vec<usize>),
    fate_of_file: PeerFate,
)
    requires
        more@ == files@.push(file),
        call_ensures(claims, (files, me), a),
        call_ensures(claims, (more, me), b),
        call_ensures(read_peer, (&file, me), fate_of_file),
    ensures
        fate_of_file is Count ==> file.peer is Some && b.0.cpu == a.0.cpu + file.peer->0.cpu
            && b.0.mem == a.0.mem + file.peer->0.mem && b.0.count == a.0.count + 1,
        fate_of_file !is Count ==> b.0 == a.0,
        b.1@ == if fate_of_file is Delete {
            a.1@.push(files@.len() as usize)
        } else {
            a.1@
        },
{
    law_a_record_adds_its_own_claim(files@, file, *me);
    assert(more@.drop_last() == files@);
}

/// The record of a file counts exactly as the rule of the records says, and a
/// file without a record never does.
pub proof fn law_what_a_reader_does(file: &PeerFile, me: &Reader, r: PeerFate)
    requires
        call_ensures(read_peer, (file, me), r),
    ensures
        r is Count ==> file.peer is Some && file.alive && file.owner == file.peer->0.uid
            && file.peer->0.boot_id@ == me.boot_id@ && me.now <= file.peer->0.updated_at + me.stale,
        r is Delete ==> file.peer is Some && (!file.alive || file.peer->0.boot_id@ != me.boot_id@
            || me.now > file.peer->0.updated_at + me.stale) && file.owner == file.peer->0.uid,
        file.peer is None ==> r is Skip,
        file.peer is Some && file.peer->0.uid == me.uid && file.peer->0.pid == me.pid ==> r is Skip,
{
}

/// qex uses a safe directory, makes a missing one, and refuses every other one.
pub proof fn law_what_happens_to_the_directory(found: Option<Meta>, uid: u32, r: PeerDir)
    requires
        call_ensures(peer_dir, (found, uid), r),
    ensures
        r is Make <==> found is None,
        r is Use <==> found is Some && found->0.is_dir && found->0.mode & 0o1000 != 0 && (
        found->0.mode & 0o002 != 0 || found->0.owner == 0 || found->0.owner == uid),
{
}

/// The directory of a user is read as that user, and the file of a coordinator as
/// a record.
pub proof fn law_the_names_go_round(
    uid: u32,
    dir: String,
    pid: i32,
    file: String,
    dir_again: &str,
    file_again: &str,
    user: Option<u32>,
    record: bool,
)
    requires
        call_ensures(user_dir_name, (uid,), dir),
        call_ensures(peer_file_name, (pid,), file),
        dir_again@ == dir@,
        file_again@ == file@,
        call_ensures(user_of_dir, (dir_again,), user),
        call_ensures(is_record_name, (file_again,), record),
    ensures
        user == Some(uid),
        record,
{
    law_the_names_are_read_as_they_are_written(uid, text::signed(pid as int));
}

/// The words about the shared accounting say that it is on exactly where it is
/// enabled and its directory can be used, and they give the totals then.
pub proof fn law_the_words_about_the_accounting(
    enabled: bool,
    dir: &str,
    usable: bool,
    c: &Claims,
    r: String,
)
    requires
        call_ensures(describe, (enabled, dir, usable, c), r),
    ensures
        text::begins(r@, "on, in "@) <==> enabled && usable,
        !enabled ==> text::begins(r@, "off; "@),
        enabled && !usable ==> text::begins(r@, "NOT ACTIVE; "@),
{
    reveal_strlit("on, in ");
    reveal_strlit("off; ");
    reveal_strlit("NOT ACTIVE; ");
    reveal_strlit("off; the config file sets [peers] enabled = false");
    reveal_strlit("NOT ACTIVE; qex cannot use the directory ");
    let t = r@;
    if !enabled {
        assert(t.subrange(0, 5) == "off; "@);
        if text::begins(t, "on, in "@) {
            assert(t.subrange(0, 7)[1] == t[1]);
        }
    } else if usable {
        assert(t.subrange(0, 7) == "on, in "@);
    } else {
        assert(t.subrange(0, 12) == "NOT ACTIVE; "@);
        if text::begins(t, "on, in "@) {
            assert(t.subrange(0, 7)[0] == t[0]);
        }
    }
}

} // verus!
