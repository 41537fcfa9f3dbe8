//! The index-to-worktree checkout engine. The engine walks index entries in
//! order, materializes files, executable files and symlinks, classifies
//! already-occupied paths as collisions rather than failures, and refreshes
//! each written entry's stat. It runs against an explicit filesystem model —
//! a table of paths to nodes with a clock and a case-sensitivity switch — so
//! that every decision, including the case-insensitive collision handling, is
//! verified; a host driver replays the same steps against a real directory.

use vstd::prelude::*;

use crate::IoErrorKind;

verus! {

/// The byte that separates path components.
pub const SLASH: u8 = 47;

/// Whether the bytes are well-formed UTF-8: the host decides, as a function
/// of the bytes alone.
pub uninterp spec fn is_utf8(s: Seq<u8>) -> bool;

/// Relies on core::str::from_utf8: it accepts exactly the well-formed UTF-8
/// byte sequences, depending on the bytes alone.
#[verifier::external_body]
fn utf8_check(b: &Vec<u8>) -> (r: bool)
    ensures
        r == is_utf8(b@),
{
    core::str::from_utf8(b.as_slice()).is_ok()
}

/// What the filesystem under the checkout can do.
#[derive(Clone, Copy, Debug, PartialEq, Eq, Structural)]
pub struct Capabilities {
    /// Whether symbolic links can be created.
    pub symlink: bool,
    /// Whether the executable bit is honored.
    pub executable_bit: bool,
    /// Whether two paths differing only in ASCII case name the same file.
    pub ignore_case: bool,
}

impl Default for Capabilities {
    /// The capabilities of a typical POSIX filesystem.
    fn default() -> (r: Self)
        ensures
            r.symlink && r.executable_bit && !r.ignore_case,
    {
        Capabilities { symlink: true, executable_bit: true, ignore_case: false }
    }
}

/// How a checkout is to behave.
#[derive(Clone, Copy, Debug, PartialEq, Eq, Structural)]
pub struct Options {
    /// Capabilities of the file system.
    pub fs: Capabilities,
    /// When true, no file is assumed to exist in the target directory, so
    /// files are created exclusively and an occupied path is a collision.
    pub destination_is_initially_empty: bool,
    /// When true, non-collision errors are recorded in the outcome and the
    /// walk continues instead of aborting.
    pub keep_going: bool,
    /// Whether downstream freshness checks may trust creation time.
    pub trust_ctime: bool,
    /// Whether downstream freshness checks use all stat fields.
    pub check_stat: bool,
}

impl Default for Options {
    /// Conservative defaults: nothing assumed empty, abort on first error,
    /// trust the full stat.
    fn default() -> (r: Self)
        ensures
            r.fs == (Capabilities { symlink: true, executable_bit: true, ignore_case: false }),
            !r.destination_is_initially_empty,
            !r.keep_going,
            r.trust_ctime,
            r.check_stat,
    {
        Options {
            fs: Capabilities::default(),
            destination_is_initially_empty: false,
            keep_going: false,
            trust_ctime: true,
            check_stat: true,
        }
    }
}

/// The kind of an index entry.
#[derive(Clone, Copy, Debug, PartialEq, Eq, Structural)]
pub enum Mode {
    /// A regular file.
    File,
    /// A regular file carrying the executable bit.
    FileExecutable,
    /// A symbolic link whose blob holds the target path.
    Symlink,
    /// A tree; checking one out is not implemented here.
    Dir,
    /// A gitlink; checking one out is not implemented here.
    Commit,
}

/// One second-and-nanosecond timestamp of an entry's stat block.
#[derive(Clone, Copy, Debug, Default, PartialEq, Eq, Structural)]
pub struct EntryTime {
    pub secs: u32,
    pub nsecs: u32,
}

/// The cached stat fields of an index entry.
#[derive(Clone, Copy, Debug, Default, PartialEq, Eq, Structural)]
pub struct Stat {
    pub ctime: EntryTime,
    pub mtime: EntryTime,
}

/// An index entry as the engine consumes it.
pub struct Entry {
    /// The object id of the blob to materialize.
    pub id: Vec<u8>,
    pub mode: Mode,
    /// The path below the checkout root, as bytes.
    pub path: Vec<u8>,
    /// When set, the entry is left untouched on disk and in the index.
    pub skip_worktree: bool,
    pub stat: Stat,
}

/// The index: entries in their natural order.
pub struct State {
    pub entries: Vec<Entry>,
}

/// A path that could not be written because something already occupies it.
pub struct Collision {
    /// The path that collided with something already present on disk.
    pub path: Vec<u8>,
    /// The I/O error kind met when checking out `path`.
    pub error_kind: IoErrorKind,
}

/// The failure of a single entry, recorded when the walk keeps going.
pub struct RecordedError {
    pub path: Vec<u8>,
    pub error: Error,
}

/// What a finished checkout reports.
pub struct Outcome {
    pub collisions: Vec<Collision>,
    /// Non-collision failures, recorded instead of aborting when the
    /// checkout keeps going.
    pub errors: Vec<RecordedError>,
}

/// Why a checkout failed.
#[derive(Debug)]
pub enum Error {
    /// The entry's path (or a link target) is not UTF-8.
    IllformedUtf8 { path: Vec<u8> },
    /// The clock reported a time before the Unix epoch.
    Time,
    /// An underlying filesystem error, with the raw OS code where one exists.
    Io { kind: IoErrorKind, raw_os: Option<i32> },
    /// The blob to materialize is not in the object database.
    ObjectNotFound { oid: Vec<u8>, path: Vec<u8> },
    /// A tree or gitlink entry, whose checkout is not implemented.
    Unsupported { mode: Mode },
}

/// An ASCII byte folded to lower case.
pub open spec fn fold_byte(b: u8) -> u8 {
    if 65 <= b <= 90 {
        (b + 32) as u8
    } else {
        b
    }
}

/// A path folded for lookup: lower-cased when the filesystem ignores case.
pub open spec fn fold_seq(s: Seq<u8>, ignore_case: bool) -> Seq<u8> {
    if ignore_case {
        s.map_values(|b: u8| fold_byte(b))
    } else {
        s
    }
}

/// Folds a path the way the disk keys its table.
fn fold_key(path: &Vec<u8>, ignore_case: bool) -> (r: Vec<u8>)
    ensures
        r@ == fold_seq(path@, ignore_case),
{
    let mut r: Vec<u8> = Vec::new();
    let mut i: usize = 0;
    while i < path.len()
        invariant
            0 <= i <= path@.len(),
            r@.len() == i,
            forall|j: int|
                0 <= j < i ==> r@[j] == (if ignore_case {
                    fold_byte(path@[j])
                } else {
                    path@[j]
                }),
        decreases path.len() - i,
    {
        let b = path[i];
        if ignore_case && 65 <= b && b <= 90 {
            r.push(b + 32);
        } else {
            r.push(b);
        }
        i = i + 1;
    }
    proof {
        if ignore_case {
            assert(r@ =~= path@.map_values(|b: u8| fold_byte(b)));
        } else {
            assert(r@ =~= path@);
        }
    }
    r
}

/// Copies a byte vector.
fn copy_bytes(src: &Vec<u8>) -> (r: Vec<u8>)
    ensures
        r@ == src@,
{
    let mut r: Vec<u8> = Vec::new();
    let mut i: usize = 0;
    while i < src.len()
        invariant
            0 <= i <= src@.len(),
            r@ == src@.take(i as int),
        decreases src.len() - i,
    {
        r.push(src[i]);
        i = i + 1;
    }
    proof {
        assert(src@.take(src@.len() as int) =~= src@);
    }
    r
}

/// Whether two byte vectors hold the same bytes.
fn bytes_eq(a: &Vec<u8>, b: &Vec<u8>) -> (r: bool)
    ensures
        r == (a@ == b@),
{
    if a.len() != b.len() {
        return false;
    }
    let mut i: usize = 0;
    while i < a.len()
        invariant
            0 <= i <= a@.len(),
            a@.len() == b@.len(),
            forall|j: int| 0 <= j < i ==> a@[j] == b@[j],
        decreases a.len() - i,
    {
        if a[i] != b[i] {
            return false;
        }
        i = i + 1;
    }
    proof {
        assert(a@ =~= b@);
    }
    true
}

/// The first value bound to `key` in an association list.
#[verifier::opaque]
pub open spec fn find_in<T>(t: Seq<(Vec<u8>, T)>, key: Seq<u8>) -> Option<T>
    decreases t.len(),
{
    if t.len() == 0 {
        None
    } else if t[0].0@ == key {
        Some(t[0].1)
    } else {
        find_in(t.skip(1), key)
    }
}

proof fn lemma_find_in_from<T>(t: Seq<(Vec<u8>, T)>, i: int, key: Seq<u8>)
    requires
        0 <= i <= t.len(),
        forall|j: int| 0 <= j < i ==> t[j].0@ != key,
    ensures
        find_in(t, key) == find_in(t.skip(i), key),
    decreases i,
{
    reveal(find_in);
    if i > 0 {
        assert(t[0].0@ != key);
        assert(forall|j: int| 0 <= j < i - 1 ==> t.skip(1)[j] == t[j + 1]);
        lemma_find_in_from(t.skip(1), i - 1, key);
        assert(t.skip(1).skip(i - 1) =~= t.skip(i));
    } else {
        assert(t.skip(0) =~= t);
    }
}

proof fn lemma_find_in_none<T>(t: Seq<(Vec<u8>, T)>, key: Seq<u8>)
    requires
        find_in(t, key) is None,
    ensures
        forall|j: int| 0 <= j < t.len() ==> (#[trigger] t[j]).0@ != key,
    decreases t.len(),
{
    reveal(find_in);
    if t.len() > 0 {
        lemma_find_in_none(t.skip(1), key);
        assert forall|j: int| 0 <= j < t.len() implies (#[trigger] t[j]).0@ != key by {
            if j > 0 {
                assert(t.skip(1)[j - 1] == t[j]);
            }
        }
    }
}

proof fn lemma_find_in_push<T>(t: Seq<(Vec<u8>, T)>, kv: (Vec<u8>, T))
    requires
        find_in(t, kv.0@) is None,
    ensures
        forall|k: Seq<u8>| #[trigger]
            find_in(t.push(kv), k) == (if k == kv.0@ {
                Some(kv.1)
            } else {
                find_in(t, k)
            }),
    decreases t.len(),
{
    reveal(find_in);
    if t.len() == 0 {
        assert forall|k: Seq<u8>| #[trigger]
            find_in(t.push(kv), k) == (if k == kv.0@ {
                Some(kv.1)
            } else {
                find_in(t, k)
            }) by {
            assert(t.push(kv)[0] == kv);
            assert(t.push(kv).skip(1) =~= Seq::<(Vec<u8>, T)>::empty());
            assert(find_in(t.push(kv).skip(1), k) is None);
            if k == kv.0@ {
                assert(find_in(t.push(kv), k) == Some(kv.1));
            } else {
                assert(find_in(t.push(kv), k) is None);
                assert(find_in(t, k) is None);
            }
        }
    } else {
        assert(t[0].0@ != kv.0@);
        lemma_find_in_push(t.skip(1), kv);
        assert forall|k: Seq<u8>| #[trigger]
            find_in(t.push(kv), k) == (if k == kv.0@ {
                Some(kv.1)
            } else {
                find_in(t, k)
            }) by {
            assert(t.push(kv)[0] == t[0]);
            assert(t.push(kv).skip(1) =~= t.skip(1).push(kv));
            assert(find_in(t.skip(1).push(kv), k) == (if k == kv.0@ {
                Some(kv.1)
            } else {
                find_in(t.skip(1), k)
            }));
        }
    }
}

proof fn lemma_find_in_update<T>(t: Seq<(Vec<u8>, T)>, i: int, kv: (Vec<u8>, T))
    requires
        0 <= i < t.len(),
        kv.0@ == t[i].0@,
        forall|a: int, b: int| 0 <= a < b < t.len() ==> (#[trigger] t[a]).0@ != (#[trigger] t[b]).0@,
    ensures
        forall|k: Seq<u8>| #[trigger]
            find_in(t.update(i, kv), k) == (if k == kv.0@ {
                Some(kv.1)
            } else {
                find_in(t, k)
            }),
    decreases t.len(),
{
    reveal(find_in);
    if i == 0 {
        assert forall|k: Seq<u8>| #[trigger]
            find_in(t.update(0, kv), k) == (if k == kv.0@ {
                Some(kv.1)
            } else {
                find_in(t, k)
            }) by {
            assert(t.update(0, kv)[0] == kv);
            assert(t.update(0, kv).skip(1) =~= t.skip(1));
        }
    } else {
        assert(forall|a: int, b: int|
            0 <= a < b < t.skip(1).len() ==> (#[trigger] t.skip(1)[a]).0@ != (#[trigger] t.skip(
                1,
            )[b]).0@);
        assert(t.skip(1)[i - 1] == t[i]);
        lemma_find_in_update(t.skip(1), i - 1, kv);
        assert forall|k: Seq<u8>| #[trigger]
            find_in(t.update(i, kv), k) == (if k == kv.0@ {
                Some(kv.1)
            } else {
                find_in(t, k)
            }) by {
            assert(t.update(i, kv)[0] == t[0]);
            assert(t.update(i, kv).skip(1) =~= t.skip(1).update(i - 1, kv));
            assert(find_in(t.skip(1).update(i - 1, kv), k) == (if k == kv.0@ {
                Some(kv.1)
            } else {
                find_in(t.skip(1), k)
            }));
            if k == t[0].0@ {
                assert(t[0].0@ != t[i].0@);
            }
        }
    }
}

/// What occupies a path of the filesystem model.
pub enum Node {
    /// A regular file: its content, whether it is executable, and the
    /// creation-and-modification timestamp the write stamped it with.
    File { data: Vec<u8>, is_exec: bool, secs: i64, nsecs: u32 },
    /// A symbolic link to `target`.
    Symlink { target: Vec<u8>, secs: i64, nsecs: u32 },
    /// A directory.
    Dir,
}

/// The filesystem model a checkout runs against: a table from folded paths
/// to nodes, a clock that stamps writes, and the platform switches the
/// engine's classifications depend on.
pub struct Disk {
    /// The table of the model: folded paths bound to nodes. Callers go
    /// through `lookup` and `put`, which keep the keys unique and folded.
    pub nodes: Vec<(Vec<u8>, Node)>,
    /// Whether lookups fold ASCII case, as on a case-insensitive filesystem.
    pub ignore_case: bool,
    /// Whether the host classifies collisions the way Windows does.
    pub windows: bool,
    /// Whether the platform reports a file's creation time; where it does
    /// not, a refreshed stat carries a zero ctime.
    pub has_ctime: bool,
    /// The clock: seconds since the Unix epoch of every write from now on.
    pub now_secs: i64,
    /// The clock's nanosecond part.
    pub now_nsecs: u32,
}

impl Disk {
    /// The table of the model, keyed by folded path.
    pub closed spec fn table(self) -> Seq<(Vec<u8>, Node)> {
        self.nodes@
    }

    /// Keys are unique, so a lookup has one answer.
    pub closed spec fn wf(self) -> bool {
        forall|a: int, b: int|
            0 <= a < b < self.nodes@.len() ==> (#[trigger] self.nodes@[a]).0@ != (
            #[trigger] self.nodes@[b]).0@
    }

    /// The key a path is looked up under.
    pub closed spec fn key_of(self, path: Seq<u8>) -> Seq<u8> {
        fold_seq(path, self.ignore_case)
    }

    /// The node at a folded key.
    pub closed spec fn at_key(self, key: Seq<u8>) -> Option<Node> {
        find_in(self.table(), key)
    }

    /// The node a path names, after case folding.
    pub closed spec fn at(self, path: Seq<u8>) -> Option<Node> {
        self.at_key(self.key_of(path))
    }

    /// An empty filesystem with the given switches and clock.
    pub fn new(
        ignore_case: bool,
        windows: bool,
        now_secs: i64,
        now_nsecs: u32,
        has_ctime: bool,
    ) -> (r: Disk)
        ensures
            r.wf(),
            r.ignore_case == ignore_case,
            r.windows == windows,
            r.has_ctime == has_ctime,
            r.now_secs == now_secs,
            r.now_nsecs == now_nsecs,
            forall|k: Seq<u8>| #[trigger] r.at_key(k) is None,
    {
        let d = Disk { nodes: Vec::new(), ignore_case, windows, has_ctime, now_secs, now_nsecs };
        proof {
            assert forall|k: Seq<u8>| #[trigger] d.at_key(k) is None by {
                reveal(find_in);
                assert(d.table().len() == 0);
            }
        }
        d
    }

    /// The index of the key in the table, if present.
    fn find_idx(&self, key: &Vec<u8>) -> (r: Option<usize>)
        ensures
            match r {
                Some(i) => i < self.table().len() && self.table()[i as int].0@ == key@
                    && self.at_key(key@) == Some(self.table()[i as int].1),
                None => self.at_key(key@) is None,
            },
    {
        let ghost t = self.nodes@;
        let mut i: usize = 0;
        while i < self.nodes.len()
            invariant
                0 <= i <= t.len(),
                t == self.nodes@,
                forall|j: int| 0 <= j < i ==> (#[trigger] t[j]).0@ != key@,
            decreases self.nodes.len() - i,
        {
            if bytes_eq(&self.nodes[i].0, key) {
                proof {
                    reveal(find_in);
                    lemma_find_in_from(t, i as int, key@);
                    assert(t.skip(i as int)[0] == t[i as int]);
                }
                return Some(i);
            }
            i = i + 1;
        }
        proof {
            reveal(find_in);
            lemma_find_in_from(t, t.len() as int, key@);
            assert(t.skip(t.len() as int) =~= Seq::<(Vec<u8>, Node)>::empty());
        }
        None
    }

    /// Looks a path up, folding case the way the filesystem does.
    pub fn lookup(&self, path: &Vec<u8>) -> (r: Option<&Node>)
        ensures
            match r {
                Some(n) => self.at(path@) == Some(*n),
                None => self.at(path@) is None,
            },
    {
        let key = fold_key(path, self.ignore_case);
        match self.find_idx(&key) {
            Some(i) => Some(&self.nodes[i].1),
            None => None,
        }
    }

    /// Binds a path to a node, replacing what the folded key named before.
    pub fn put(&mut self, path: &Vec<u8>, node: Node)
        requires
            old(self).wf(),
        ensures
            final(self).wf(),
            final(self).ignore_case == old(self).ignore_case,
            final(self).windows == old(self).windows,
            final(self).has_ctime == old(self).has_ctime,
            final(self).now_secs == old(self).now_secs,
            final(self).now_nsecs == old(self).now_nsecs,
            final(self).at_key(old(self).key_of(path@)) == Some(node),
            forall|k: Seq<u8>|
                k != old(self).key_of(path@) ==> #[trigger] final(self).at_key(k) == old(
                    self,
                ).at_key(k),
    {
        let key = fold_key(path, self.ignore_case);
        let ghost t = self.nodes@;
        match self.find_idx(&key) {
            Some(i) => {
                let (k, _) = self.nodes.remove(i);
                self.nodes.insert(i, (k, node));
                proof {
                    assert(self.nodes@ =~= t.update(i as int, (t[i as int].0, node)));
                    lemma_find_in_update(t, i as int, (t[i as int].0, node));
                    assert(forall|a: int, b: int|
                        0 <= a < b < self.nodes@.len() ==> (#[trigger] self.nodes@[a]).0@ != (
                        #[trigger] self.nodes@[b]).0@);
                }
            },
            None => {
                self.nodes.push((key, node));
                proof {
                    let kv = self.nodes@[t.len() as int];
                    assert(self.nodes@ =~= t.push(kv));
                    lemma_find_in_push(t, kv);
                    lemma_find_in_none(t, kv.0@);
                    assert forall|a: int, b: int|
                        0 <= a < b < self.nodes@.len() implies (#[trigger] self.nodes@[a]).0@ != (
                    #[trigger] self.nodes@[b]).0@ by {
                        if b == t.len() as int {
                            assert(self.nodes@[a] == t[a]);
                        }
                    }
                }
            },
        }
    }
}

/// The object database the engine draws blobs from: object ids bound to
/// blob bytes.
pub struct Blobs {
    pub pairs: Vec<(Vec<u8>, Vec<u8>)>,
}

/// The blob bound to `id`, if any.
pub open spec fn blob_at(t: Seq<(Vec<u8>, Vec<u8>)>, id: Seq<u8>) -> Option<Vec<u8>> {
    find_in(t, id)
}

impl Blobs {
    /// An empty object database.
    pub fn new() -> (r: Blobs)
        ensures
            r.pairs@.len() == 0,
    {
        Blobs { pairs: Vec::new() }
    }

    /// Adds a blob under its id.
    pub fn insert(&mut self, id: Vec<u8>, data: Vec<u8>)
        ensures
            final(self).pairs@ == old(self).pairs@.push((id, data)),
    {
        self.pairs.push((id, data));
    }

    /// Looks a blob up by id.
    pub fn find(&self, id: &Vec<u8>) -> (r: Option<&Vec<u8>>)
        ensures
            match r {
                Some(d) => blob_at(self.pairs@, id@) matches Some(v) && v@ == d@,
                None => blob_at(self.pairs@, id@) is None,
            },
    {
        let ghost t = self.pairs@;
        let mut i: usize = 0;
        while i < self.pairs.len()
            invariant
                0 <= i <= t.len(),
                t == self.pairs@,
                forall|j: int| 0 <= j < i ==> (#[trigger] t[j]).0@ != id@,
            decreases self.pairs.len() - i,
        {
            if bytes_eq(&self.pairs[i].0, id) {
                proof {
                    reveal(find_in);
                    lemma_find_in_from(t, i as int, id@);
                    assert(t.skip(i as int)[0] == t[i as int]);
                }
                return Some(&self.pairs[i].1);
            }
            i = i + 1;
        }
        proof {
            reveal(find_in);
            lemma_find_in_from(t, t.len() as int, id@);
            assert(t.skip(t.len() as int) =~= Seq::<(Vec<u8>, Vec<u8>)>::empty());
        }
        None
    }
}

/// The absolute destination of an entry: the checkout root, a separator, and
/// the entry's path.
pub open spec fn dest_of(root: Seq<u8>, path: Seq<u8>) -> Seq<u8> {
    root + seq![SLASH] + path
}

/// Whether materializing an entry creates its destination exclusively, so
/// that an occupied path surfaces as a collision instead of being
/// overwritten: every write does when the destination is assumed initially
/// empty, and making a symlink always does.
pub open spec fn wants_exclusive(mode: Mode, opts: Options) -> bool {
    match mode {
        Mode::File | Mode::FileExecutable => opts.destination_is_initially_empty,
        Mode::Symlink => opts.fs.symlink || opts.destination_is_initially_empty,
        _ => false,
    }
}

/// `k` is the folded key of some proper prefix of `dest` that ends before a
/// separator: one of the directories on the way to `dest`.
pub open spec fn key_blocks(k: Seq<u8>, dest: Seq<u8>, ic: bool) -> bool {
    exists|m: int|
        0 <= m < dest.len() && dest[m] == SLASH && k == fold_seq(#[trigger] dest.take(m), ic)
}

/// Whether some directory on the way to `dest` is occupied by a non-directory.
pub open spec fn blocked_prefix(d: Disk, dest: Seq<u8>) -> bool {
    exists|m: int|
        0 <= m < dest.len() && dest[m] == SLASH && ((#[trigger] d.at(dest.take(m))) matches Some(n)
            && !(n is Dir))
}

/// The node an entry of the given mode must leave at its destination, written
/// at clock time (`secs`, `nsecs`): files carry the blob and the executable
/// bit where honored; symlinks point at the blob's bytes, or fall back to a
/// plain file holding them where links cannot be made.
pub open spec fn expected_node(
    n: Node,
    mode: Mode,
    blob: Seq<u8>,
    opts: Options,
    secs: i64,
    nsecs: u32,
) -> bool {
    match mode {
        Mode::File | Mode::FileExecutable => n matches Node::File {
            data,
            is_exec,
            secs: s,
            nsecs: ns,
        } && data@ == blob && is_exec == (mode is FileExecutable && opts.fs.executable_bit) && s
            == secs && ns == nsecs,
        Mode::Symlink => if opts.fs.symlink {
            n matches Node::Symlink { target, secs: s, nsecs: ns } && target@ == blob && s == secs
                && ns == nsecs
        } else {
            n matches Node::File { data, is_exec, secs: s, nsecs: ns } && data@ == blob && !is_exec
                && s == secs && ns == nsecs
        },
        _ => false,
    }
}

/// The stat block of an entry whose write was just re-inspected: modification
/// time at the clock, seconds truncated to the 32 bits the index stores;
/// creation time likewise, or zero where the platform reports none.
pub open spec fn refreshed_stat(secs: i64, nsecs: u32, has_ctime: bool) -> Stat {
    Stat {
        ctime: if has_ctime {
            EntryTime { secs: secs as u32, nsecs }
        } else {
            EntryTime { secs: 0, nsecs: 0 }
        },
        mtime: EntryTime { secs: secs as u32, nsecs },
    }
}

/// The platform switches and the clock of the disk are never touched by a
/// checkout.
pub open spec fn same_disk_config(d0: Disk, d1: Disk) -> bool {
    d1.ignore_case == d0.ignore_case && d1.windows == d0.windows && d1.has_ctime == d0.has_ctime
        && d1.now_secs == d0.now_secs && d1.now_nsecs == d0.now_nsecs
}

/// Between `d0` and `d1` only directories appeared, and only on paths that
/// were empty.
pub open spec fn dirs_only_frame(d0: Disk, d1: Disk) -> bool {
    forall|k: Seq<u8>|
        (#[trigger] d1.at_key(k)) == d0.at_key(k) || (d0.at_key(k) is None && (d1.at_key(
            k,
        ) matches Some(n) && n is Dir))
}

/// Between `d0` and `d1` only the folded key `key` and freshly created
/// directories changed.
pub open spec fn entry_frame(d0: Disk, d1: Disk, key: Seq<u8>) -> bool {
    forall|k: Seq<u8>|
        k == key || (#[trigger] d1.at_key(k)) == d0.at_key(k) || (d0.at_key(k) is None
            && (d1.at_key(k) matches Some(n) && n is Dir))
}

/// How opening a file for writing at an occupied path fails: exclusive
/// creation refuses any prior node; otherwise only a directory refuses the
/// write, with the raw code 21.
pub open spec fn file_open_error(prior: Option<Node>, exclusive: bool) -> Option<(
    IoErrorKind,
    i32,
)> {
    match prior {
        Some(n) => if exclusive {
            Some((IoErrorKind::AlreadyExists, 17))
        } else if n is Dir {
            Some((IoErrorKind::Other, 21))
        } else {
            None
        },
        None => None,
    }
}

/// Creates every directory on the way to `dest`, as a recursive
/// directory-create does: each proper prefix ending before a separator
/// becomes a directory, and one occupied by anything else fails the walk
/// with the raw code 17, the way creating a directory over a file does.
#[verifier::loop_isolation(false)]
fn create_dir_all(disk: &mut Disk, dest: &Vec<u8>) -> (r: Result<(), Error>)
    requires
        old(disk).wf(),
    ensures
        final(disk).wf(),
        same_disk_config(*old(disk), *final(disk)),
        dirs_only_frame(*old(disk), *final(disk)),
        forall|k: Seq<u8>|
            k.len() >= dest@.len() ==> #[trigger] final(disk).at_key(k) == old(disk).at_key(k),
        forall|k: Seq<u8>|
            (#[trigger] final(disk).at_key(k)) == old(disk).at_key(k) || key_blocks(
                k,
                dest@,
                old(disk).ignore_case,
            ),
        match r {
            Ok(()) => !blocked_prefix(*old(disk), dest@),
            Err(e) => blocked_prefix(*old(disk), dest@) && e matches Error::Io {
                kind: IoErrorKind::AlreadyExists,
                raw_os: Some(17i32),
            },
        },
{
    let ghost d0 = *disk;
    let mut prefix: Vec<u8> = Vec::new();
    let mut m: usize = 0;
    while m < dest.len()
        invariant
            0 <= m <= dest@.len(),
            prefix@ == dest@.take(m as int),
            disk.wf(),
            same_disk_config(d0, *disk),
            dirs_only_frame(d0, *disk),
            forall|k: Seq<u8>| k.len() >= dest@.len() ==> #[trigger] disk.at_key(k) == d0.at_key(k),
            forall|k: Seq<u8>|
                (#[trigger] disk.at_key(k)) == d0.at_key(k) || key_blocks(
                    k,
                    dest@,
                    d0.ignore_case,
                ),
            forall|mm: int|
                0 <= mm < m && dest@[mm] == SLASH ==> !((#[trigger] d0.at(
                    dest@.take(mm),
                )) matches Some(n) && !(n is Dir)),
        decreases dest.len() - m,
    {
        let b = dest[m];
        if b == SLASH {
            let ghost dpre = *disk;
            let occupied_by_other = match disk.lookup(&prefix) {
                Some(n) => !matches!(n, Node::Dir),
                None => {
                    disk.put(&prefix, Node::Dir);
                    false
                },
            };
            proof {
                assert(disk.key_of(prefix@) == d0.key_of(prefix@));
                assert(d0.key_of(prefix@).len() == prefix@.len());
                assert(prefix@ == dest@.take(m as int) && dest@[m as int] == SLASH);
                assert(key_blocks(d0.key_of(prefix@), dest@, d0.ignore_case));
                if dpre.at(prefix@) is None {
                    assert forall|k: Seq<u8>|
                        (#[trigger] disk.at_key(k)) == d0.at_key(k) || (d0.at_key(k) is None
                            && (disk.at_key(k) matches Some(n) && n is Dir)) by {
                        if k != dpre.key_of(prefix@) {
                            assert(disk.at_key(k) == dpre.at_key(k));
                        } else {
                            assert(disk.at_key(k) == Some(Node::Dir));
                            assert(dpre.at_key(k) is None);
                        }
                    }
                }
            }
            if occupied_by_other {
                proof {
                    // The current occupant is no fresh directory, so it
                    // already stood in the starting disk.
                    assert(dpre.at(prefix@) == d0.at(prefix@));
                    assert(dest@.take(m as int) == prefix@);
                }
                return Err(Error::Io { kind: IoErrorKind::AlreadyExists, raw_os: Some(17) });
            }
            proof {
                if dpre.at(prefix@) matches Some(n) && !(n is Dir) {
                    assert(false);
                }
                assert(!(d0.at(dest@.take(m as int)) matches Some(n) && !(n is Dir)));
            }
        }
        prefix.push(b);
        m = m + 1;
        proof {
            assert(dest@.take(m - 1 as int).push(dest@[m - 1]) =~= dest@.take(m as int));
        }
    }
    Ok(())
}

/// Opens `dest` for writing and fills it, the way the engine writes a blob:
/// exclusively when the destination is assumed empty, else create-or-replace,
/// stamping the node with the clock.
fn create_file(
    disk: &mut Disk,
    dest: &Vec<u8>,
    data: &Vec<u8>,
    is_exec: bool,
    exclusive: bool,
) -> (r: Result<(), Error>)
    requires
        old(disk).wf(),
    ensures
        final(disk).wf(),
        same_disk_config(*old(disk), *final(disk)),
        match r {
            Ok(()) => file_open_error(old(disk).at(dest@), exclusive) is None && (final(disk).at(
                dest@,
            ) matches Some(n) && n matches Node::File { data: d, is_exec: e, secs, nsecs } && d@
                == data@ && e == is_exec && secs == old(disk).now_secs && nsecs == old(
                disk,
            ).now_nsecs) && entry_frame(*old(disk), *final(disk), old(disk).key_of(dest@)) && (
            forall|k: Seq<u8>|
                k == old(disk).key_of(dest@) || (#[trigger] final(disk).at_key(k)) == old(
                    disk,
                ).at_key(k)),
            Err(e) => (file_open_error(old(disk).at(dest@), exclusive) matches Some(p) && e
                matches Error::Io { kind, raw_os } && kind == p.0 && raw_os == Some(p.1)) && forall|
                k: Seq<u8>,
            | (#[trigger] final(disk).at_key(k)) == old(disk).at_key(k),
        },
{
    let prior_bad: Option<(IoErrorKind, i32)> = match disk.lookup(dest) {
        Some(n) => {
            if exclusive {
                Some((IoErrorKind::AlreadyExists, 17))
            } else if matches!(n, Node::Dir) {
                Some((IoErrorKind::Other, 21))
            } else {
                None
            }
        },
        None => None,
    };
    if let Some((kind, raw)) = prior_bad {
        return Err(Error::Io { kind, raw_os: Some(raw) });
    }
    let node = Node::File {
        data: copy_bytes(data),
        is_exec,
        secs: disk.now_secs,
        nsecs: disk.now_nsecs,
    };
    disk.put(dest, node);
    Ok(())
}

/// Creates a symlink at `dest` pointing at `target`; a link is never made
/// over anything, so any prior occupant fails with the raw code 17.
fn create_symlink(disk: &mut Disk, dest: &Vec<u8>, target: Vec<u8>) -> (r: Result<(), Error>)
    requires
        old(disk).wf(),
    ensures
        final(disk).wf(),
        same_disk_config(*old(disk), *final(disk)),
        match r {
            Ok(()) => old(disk).at(dest@) is None && (final(disk).at(dest@) matches Some(n) && n
                matches Node::Symlink { target: t, secs, nsecs } && t@ == target@ && secs == old(
                disk,
            ).now_secs && nsecs == old(disk).now_nsecs) && entry_frame(
                *old(disk),
                *final(disk),
                old(disk).key_of(dest@),
            ) && (forall|k: Seq<u8>|
                k == old(disk).key_of(dest@) || (#[trigger] final(disk).at_key(k)) == old(
                    disk,
                ).at_key(k)),
            Err(e) => old(disk).at(dest@) is Some && (e matches Error::Io {
                kind: IoErrorKind::AlreadyExists,
                raw_os: Some(17i32),
            }) && forall|k: Seq<u8>| (#[trigger] final(disk).at_key(k)) == old(disk).at_key(k),
        },
{
    if disk.lookup(dest).is_some() {
        return Err(Error::Io { kind: IoErrorKind::AlreadyExists, raw_os: Some(17) });
    }
    let node = Node::Symlink { target, secs: disk.now_secs, nsecs: disk.now_nsecs };
    disk.put(dest, node);
    Ok(())
}

/// Builds the absolute destination of an entry.
fn build_dest(root: &Vec<u8>, path: &Vec<u8>) -> (r: Vec<u8>)
    ensures
        r@ == dest_of(root@, path@),
{
    let mut r = copy_bytes(root);
    r.push(SLASH);
    let ghost mid = r@;
    let mut i: usize = 0;
    while i < path.len()
        invariant
            0 <= i <= path@.len(),
            r@ == mid + path@.take(i as int),
        decreases path.len() - i,
    {
        r.push(path[i]);
        i = i + 1;
        proof {
            assert(mid + path@.take(i - 1 as int) + seq![path@[i - 1]] =~= mid + path@.take(
                i as int,
            ));
        }
    }
    proof {
        assert(mid + path@.take(path@.len() as int) =~= root@ + seq![SLASH] + path@);
    }
    r
}

/// Materializes one entry: converts its path, creates the directories on the
/// way, writes the blob as a file or symlink, and reads the write's
/// timestamps back as the entry's refreshed stat. `Err` carries exactly the
/// failure the walk classifies.
fn checkout_entry(
    entry: &Entry,
    root: &Vec<u8>,
    blobs: &Blobs,
    opts: Options,
    disk: &mut Disk,
) -> (r: Result<Stat, Error>)
    requires
        old(disk).wf(),
        old(disk).now_secs <= u32::MAX as i64,
    ensures
        final(disk).wf(),
        same_disk_config(*old(disk), *final(disk)),
        entry_frame(*old(disk), *final(disk), old(disk).key_of(dest_of(root@, entry.path@))),
        forall|k: Seq<u8>|
            old(disk).at_key(k) is Some ==> #[trigger] final(disk).at_key(k) is Some,
        // Fresh directories appear only on the way to this entry's own
        // destination; everything else is this entry's key or untouched.
        forall|k: Seq<u8>|
            (#[trigger] final(disk).at_key(k)) == old(disk).at_key(k) || k == old(disk).key_of(
                dest_of(root@, entry.path@),
            ) || key_blocks(k, dest_of(root@, entry.path@), old(disk).ignore_case),
        // A path once holding a file or link never turns into a directory.
        forall|k: Seq<u8>|
            (old(disk).at_key(k) matches Some(n) && !(n is Dir))
                ==> ((#[trigger] final(disk).at_key(k)) matches Some(n2) && !(n2 is Dir)),
        match r {
            Ok(st) => {
                let dest = dest_of(root@, entry.path@);
                &&& entry.mode is File || entry.mode is FileExecutable || entry.mode is Symlink
                &&& is_utf8(entry.path@)
                &&& old(disk).now_secs >= 0
                &&& st == refreshed_stat(
                    old(disk).now_secs,
                    old(disk).now_nsecs,
                    old(disk).has_ctime,
                )
                &&& !blocked_prefix(*old(disk), dest)
                &&& (wants_exclusive(entry.mode, opts) ==> old(disk).at(dest) is None)
                &&& (blob_at(blobs.pairs@, entry.id@) matches Some(b) && (final(disk).at(
                    dest,
                ) matches Some(n) && expected_node(
                    n,
                    entry.mode,
                    b@,
                    opts,
                    old(disk).now_secs,
                    old(disk).now_nsecs,
                )) && (entry.mode is Symlink ==> is_utf8(b@)))
            },
            Err(e) => match e {
                Error::IllformedUtf8 { path } => !is_utf8(path@) && (path@ == entry.path@ || (
                entry.mode is Symlink && (blob_at(blobs.pairs@, entry.id@) matches Some(b) && path@
                    == b@))),
                Error::Unsupported { mode } => mode == entry.mode && (mode is Dir
                    || mode is Commit) && is_utf8(entry.path@),
                Error::ObjectNotFound { oid, path } => oid@ == entry.id@ && path@ == root@
                    && blob_at(blobs.pairs@, entry.id@) is None && is_utf8(entry.path@),
                Error::Time => old(disk).now_secs < 0,
                Error::Io { kind, raw_os } => {
                    let dest = dest_of(root@, entry.path@);
                    &&& is_utf8(entry.path@)
                    &&& (blocked_prefix(*old(disk), dest) ==> kind == IoErrorKind::AlreadyExists
                        && raw_os == Some(17i32))
                    &&& (!blocked_prefix(*old(disk), dest) ==> old(disk).at(dest) is Some && (match entry.mode {
                        Mode::File | Mode::FileExecutable => file_open_error(
                            old(disk).at(dest),
                            opts.destination_is_initially_empty,
                        ) == Some((kind, raw_os->0)) && raw_os is Some,
                        Mode::Symlink => if opts.fs.symlink {
                            kind == IoErrorKind::AlreadyExists && raw_os == Some(17i32)
                        } else {
                            file_open_error(
                                old(disk).at(dest),
                                opts.destination_is_initially_empty,
                            ) == Some((kind, raw_os->0)) && raw_os is Some
                        },
                        _ => false,
                    }))
                },
            },
        },
{
    let ghost d0 = *disk;
    if !utf8_check(&entry.path) {
        return Err(Error::IllformedUtf8 { path: copy_bytes(&entry.path) });
    }
    let dest = build_dest(root, &entry.path);
    match create_dir_all(disk, &dest) {
        Ok(()) => (),
        Err(e) => {
            return Err(e);
        },
    }
    let ghost d1 = *disk;
    proof {
        assert(d0.key_of(dest@).len() == dest@.len());
        assert(d1.at(dest@) == d0.at(dest@));
    }
    match entry.mode {
        Mode::File | Mode::FileExecutable => {
            let data = match blobs.find(&entry.id) {
                Some(d) => d,
                None => {
                    return Err(Error::ObjectNotFound {
                        oid: copy_bytes(&entry.id),
                        path: copy_bytes(root),
                    });
                },
            };
            let is_exec = opts.fs.executable_bit && matches!(entry.mode, Mode::FileExecutable);
            let exclusive = opts.destination_is_initially_empty;
            match create_file(disk, &dest, data, is_exec, exclusive) {
                Ok(()) => (),
                Err(e) => {
                    proof {
                        assert(d1.at(dest@) == d0.at(dest@) || (d0.at(dest@) is None && (d1.at(
                            dest@,
                        ) matches Some(n) && n is Dir)));
                    }
                    return Err(e);
                },
            }
        },
        Mode::Symlink => {
            let data = match blobs.find(&entry.id) {
                Some(d) => d,
                None => {
                    return Err(Error::ObjectNotFound {
                        oid: copy_bytes(&entry.id),
                        path: copy_bytes(root),
                    });
                },
            };
            if !utf8_check(data) {
                return Err(Error::IllformedUtf8 { path: copy_bytes(data) });
            }
            if opts.fs.symlink {
                match create_symlink(disk, &dest, copy_bytes(data)) {
                    Ok(()) => (),
                    Err(e) => {
                        proof {
                            assert(d1.at(dest@) == d0.at(dest@) || (d0.at(dest@) is None && (d1.at(
                                dest@,
                            ) matches Some(n) && n is Dir)));
                        }
                        return Err(e);
                    },
                }
            } else {
                match create_file(disk, &dest, data, false, opts.destination_is_initially_empty) {
                    Ok(()) => (),
                    Err(e) => {
                        proof {
                            assert(d1.at(dest@) == d0.at(dest@) || (d0.at(dest@) is None && (d1.at(
                                dest@,
                            ) matches Some(n) && n is Dir)));
                        }
                        return Err(e);
                    },
                }
            }
        },
        Mode::Dir => {
            return Err(Error::Unsupported { mode: entry.mode });
        },
        Mode::Commit => {
            return Err(Error::Unsupported { mode: entry.mode });
        },
    }
    // The write went through: read the metadata back into the stat block.
    if disk.now_secs < 0 {
        return Err(Error::Time);
    }
    let secs: u32 = disk.now_secs as u32;
    let mtime = EntryTime { secs, nsecs: disk.now_nsecs };
    let ctime = if disk.has_ctime {
        mtime
    } else {
        EntryTime { secs: 0, nsecs: 0 }
    };
    Ok(Stat { ctime, mtime })
}

/// Whether an I/O failure is a collision — a path already occupied — rather
/// than an error: a kind of `AlreadyExists` always is; on Windows a
/// permission denial is too; elsewhere the raw code 21, met when a directory
/// already occupies the destination of a file on a case-folding filesystem.
pub open spec fn spec_is_collision(kind: IoErrorKind, raw_os: Option<i32>, windows: bool) -> bool {
    kind == IoErrorKind::AlreadyExists || (windows && kind == IoErrorKind::PermissionDenied) || (
    !windows && raw_os == Some(21i32))
}

/// Classifies an I/O failure as collision or error.
pub fn is_collision(kind: IoErrorKind, raw_os: Option<i32>, windows: bool) -> (r: bool)
    ensures
        r == spec_is_collision(kind, raw_os, windows),
{
    if matches!(kind, IoErrorKind::AlreadyExists) {
        true
    } else if windows {
        matches!(kind, IoErrorKind::PermissionDenied)
    } else {
        match raw_os {
            Some(c) => c == 21,
            None => false,
        }
    }
}
/// No entry of the index asks to be skipped.
pub open spec fn no_skips(entries: Seq<Entry>) -> bool {
    forall|i: int| 0 <= i < entries.len() ==> !(#[trigger] entries[i]).skip_worktree
}

/// The folded key of an entry's destination.
pub open spec fn entry_key(root: Seq<u8>, e: Entry, ignore_case: bool) -> Seq<u8> {
    fold_seq(dest_of(root, e.path@), ignore_case)
}

/// No two entries name the same destination, even after case folding.
pub open spec fn distinct_dests(entries: Seq<Entry>, root: Seq<u8>, ignore_case: bool) -> bool {
    forall|i: int, j: int|
        0 <= i < j < entries.len() ==> entry_key(root, (#[trigger] entries[i]), ignore_case)
            != entry_key(root, (#[trigger] entries[j]), ignore_case)
}

/// `k` is the destination key of one of the first `n` non-skip entries.
pub open spec fn touched_by(
    k: Seq<u8>,
    entries: Seq<Entry>,
    n: int,
    root: Seq<u8>,
    ignore_case: bool,
) -> bool {
    exists|j: int|
        0 <= j < n && !(#[trigger] entries[j]).skip_worktree && k == entry_key(
            root,
            entries[j],
            ignore_case,
        )
}

/// Every disk change between `d0` and `d` is a fresh directory on an empty
/// path or the destination of one of the first `n` non-skip entries. This is
/// the skip-worktree guarantee's disk half: a skipped entry is never
/// materialized.
pub open spec fn disk_frame(
    d0: Disk,
    d: Disk,
    entries: Seq<Entry>,
    n: int,
    root: Seq<u8>,
    ignore_case: bool,
) -> bool {
    forall|k: Seq<u8>|
        (#[trigger] d.at_key(k)) == d0.at_key(k) || (d0.at_key(k) is None && (d.at_key(
            k,
        ) matches Some(nd) && nd is Dir)) || touched_by(k, entries, n, root, ignore_case)
}

/// Nothing a checkout does removes a node from the disk.
pub open spec fn disk_monotone(d0: Disk, d: Disk) -> bool {
    forall|k: Seq<u8>| d0.at_key(k) is Some ==> #[trigger] d.at_key(k) is Some
}

/// The walk changes no entry's identity: only stat blocks are refreshed.
pub open spec fn same_identity(a: Seq<Entry>, b: Seq<Entry>) -> bool {
    &&& b.len() == a.len()
    &&& forall|t: int|
        0 <= t < a.len() ==> ((#[trigger] b[t]).id@ == a[t].id@ && b[t].mode == a[t].mode
            && b[t].path@ == a[t].path@ && b[t].skip_worktree == a[t].skip_worktree)
}

/// Skip-worktree entries keep even their stat.
pub open spec fn skips_untouched(a: Seq<Entry>, b: Seq<Entry>) -> bool {
    forall|t: int| 0 <= t < a.len() && (#[trigger] a[t]).skip_worktree ==> b[t] == a[t]
}

/// An entry has been materialized: its blob sits at its destination as the
/// expected node, and the entry carries the write's refreshed stat while
/// everything else about it is unchanged.
pub open spec fn placed(
    e_old: Entry,
    e_new: Entry,
    blobs: Seq<(Vec<u8>, Vec<u8>)>,
    root: Seq<u8>,
    opts: Options,
    d: Disk,
) -> bool {
    &&& (blob_at(blobs, e_old.id@) matches Some(b) && (d.at(dest_of(root, e_old.path@)) matches Some(
        n,
    ) && expected_node(n, e_old.mode, b@, opts, d.now_secs, d.now_nsecs)))
    &&& e_new.id@ == e_old.id@
    &&& e_new.mode == e_old.mode
    &&& e_new.path@ == e_old.path@
    &&& e_new.skip_worktree == e_old.skip_worktree
    &&& e_new.stat == refreshed_stat(d.now_secs, d.now_nsecs, d.has_ctime)
}

/// The first `n` entries all stand materialized on `d`.
pub open spec fn all_placed(
    a: Seq<Entry>,
    b: Seq<Entry>,
    n: int,
    blobs: Seq<(Vec<u8>, Vec<u8>)>,
    root: Seq<u8>,
    opts: Options,
    d: Disk,
) -> bool {
    forall|t: int| 0 <= t < n ==> placed(#[trigger] a[t], b[t], blobs, root, opts, d)
}

/// Each of the first `n` entries that creates exclusively and whose
/// destination was occupied on `d0` stands in the collision list, under its
/// own path, as an already-exists collision.
#[verifier::opaque]
pub open spec fn occupied_collide(
    entries: Seq<Entry>,
    n: int,
    d0: Disk,
    root: Seq<u8>,
    opts: Options,
    cols: Seq<Collision>,
) -> bool {
    forall|t: int|
        0 <= t < n && wants_exclusive((#[trigger] entries[t]).mode, opts) && d0.at(
            dest_of(root, entries[t].path@),
        ) is Some ==> exists|c: int|
            0 <= c < cols.len() && (#[trigger] cols[c]).path@ == entries[t].path@
                && cols[c].error_kind == IoErrorKind::AlreadyExists
}

/// No path stands in the collision list twice.
pub open spec fn collision_paths_distinct(cols: Seq<Collision>) -> bool {
    forall|c1: int, c2: int|
        0 <= c1 < c2 < cols.len() ==> (#[trigger] cols[c1]).path@ != (#[trigger] cols[c2]).path@
}

/// Every collision carries the path of one of the first `n` non-skip entries.
pub open spec fn collisions_sound(cols: Seq<Collision>, entries: Seq<Entry>, n: int) -> bool {
    forall|c: int|
        0 <= c < cols.len() ==> exists|j: int|
            0 <= j < n && !(#[trigger] entries[j]).skip_worktree && (#[trigger] cols[c]).path@
                == entries[j].path@
}


/// A walk's frames only widen when one more entry is counted.
proof fn lemma_frame_grow(
    d0: Disk,
    d: Disk,
    entries: Seq<Entry>,
    i: int,
    root: Seq<u8>,
    ic: bool,
)
    requires
        0 <= i,
        disk_frame(d0, d, entries, i, root, ic),
    ensures
        disk_frame(d0, d, entries, i + 1, root, ic),
{
    assert forall|k: Seq<u8>|
        (#[trigger] d.at_key(k)) == d0.at_key(k) || (d0.at_key(k) is None && (d.at_key(
            k,
        ) matches Some(nd) && nd is Dir)) || touched_by(k, entries, i + 1, root, ic) by {
        if !(d.at_key(k) == d0.at_key(k)) && !(d0.at_key(k) is None && (d.at_key(
            k,
        ) matches Some(nd) && nd is Dir)) {
            assert(touched_by(k, entries, i, root, ic));
            let j = choose|j: int|
                0 <= j < i && !(#[trigger] entries[j]).skip_worktree && k == entry_key(
                    root,
                    entries[j],
                    ic,
                );
            assert(0 <= j < i + 1 && !entries[j].skip_worktree && k == entry_key(
                root,
                entries[j],
                ic,
            ));
        }
    }
}

/// Processing one more entry keeps the walk's frames: the entry only touches
/// its own destination key and fresh directories, and drops nothing.
proof fn lemma_step_frames(
    d0: Disk,
    dpre: Disk,
    dnow: Disk,
    entries: Seq<Entry>,
    i: int,
    root: Seq<u8>,
    ic: bool,
)
    requires
        0 <= i < entries.len(),
        !entries[i].skip_worktree,
        disk_frame(d0, dpre, entries, i, root, ic),
        disk_monotone(d0, dpre),
        entry_frame(dpre, dnow, entry_key(root, entries[i], ic)),
        disk_monotone(dpre, dnow),
    ensures
        disk_frame(d0, dnow, entries, i + 1, root, ic),
        disk_monotone(d0, dnow),
{
    let key = entry_key(root, entries[i], ic);
    assert forall|k: Seq<u8>| d0.at_key(k) is Some implies #[trigger] dnow.at_key(k) is Some by {
        assert(dpre.at_key(k) is Some);
    }
    assert forall|k: Seq<u8>|
        (#[trigger] dnow.at_key(k)) == d0.at_key(k) || (d0.at_key(k) is None && (dnow.at_key(
            k,
        ) matches Some(nd) && nd is Dir)) || touched_by(k, entries, i + 1, root, ic) by {
        if k == key {
            assert(touched_by(k, entries, i + 1, root, ic));
        } else {
            if touched_by(k, entries, i, root, ic) {
                let j = choose|j: int|
                    0 <= j < i && !(#[trigger] entries[j]).skip_worktree && k == entry_key(
                        root,
                        entries[j],
                        ic,
                    );
                assert(0 <= j < i + 1 && !entries[j].skip_worktree && k == entry_key(
                    root,
                    entries[j],
                    ic,
                ));
                assert(touched_by(k, entries, i + 1, root, ic));
            } else {
                assert(dpre.at_key(k) == d0.at_key(k) || (d0.at_key(k) is None && (dpre.at_key(
                    k,
                ) matches Some(nd) && nd is Dir)));
                if dnow.at_key(k) == dpre.at_key(k) {
                } else {
                    assert(dpre.at_key(k) is None && (dnow.at_key(k) matches Some(nd)
                        && nd is Dir));
                    assert(d0.at_key(k) is None);
                }
            }
        }
    }
}

/// Entries already materialized stay materialized: a later entry writes a
/// different destination key and adds directories only on empty paths.
proof fn lemma_step_placed(
    dpre: Disk,
    dnow: Disk,
    entries: Seq<Entry>,
    pre_e: Seq<Entry>,
    new_e: Seq<Entry>,
    i: int,
    blobs: Seq<(Vec<u8>, Vec<u8>)>,
    root: Seq<u8>,
    ic: bool,
    opts: Options,
)
    requires
        0 <= i < entries.len(),
        pre_e.len() == entries.len(),
        new_e.len() == entries.len(),
        ic == dpre.ignore_case,
        same_disk_config(dpre, dnow),
        distinct_dests(entries, root, ic),
        all_placed(entries, pre_e, i, blobs, root, opts, dpre),
        entry_frame(dpre, dnow, entry_key(root, entries[i], ic)),
        forall|t: int| 0 <= t < entries.len() && t != i ==> new_e[t] == pre_e[t],
        placed(entries[i], new_e[i], blobs, root, opts, dnow),
    ensures
        all_placed(entries, new_e, i + 1, blobs, root, opts, dnow),
{
    let key = entry_key(root, entries[i], ic);
    assert forall|t: int| 0 <= t < i + 1 implies placed(
        #[trigger] entries[t],
        new_e[t],
        blobs,
        root,
        opts,
        dnow,
    ) by {
        if t < i {
            let kt = entry_key(root, entries[t], ic);
            assert(kt != key);
            assert(placed(entries[t], pre_e[t], blobs, root, opts, dpre));
            assert(dpre.at(dest_of(root, entries[t].path@)) == dpre.at_key(kt));
            assert(dnow.at_key(kt) == dpre.at_key(kt) || (dpre.at_key(kt) is None && (
            dnow.at_key(kt) matches Some(nd) && nd is Dir)));
            assert(dnow.at(dest_of(root, entries[t].path@)) == dnow.at_key(kt));
            assert(new_e[t] == pre_e[t]);
        }
    }
}

/// A pushed collision extends soundness by one entry.
proof fn lemma_sound_push(
    old_cols: Seq<Collision>,
    new_cols: Seq<Collision>,
    entries: Seq<Entry>,
    i: int,
)
    requires
        0 <= i < entries.len(),
        !entries[i].skip_worktree,
        collisions_sound(old_cols, entries, i),
        new_cols.len() == old_cols.len() + 1,
        forall|c: int| 0 <= c < old_cols.len() ==> #[trigger] new_cols[c] == old_cols[c],
        new_cols.last().path@ == entries[i].path@,
    ensures
        collisions_sound(new_cols, entries, i + 1),
{
    assert forall|c: int| 0 <= c < new_cols.len() implies exists|j: int|
        0 <= j < i + 1 && !(#[trigger] entries[j]).skip_worktree && (#[trigger] new_cols[c]).path@
            == entries[j].path@ by {
        if c < old_cols.len() {
            let j = choose|j: int|
                0 <= j < i && !(#[trigger] entries[j]).skip_worktree && old_cols[c].path@
                    == entries[j].path@;
            assert(0 <= j < i + 1 && !entries[j].skip_worktree && new_cols[c].path@
                == entries[j].path@);
        } else {
            assert(new_cols[c] == new_cols.last());
            assert(0 <= i < i + 1 && !entries[i].skip_worktree && new_cols[c].path@
                == entries[i].path@);
        }
    }
}

/// Pushing the current entry's collision cannot repeat a path: every earlier
/// collision carries an earlier entry's path, and distinct destinations force
/// distinct paths.
proof fn lemma_distinct_push(
    old_cols: Seq<Collision>,
    new_cols: Seq<Collision>,
    entries: Seq<Entry>,
    i: int,
    root: Seq<u8>,
    ic: bool,
)
    requires
        0 <= i < entries.len(),
        distinct_dests(entries, root, ic),
        collisions_sound(old_cols, entries, i),
        collision_paths_distinct(old_cols),
        new_cols.len() == old_cols.len() + 1,
        forall|c: int| 0 <= c < old_cols.len() ==> #[trigger] new_cols[c] == old_cols[c],
        new_cols.last().path@ == entries[i].path@,
    ensures
        collision_paths_distinct(new_cols),
{
    assert forall|c1: int, c2: int| 0 <= c1 < c2 < new_cols.len() implies (
    #[trigger] new_cols[c1]).path@ != (#[trigger] new_cols[c2]).path@ by {
        if c2 == old_cols.len() as int {
            let j = choose|j: int|
                0 <= j < i && !(#[trigger] entries[j]).skip_worktree && old_cols[c1].path@
                    == entries[j].path@;
            if new_cols[c1].path@ == new_cols[c2].path@ {
                assert(entries[j].path@ == entries[i].path@);
                assert(entry_key(root, entries[j], ic) == entry_key(root, entries[i], ic));
                assert(false);
            }
        }
    }
}

/// An occupied-destination ledger survives a push.
proof fn lemma_occupied_push(
    old_cols: Seq<Collision>,
    new_cols: Seq<Collision>,
    entries: Seq<Entry>,
    i: int,
    d0: Disk,
    root: Seq<u8>,
    opts: Options,
)
    requires
        0 <= i < entries.len(),
        occupied_collide(entries, i, d0, root, opts, old_cols),
        new_cols.len() == old_cols.len() + 1,
        forall|c: int| 0 <= c < old_cols.len() ==> #[trigger] new_cols[c] == old_cols[c],
        new_cols.last().path@ == entries[i].path@,
        (wants_exclusive(entries[i].mode, opts) && d0.at(dest_of(root, entries[i].path@)) is Some)
            ==> new_cols.last().error_kind == IoErrorKind::AlreadyExists,
    ensures
        occupied_collide(entries, i + 1, d0, root, opts, new_cols),
{
    reveal(occupied_collide);
    assert forall|t: int|
        0 <= t < i + 1 && wants_exclusive((#[trigger] entries[t]).mode, opts) && d0.at(
            dest_of(root, entries[t].path@),
        ) is Some implies exists|c: int|
        0 <= c < new_cols.len() && (#[trigger] new_cols[c]).path@ == entries[t].path@
            && new_cols[c].error_kind == IoErrorKind::AlreadyExists by {
        if t == i {
            let nc = old_cols.len() as int;
            assert(0 <= nc < new_cols.len() && new_cols[nc].path@ == entries[t].path@
                && new_cols[nc].error_kind == IoErrorKind::AlreadyExists);
        } else {
            let c = choose|c: int|
                0 <= c < old_cols.len() && (#[trigger] old_cols[c]).path@ == entries[t].path@
                    && old_cols[c].error_kind == IoErrorKind::AlreadyExists;
            assert(0 <= c < new_cols.len() && new_cols[c].path@ == entries[t].path@
                && new_cols[c].error_kind == IoErrorKind::AlreadyExists);
        }
    }
}

/// An occupied-destination ledger survives an entry that did not collide,
/// as long as that entry's destination was not occupied.
proof fn lemma_occupied_keep(
    cols: Seq<Collision>,
    entries: Seq<Entry>,
    i: int,
    d0: Disk,
    root: Seq<u8>,
    opts: Options,
)
    requires
        0 <= i < entries.len(),
        occupied_collide(entries, i, d0, root, opts, cols),
        !(wants_exclusive(entries[i].mode, opts) && d0.at(dest_of(root, entries[i].path@)) is Some),
    ensures
        occupied_collide(entries, i + 1, d0, root, opts, cols),
{
    reveal(occupied_collide);
}

/// Law: a materialized file holds exactly its blob's bytes. Reading the file
/// back therefore hands any function of its content — above all the object-id
/// hash, which depends on the bytes alone — the same input the blob gave it,
/// so the recomputed object id is the entry's own.
pub proof fn lemma_write_then_read_reproduces_blob(
    e_old: Entry,
    e_new: Entry,
    blobs: Seq<(Vec<u8>, Vec<u8>)>,
    root: Seq<u8>,
    opts: Options,
    d: Disk,
)
    requires
        placed(e_old, e_new, blobs, root, opts, d),
        e_old.mode is File || e_old.mode is FileExecutable,
    ensures
        blob_at(blobs, e_old.id@) matches Some(b) && (d.at(dest_of(root, e_old.path@)) matches Some(
            n,
        ) && (n matches Node::File { data, .. } && data@ == b@)),
{
}

/// At the start of a walk nothing is owed to the ledger.
proof fn lemma_occupied_empty(
    entries: Seq<Entry>,
    d0: Disk,
    root: Seq<u8>,
    opts: Options,
    cols: Seq<Collision>,
)
    ensures
        occupied_collide(entries, 0, d0, root, opts, cols),
{
    reveal(occupied_collide);
}

/// No entry's destination key doubles as a directory key on the way to
/// another entry's destination: with this, creating one entry's parents can
/// never run into a file another entry wrote, nor bury a destination under a
/// fresh directory.
pub open spec fn prefix_free(entries: Seq<Entry>, root: Seq<u8>, ic: bool) -> bool {
    forall|i: int, j: int|
        0 <= i < entries.len() && 0 <= j < entries.len() && i != j ==> !key_blocks(
            entry_key(root, #[trigger] entries[i], ic),
            dest_of(root, (#[trigger] entries[j]).path@),
            ic,
        )
}

/// Nothing about this entry can fail on the disk `d0`: a writable mode, a
/// UTF-8 path, its blob present (and UTF-8 where it names a link target), no
/// occupied path on the way to its destination, and the destination free.
pub open spec fn entry_clean(e: Entry, blobs: Seq<(Vec<u8>, Vec<u8>)>, root: Seq<u8>, d0: Disk) -> bool {
    &&& (e.mode is File || e.mode is FileExecutable || e.mode is Symlink)
    &&& is_utf8(e.path@)
    &&& (blob_at(blobs, e.id@) matches Some(b) && (e.mode is Symlink ==> is_utf8(b@)))
    &&& !blocked_prefix(d0, dest_of(root, e.path@))
    &&& d0.at(dest_of(root, e.path@)) is None
}

/// A walk on which nothing can go wrong: the clock at or past the epoch, no
/// skips, no two destinations sharing a folded key or nesting one inside
/// another, and every entry clean on the initial disk.
pub open spec fn clean_walk(
    entries: Seq<Entry>,
    blobs: Seq<(Vec<u8>, Vec<u8>)>,
    root: Seq<u8>,
    d0: Disk,
) -> bool {
    &&& d0.now_secs >= 0
    &&& no_skips(entries)
    &&& distinct_dests(entries, root, d0.ignore_case)
    &&& prefix_free(entries, root, d0.ignore_case)
    &&& forall|i: int|
        0 <= i < entries.len() ==> entry_clean(#[trigger] entries[i], blobs, root, d0)
}

/// One clean step leaves the remaining destinations as it found them: free,
/// and with nothing in their way.
proof fn lemma_clean_step(
    dpre: Disk,
    dnow: Disk,
    entries: Seq<Entry>,
    i: int,
    root: Seq<u8>,
    ic: bool,
)
    requires
        0 <= i < entries.len(),
        ic == dpre.ignore_case,
        same_disk_config(dpre, dnow),
        distinct_dests(entries, root, ic),
        prefix_free(entries, root, ic),
        forall|t: int|
            i <= t < entries.len() ==> !blocked_prefix(
                dpre,
                dest_of(root, (#[trigger] entries[t]).path@),
            ) && dpre.at(dest_of(root, entries[t].path@)) is None,
        entry_frame(dpre, dnow, entry_key(root, entries[i], ic)),
        forall|k: Seq<u8>|
            (#[trigger] dnow.at_key(k)) == dpre.at_key(k) || k == entry_key(root, entries[i], ic)
                || key_blocks(k, dest_of(root, entries[i].path@), ic),
    ensures
        forall|t: int|
            i < t < entries.len() ==> !blocked_prefix(
                dnow,
                dest_of(root, (#[trigger] entries[t]).path@),
            ) && dnow.at(dest_of(root, entries[t].path@)) is None,
{
    let key_i = entry_key(root, entries[i], ic);
    let dest_i = dest_of(root, entries[i].path@);
    assert forall|t: int| i < t < entries.len() implies !blocked_prefix(
        dnow,
        dest_of(root, (#[trigger] entries[t]).path@),
    ) && dnow.at(dest_of(root, entries[t].path@)) is None by {
        let dt = dest_of(root, entries[t].path@);
        let kt = entry_key(root, entries[t], ic);
        assert(kt == fold_seq(dt, ic));
        assert(kt != key_i);
        assert(!key_blocks(kt, dest_i, ic));
        assert(dnow.at_key(kt) == dpre.at_key(kt));
        assert(dnow.at(dt) == dnow.at_key(kt));
        if blocked_prefix(dnow, dt) {
            let m = choose|m: int|
                0 <= m < dt.len() && dt[m] == SLASH && ((#[trigger] dnow.at(
                    dt.take(m),
                )) matches Some(n) && !(n is Dir));
            let km = fold_seq(dt.take(m), ic);
            assert(dnow.at(dt.take(m)) == dnow.at_key(km));
            if km == key_i {
                assert(key_blocks(key_i, dt, ic));
                assert(!key_blocks(entry_key(root, entries[i], ic), dt, ic));
                assert(false);
            }
            if dnow.at_key(km) == dpre.at_key(km) {
                assert(dpre.at(dt.take(m)) == dpre.at_key(km));
                assert(blocked_prefix(dpre, dt));
            } else {
                // The only other change at a foreign key is a fresh
                // directory, and a directory blocks nothing.
                assert(dpre.at_key(km) is None && (dnow.at_key(km) matches Some(n2)
                    && n2 is Dir));
            }
            assert(false);
        }
    }
}

/// The failure `err` is the one entry `e` produces, as far as the initial
/// disk `d0` determines it: a path or link target that is not UTF-8, a clock
/// before the epoch, a missing blob, an unimplemented mode, or a filesystem
/// failure that is no collision.
pub open spec fn entry_error_matches(
    e: Entry,
    blobs: Seq<(Vec<u8>, Vec<u8>)>,
    root: Seq<u8>,
    d0: Disk,
    err: Error,
) -> bool {
    match err {
        Error::IllformedUtf8 { path } => !is_utf8(path@) && (path@ == e.path@ || (
        e.mode is Symlink && (blob_at(blobs, e.id@) matches Some(b) && path@ == b@))),
        Error::Time => d0.now_secs < 0,
        Error::ObjectNotFound { oid, path } => oid@ == e.id@ && path@ == root && blob_at(
            blobs,
            e.id@,
        ) is None && is_utf8(e.path@),
        Error::Unsupported { mode } => mode == e.mode && (mode is Dir || mode is Commit) && is_utf8(
            e.path@,
        ),
        Error::Io { kind, raw_os } => is_utf8(e.path@) && !spec_is_collision(
            kind,
            raw_os,
            d0.windows,
        ),
    }
}

/// Entry `t` shares its folded destination key with an earlier entry: two
/// names for one file, as on a case-folding filesystem.
pub open spec fn has_earlier_twin(entries: Seq<Entry>, t: int, root: Seq<u8>, ic: bool) -> bool {
    exists|j: int|
        0 <= j < t && entry_key(root, #[trigger] entries[j], ic) == entry_key(
            root,
            entries[t],
            ic,
        )
}

/// Each of the first `n` entries that creates exclusively and whose folded
/// key repeats an earlier entry's stands in the collision list, under its own
/// path, as an already-exists collision.
#[verifier::opaque]
pub open spec fn duplicates_collide(
    entries: Seq<Entry>,
    n: int,
    root: Seq<u8>,
    ic: bool,
    opts: Options,
    cols: Seq<Collision>,
) -> bool {
    forall|t: int|
        0 <= t < n && wants_exclusive((#[trigger] entries[t]).mode, opts) && has_earlier_twin(
            entries,
            t,
            root,
            ic,
        ) ==> exists|c: int|
            0 <= c < cols.len() && (#[trigger] cols[c]).path@ == entries[t].path@
                && cols[c].error_kind == IoErrorKind::AlreadyExists
}

/// Each of the first `n` entries left something behind: its destination key
/// is occupied, or something on the way to it is.
#[verifier::opaque]
pub open spec fn keys_occupied(
    entries: Seq<Entry>,
    n: int,
    root: Seq<u8>,
    ic: bool,
    d: Disk,
) -> bool {
    forall|j: int|
        0 <= j < n ==> d.at_key(entry_key(root, #[trigger] entries[j], ic)) is Some
            || blocked_prefix(d, dest_of(root, entries[j].path@))
}

/// Two paths with one folded key block alike: a non-directory on the way to
/// one stands on the way to the other too.
proof fn lemma_twin_blocked(d: Disk, a: Seq<u8>, b: Seq<u8>, ic: bool)
    requires
        ic == d.ignore_case,
        fold_seq(a, ic) == fold_seq(b, ic),
        blocked_prefix(d, a),
    ensures
        blocked_prefix(d, b),
{
    let m = choose|m: int|
        0 <= m < a.len() && a[m] == SLASH && ((#[trigger] d.at(a.take(m))) matches Some(n) && !(
        n is Dir));
    if ic {
        assert(fold_seq(a, ic).len() == a.len());
        assert(fold_seq(b, ic).len() == b.len());
        assert(a.len() == b.len());
        assert(fold_seq(a, ic)[m] == fold_seq(b, ic)[m]);
        assert(fold_seq(a, ic)[m] == fold_byte(a[m]));
        assert(fold_seq(b, ic)[m] == fold_byte(b[m]));
        assert(fold_byte(a[m]) == fold_byte(b[m]));
        assert(fold_byte(b[m]) == SLASH);
        assert(b[m] == SLASH) by {
            if 65 <= b[m] <= 90 {
                assert(fold_byte(b[m]) == (b[m] + 32) as u8);
            }
        }
        assert(fold_seq(a.take(m), ic).len() == m && fold_seq(b.take(m), ic).len() == m);
        assert forall|p: int| 0 <= p < m implies fold_seq(a.take(m), ic)[p] == fold_seq(
            b.take(m),
            ic,
        )[p] by {
            assert(fold_seq(a.take(m), ic)[p] == fold_byte(a.take(m)[p]));
            assert(fold_seq(b.take(m), ic)[p] == fold_byte(b.take(m)[p]));
            assert(a.take(m)[p] == a[p] && b.take(m)[p] == b[p]);
            assert(fold_seq(a, ic)[p] == fold_byte(a[p]));
            assert(fold_seq(b, ic)[p] == fold_byte(b[p]));
        }
        assert(fold_seq(a.take(m), ic) =~= fold_seq(b.take(m), ic));
        assert(d.at(b.take(m)) == d.at(a.take(m)));
        assert(0 <= m < b.len() && b[m] == SLASH && (d.at(b.take(m)) matches Some(n) && !(
        n is Dir)));
    } else {
        assert(a == b);
    }
}

/// The occupancy ledger survives one step: old nodes stay, a blocker never
/// turns into a directory, and the processed entry left its key occupied or
/// its way blocked.
proof fn lemma_occ_step(
    dpre: Disk,
    dnow: Disk,
    entries: Seq<Entry>,
    i: int,
    root: Seq<u8>,
    ic: bool,
)
    requires
        0 <= i < entries.len(),
        ic == dpre.ignore_case,
        same_disk_config(dpre, dnow),
        keys_occupied(entries, i, root, ic, dpre),
        disk_monotone(dpre, dnow),
        forall|k: Seq<u8>|
            (dpre.at_key(k) matches Some(n) && !(n is Dir)) ==> ((#[trigger] dnow.at_key(
                k,
            )) matches Some(n2) && !(n2 is Dir)),
        dnow.at_key(entry_key(root, entries[i], ic)) is Some || dpre.at_key(
            entry_key(root, entries[i], ic),
        ) is Some || blocked_prefix(dpre, dest_of(root, entries[i].path@)),
    ensures
        keys_occupied(entries, i + 1, root, ic, dnow),
{
    reveal(keys_occupied);
    assert forall|j: int| 0 <= j < i + 1 implies dnow.at_key(
        entry_key(root, #[trigger] entries[j], ic),
    ) is Some || blocked_prefix(dnow, dest_of(root, entries[j].path@)) by {
        let kj = entry_key(root, entries[j], ic);
        let dj = dest_of(root, entries[j].path@);
        if j < i {
            if dpre.at_key(kj) is Some {
                assert(dnow.at_key(kj) is Some);
            } else {
                assert(blocked_prefix(dpre, dj));
                let m = choose|m: int|
                    0 <= m < dj.len() && dj[m] == SLASH && ((#[trigger] dpre.at(
                        dj.take(m),
                    )) matches Some(n) && !(n is Dir));
                let km = fold_seq(dj.take(m), ic);
                assert(dpre.at(dj.take(m)) == dpre.at_key(km));
                assert(dnow.at_key(km) matches Some(n2) && !(n2 is Dir));
                assert(dnow.at(dj.take(m)) == dnow.at_key(km));
                assert(blocked_prefix(dnow, dj));
            }
        } else {
            if dpre.at_key(kj) is Some {
                assert(dnow.at_key(kj) is Some);
            } else if blocked_prefix(dpre, dj) {
                let m = choose|m: int|
                    0 <= m < dj.len() && dj[m] == SLASH && ((#[trigger] dpre.at(
                        dj.take(m),
                    )) matches Some(n) && !(n is Dir));
                let km = fold_seq(dj.take(m), ic);
                assert(dpre.at(dj.take(m)) == dpre.at_key(km));
                assert(dnow.at_key(km) matches Some(n2) && !(n2 is Dir));
                assert(dnow.at(dj.take(m)) == dnow.at_key(km));
                assert(blocked_prefix(dnow, dj));
            }
        }
    }
}

/// A walk with no entries yet has occupied nothing and owes nothing.
proof fn lemma_dup_empty(
    entries: Seq<Entry>,
    root: Seq<u8>,
    ic: bool,
    opts: Options,
    cols: Seq<Collision>,
    d: Disk,
)
    ensures
        duplicates_collide(entries, 0, root, ic, opts, cols),
        keys_occupied(entries, 0, root, ic, d),
{
    reveal(duplicates_collide);
    reveal(keys_occupied);
}

/// The twin ledger survives a pushed collision.
proof fn lemma_dup_push(
    old_cols: Seq<Collision>,
    new_cols: Seq<Collision>,
    entries: Seq<Entry>,
    i: int,
    root: Seq<u8>,
    ic: bool,
    opts: Options,
)
    requires
        0 <= i < entries.len(),
        duplicates_collide(entries, i, root, ic, opts, old_cols),
        new_cols.len() == old_cols.len() + 1,
        forall|c: int| 0 <= c < old_cols.len() ==> #[trigger] new_cols[c] == old_cols[c],
        new_cols.last().path@ == entries[i].path@,
        (wants_exclusive(entries[i].mode, opts) && has_earlier_twin(entries, i, root, ic))
            ==> new_cols.last().error_kind == IoErrorKind::AlreadyExists,
    ensures
        duplicates_collide(entries, i + 1, root, ic, opts, new_cols),
{
    reveal(duplicates_collide);
    assert forall|t: int|
        0 <= t < i + 1 && wants_exclusive((#[trigger] entries[t]).mode, opts) && has_earlier_twin(
            entries,
            t,
            root,
            ic,
        ) implies exists|c: int|
        0 <= c < new_cols.len() && (#[trigger] new_cols[c]).path@ == entries[t].path@
            && new_cols[c].error_kind == IoErrorKind::AlreadyExists by {
        if t == i {
            let nc = old_cols.len() as int;
            assert(0 <= nc < new_cols.len() && new_cols[nc].path@ == entries[t].path@
                && new_cols[nc].error_kind == IoErrorKind::AlreadyExists);
        } else {
            let c = choose|c: int|
                0 <= c < old_cols.len() && (#[trigger] old_cols[c]).path@ == entries[t].path@
                    && old_cols[c].error_kind == IoErrorKind::AlreadyExists;
            assert(0 <= c < new_cols.len() && new_cols[c].path@ == entries[t].path@
                && new_cols[c].error_kind == IoErrorKind::AlreadyExists);
        }
    }
}

/// The twin ledger survives an entry that had no earlier twin, or does not
/// create exclusively.
proof fn lemma_dup_keep(
    cols: Seq<Collision>,
    entries: Seq<Entry>,
    i: int,
    root: Seq<u8>,
    ic: bool,
    opts: Options,
)
    requires
        0 <= i < entries.len(),
        duplicates_collide(entries, i, root, ic, opts, cols),
        !(wants_exclusive(entries[i].mode, opts) && has_earlier_twin(entries, i, root, ic)),
    ensures
        duplicates_collide(entries, i + 1, root, ic, opts, cols),
{
    reveal(duplicates_collide);
}

/// An entry with an earlier twin finds its own destination occupied or its
/// own way blocked: whatever the twin ran into stands on this entry's path
/// too, since the two fold to one key.
proof fn lemma_occ_twin(
    dpre: Disk,
    entries: Seq<Entry>,
    i: int,
    root: Seq<u8>,
    ic: bool,
)
    requires
        0 <= i < entries.len(),
        ic == dpre.ignore_case,
        keys_occupied(entries, i, root, ic, dpre),
        has_earlier_twin(entries, i, root, ic),
    ensures
        dpre.at_key(entry_key(root, entries[i], ic)) is Some || blocked_prefix(
            dpre,
            dest_of(root, entries[i].path@),
        ),
{
    reveal(keys_occupied);
    let j = choose|j: int|
        0 <= j < i && entry_key(root, #[trigger] entries[j], ic) == entry_key(
            root,
            entries[i],
            ic,
        );
    if dpre.at_key(entry_key(root, entries[j], ic)) is Some {
    } else {
        assert(blocked_prefix(dpre, dest_of(root, entries[j].path@)));
        lemma_twin_blocked(
            dpre,
            dest_of(root, entries[j].path@),
            dest_of(root, entries[i].path@),
            ic,
        );
    }
}

/// The collision list stands in index order: a strictly increasing choice
/// `w` of non-skipped entries matches it one for one, path for path.
#[verifier::opaque]
pub open spec fn collisions_in_order(
    cols: Seq<Collision>,
    entries: Seq<Entry>,
    w: Seq<int>,
) -> bool {
    &&& w.len() == cols.len()
    &&& forall|c: int|
        0 <= c < cols.len() ==> 0 <= #[trigger] w[c] < entries.len() && !entries[w[c]].skip_worktree
            && cols[c].path@ == entries[w[c]].path@
    &&& forall|c1: int, c2: int| 0 <= c1 < c2 < cols.len() ==> w[c1] < w[c2]
}

/// Some strictly increasing choice of non-skipped entries matches the
/// collision list one for one: the list is in index order.
pub open spec fn collisions_ordered(cols: Seq<Collision>, entries: Seq<Entry>) -> bool {
    exists|w: Seq<int>| collisions_in_order(cols, entries, w)
}

/// An empty collision list is in order under no witnesses.
proof fn lemma_order_empty(entries: Seq<Entry>, cols: Seq<Collision>, w: Seq<int>)
    requires
        cols.len() == 0,
        w.len() == 0,
    ensures
        collisions_in_order(cols, entries, w),
{
    reveal(collisions_in_order);
}

/// Pushing the current entry's collision keeps the list in index order.
proof fn lemma_order_push(
    old_cols: Seq<Collision>,
    new_cols: Seq<Collision>,
    entries: Seq<Entry>,
    w_old: Seq<int>,
    w_new: Seq<int>,
    i: int,
)
    requires
        0 <= i < entries.len(),
        !entries[i].skip_worktree,
        collisions_in_order(old_cols, entries, w_old),
        forall|c: int| 0 <= c < w_old.len() ==> #[trigger] w_old[c] < i,
        new_cols.len() == old_cols.len() + 1,
        forall|c: int| 0 <= c < old_cols.len() ==> #[trigger] new_cols[c] == old_cols[c],
        new_cols.last().path@ == entries[i].path@,
        w_new == w_old.push(i),
    ensures
        collisions_in_order(new_cols, entries, w_new),
        forall|c: int| 0 <= c < w_new.len() ==> #[trigger] w_new[c] <= i,
{
    reveal(collisions_in_order);
}

/// Checks the index out under `root`: entries are visited in index order;
/// skip-worktree entries are left untouched; occupied paths become recorded
/// collisions rather than failures; any other failure aborts the walk, or is
/// recorded in the outcome when the options say to keep going.
#[verifier::loop_isolation(false)]
#[verifier::rlimit(100)]
#[verifier::spinoff_prover]
pub fn checkout(
    index: &mut State,
    root: &Vec<u8>,
    blobs: &Blobs,
    options: Options,
    disk: &mut Disk,
) -> (r: Result<Outcome, Error>)
    requires
        old(disk).wf(),
        old(disk).now_secs <= u32::MAX as i64,
    ensures
        final(disk).wf(),
        same_disk_config(*old(disk), *final(disk)),
        same_identity(old(index).entries@, final(index).entries@),
        skips_untouched(old(index).entries@, final(index).entries@),
        disk_monotone(*old(disk), *final(disk)),
        disk_frame(
            *old(disk),
            *final(disk),
            old(index).entries@,
            old(index).entries@.len() as int,
            root@,
            old(disk).ignore_case,
        ),
        // A clean walk (no skips, no two entries on one destination, nothing
        // collided or failed) leaves every entry materialized: its blob at
        // its destination, its stat at the write's timestamps.
        r matches Ok(out) ==> ((out.collisions@.len() == 0 && out.errors@.len() == 0 && no_skips(
            old(index).entries@,
        ) && distinct_dests(old(index).entries@, root@, old(disk).ignore_case)) ==> all_placed(
            old(index).entries@,
            final(index).entries@,
            old(index).entries@.len() as int,
            blobs.pairs@,
            root@,
            options,
            *final(disk),
        )),
        r matches Ok(out) ==> (distinct_dests(old(index).entries@, root@, old(disk).ignore_case)
            ==> collision_paths_distinct(out.collisions@)),
        // The case-insensitive collision: an entry whose folded destination
        // key repeats an earlier entry's is reported under its own path as an
        // already-exists collision, whenever it creates exclusively and no
        // non-collision failure was recorded.
        r matches Ok(out) ==> ((out.errors@.len() == 0 && options.destination_is_initially_empty
            && no_skips(old(index).entries@)) ==> duplicates_collide(
            old(index).entries@,
            old(index).entries@.len() as int,
            root@,
            old(disk).ignore_case,
            options,
            out.collisions@,
        )),
        // On a clean walk nothing fails: every destination free and unblocked
        // on the initial disk, every blob present, every path (and link
        // target) UTF-8, no skips, no two destinations sharing or nesting a
        // folded key, the clock at or past the epoch — then the checkout
        // returns Ok with no collision and no recorded error.
        clean_walk(old(index).entries@, blobs.pairs@, root@, *old(disk)) ==> (r matches Ok(out)
            && out.collisions@.len() == 0 && out.errors@.len() == 0),
        // The walk returns an error only when not told to keep going, only
        // for a failure that is no collision, and the error is what some
        // non-skipped entry produced.
        r matches Err(e) ==> (!options.keep_going && exists|i: int|
            0 <= i < old(index).entries@.len() && !(#[trigger] old(
                index,
            ).entries@[i]).skip_worktree && entry_error_matches(
                old(index).entries@[i],
                blobs.pairs@,
                root@,
                *old(disk),
                e,
            )),
        // The collisions come in index order: some strictly increasing choice
        // of non-skipped entries matches the list one for one.
        r matches Ok(out) ==> collisions_ordered(out.collisions@, old(index).entries@),
        // A skip-worktree entry never appears among the collisions: every
        // collision carries a non-skipped entry's path.
        r matches Ok(out) ==> collisions_sound(
            out.collisions@,
            old(index).entries@,
            old(index).entries@.len() as int,
        ),
        // With an initially-empty destination demanded, an entry whose
        // destination was already occupied appears in the collision list
        // under its own path, as an already-exists collision; with the
        // clause above, exactly once.
        r matches Ok(out) ==> ((out.errors@.len() == 0 && options.destination_is_initially_empty
            && no_skips(old(index).entries@) && distinct_dests(
            old(index).entries@,
            root@,
            old(disk).ignore_case,
        )) ==> occupied_collide(
            old(index).entries@,
            old(index).entries@.len() as int,
            *old(disk),
            root@,
            options,
            out.collisions@,
        )),
{
    let ghost orig = old(index).entries@;
    let ghost d0 = *old(disk);
    let ghost ic = old(disk).ignore_case;
    let mut collisions: Vec<Collision> = Vec::new();
    let mut errors: Vec<RecordedError> = Vec::new();
    let ghost mut wits: Seq<int> = Seq::empty();
    let mut i: usize = 0;
    proof {
        lemma_occupied_empty(orig, d0, root@, options, collisions@);
        lemma_dup_empty(orig, root@, ic, options, collisions@, d0);
        lemma_order_empty(orig, collisions@, wits);
    }
    while i < index.entries.len()
        invariant
            0 <= i <= orig.len(),
            index.entries@.len() == orig.len(),
            disk.wf(),
            same_disk_config(d0, *disk),
            forall|t: int| i <= t < orig.len() ==> index.entries@[t] == orig[t],
            skips_untouched(orig, index.entries@),
            same_identity(orig, index.entries@),
            disk_monotone(d0, *disk),
            disk_frame(d0, *disk, orig, i as int, root@, ic),
            collisions_sound(collisions@, orig, i as int),
            collisions_in_order(collisions@, orig, wits),
            forall|c: int| 0 <= c < wits.len() ==> #[trigger] wits[c] < i,
            (no_skips(orig) && errors@.len() == 0) ==> keys_occupied(
                orig,
                i as int,
                root@,
                ic,
                *disk,
            ),
            (errors@.len() == 0 && options.destination_is_initially_empty && no_skips(orig))
                ==> duplicates_collide(orig, i as int, root@, ic, options, collisions@),
            clean_walk(orig, blobs.pairs@, root@, d0) ==> (collisions@.len() == 0
                && errors@.len() == 0 && forall|t: int|
                i <= t < orig.len() ==> !blocked_prefix(
                    *disk,
                    dest_of(root@, (#[trigger] orig[t]).path@),
                ) && disk.at(dest_of(root@, orig[t].path@)) is None),
            distinct_dests(orig, root@, ic) ==> collision_paths_distinct(collisions@),
            (errors@.len() == 0 && options.destination_is_initially_empty && no_skips(orig)
                && distinct_dests(orig, root@, ic)) ==> occupied_collide(
                orig,
                i as int,
                d0,
                root@,
                options,
                collisions@,
            ),
            (collisions@.len() == 0 && errors@.len() == 0 && no_skips(orig) && distinct_dests(
                orig,
                root@,
                ic,
            )) ==> all_placed(orig, index.entries@, i as int, blobs.pairs@, root@, options, *disk),
        decreases orig.len() - i,
    {
        if index.entries[i].skip_worktree {
            proof {
                lemma_frame_grow(d0, *disk, orig, i as int, root@, ic);
                assert(no_skips(orig) ==> false);
            }
            i = i + 1;
            continue ;
        }
        let ghost pre_entries = index.entries@;
        let ghost dpre = *disk;
        let mut e = index.entries.remove(i);
        proof {
            assert(e == orig[i as int]);
        }
        let res = checkout_entry(&e, root, blobs, options, disk);
        let ghost dest = dest_of(root@, orig[i as int].path@);
        let ghost key = fold_seq(dest, ic);
        proof {
            assert(dpre.key_of(dest) == key);
            assert(key == entry_key(root@, orig[i as int], ic));
            lemma_step_frames(d0, dpre, *disk, orig, i as int, root@, ic);
            if clean_walk(orig, blobs.pairs@, root@, d0) {
                // Nothing about a clean entry can fail: every error arm of
                // the per-entry contract contradicts its cleanness or the
                // still-free destination.
                assert(entry_clean(orig[i as int], blobs.pairs@, root@, d0));
                assert(!blocked_prefix(dpre, dest) && dpre.at(dest) is None);
                match &res {
                    Ok(_) => {},
                    Err(err2) => {
                        match err2 {
                            Error::IllformedUtf8 { .. } => {
                                assert(false);
                            },
                            Error::Time => {
                                assert(dpre.now_secs == d0.now_secs);
                                assert(false);
                            },
                            Error::ObjectNotFound { .. } => {
                                assert(false);
                            },
                            Error::Unsupported { .. } => {
                                assert(false);
                            },
                            Error::Io { .. } => {
                                assert(false);
                            },
                        }
                    },
                }
                assert(res is Ok);
            }
        }
        match res {
            Ok(st) => {
                e.stat = st;
                index.entries.insert(i, e);
                proof {
                    assert(index.entries@ =~= pre_entries.update(i as int, e));
                    if collisions@.len() == 0 && errors@.len() == 0 && no_skips(orig)
                        && distinct_dests(orig, root@, ic) {
                        assert(disk.at(dest) == disk.at_key(key));
                        assert(placed(
                            orig[i as int],
                            index.entries@[i as int],
                            blobs.pairs@,
                            root@,
                            options,
                            *disk,
                        ));
                        lemma_step_placed(
                            dpre,
                            *disk,
                            orig,
                            pre_entries,
                            index.entries@,
                            i as int,
                            blobs.pairs@,
                            root@,
                            ic,
                            options,
                        );
                    }
                    if errors@.len() == 0 && options.destination_is_initially_empty && no_skips(
                        orig,
                    ) && distinct_dests(orig, root@, ic) {
                        if wants_exclusive(orig[i as int].mode, options) && d0.at(dest) is Some {
                            assert(d0.at(dest) == d0.at_key(key));
                            assert(dpre.at_key(key) is Some);
                            assert(dpre.at(dest) is Some);
                            assert(false);
                        }
                        lemma_occupied_keep(collisions@, orig, i as int, d0, root@, options);
                    }
                    if clean_walk(orig, blobs.pairs@, root@, d0) {
                        lemma_clean_step(dpre, *disk, orig, i as int, root@, ic);
                    }
                    if no_skips(orig) && errors@.len() == 0 {
                        assert(disk.at(dest) == disk.at_key(key));
                        lemma_occ_step(dpre, *disk, orig, i as int, root@, ic);
                    }
                    if errors@.len() == 0 && options.destination_is_initially_empty && no_skips(
                        orig,
                    ) {
                        if wants_exclusive(orig[i as int].mode, options) && has_earlier_twin(
                            orig,
                            i as int,
                            root@,
                            ic,
                        ) {
                            lemma_occ_twin(dpre, orig, i as int, root@, ic);
                            assert(dpre.at(dest) == dpre.at_key(key));
                            assert(false);
                        }
                        lemma_dup_keep(collisions@, orig, i as int, root@, ic, options);
                    }
                }
            },
            Err(err) => {
                let coll = match &err {
                    Error::Io { kind, raw_os } => is_collision(*kind, *raw_os, disk.windows),
                    _ => false,
                };
                if coll {
                    let kind = match &err {
                        Error::Io { kind, .. } => *kind,
                        _ => IoErrorKind::Other,
                    };
                    let ghost old_cols = collisions@;
                    collisions.push(Collision { path: copy_bytes(&e.path), error_kind: kind });
                    index.entries.insert(i, e);
                    proof {
                        assert(index.entries@ =~= pre_entries.update(i as int, e));
                        assert(index.entries@ =~= pre_entries);
                        assert(collisions@.last().path@ == orig[i as int].path@);
                        let ghost w_old = wits;
                        wits = wits.push(i as int);
                        lemma_order_push(old_cols, collisions@, orig, w_old, wits, i as int);
                        lemma_sound_push(old_cols, collisions@, orig, i as int);
                        if distinct_dests(orig, root@, ic) {
                            lemma_distinct_push(
                                old_cols,
                                collisions@,
                                orig,
                                i as int,
                                root@,
                                ic,
                            );
                        }
                        if errors@.len() == 0 && options.destination_is_initially_empty
                            && no_skips(orig) && distinct_dests(orig, root@, ic) {
                            if wants_exclusive(orig[i as int].mode, options) && d0.at(
                                dest,
                            ) is Some {
                                assert(d0.at(dest) == d0.at_key(key));
                                assert(dpre.at_key(key) is Some);
                                assert(dpre.at(dest) is Some);
                                assert(kind == IoErrorKind::AlreadyExists);
                            }
                            lemma_occupied_push(
                                old_cols,
                                collisions@,
                                orig,
                                i as int,
                                d0,
                                root@,
                                options,
                            );
                        }
                        if no_skips(orig) && errors@.len() == 0 {
                            assert(dpre.at(dest) == dpre.at_key(key));
                            lemma_occ_step(dpre, *disk, orig, i as int, root@, ic);
                        }
                        if errors@.len() == 0 && options.destination_is_initially_empty
                            && no_skips(orig) {
                            if wants_exclusive(orig[i as int].mode, options) && has_earlier_twin(
                                orig,
                                i as int,
                                root@,
                                ic,
                            ) {
                                lemma_occ_twin(dpre, orig, i as int, root@, ic);
                                assert(dpre.at(dest) == dpre.at_key(key));
                                assert(kind == IoErrorKind::AlreadyExists);
                            }
                            lemma_dup_push(
                                old_cols,
                                collisions@,
                                orig,
                                i as int,
                                root@,
                                ic,
                                options,
                            );
                        }
                    }
                } else if options.keep_going {
                    errors.push(RecordedError { path: copy_bytes(&e.path), error: err });
                    index.entries.insert(i, e);
                    proof {
                        assert(index.entries@ =~= pre_entries.update(i as int, e));
                        assert(index.entries@ =~= pre_entries);
                    }
                } else {
                    index.entries.insert(i, e);
                    proof {
                        assert(index.entries@ =~= pre_entries.update(i as int, e));
                        assert(index.entries@ =~= pre_entries);
                        assert(!orig[i as int].skip_worktree);
                        match &err {
                            Error::Time => {
                                assert(dpre.now_secs == d0.now_secs);
                            },
                            Error::Io { kind, raw_os } => {
                                assert(!spec_is_collision(*kind, *raw_os, d0.windows));
                            },
                            _ => {},
                        }
                        assert(entry_error_matches(
                            orig[i as int],
                            blobs.pairs@,
                            root@,
                            d0,
                            err,
                        ));
                    }
                    return Err(err);
                }
            },
        }
        i = i + 1;
    }
    proof {
        assert(collisions_ordered(collisions@, orig)) by {
            assert(collisions_in_order(collisions@, orig, wits));
        }
    }
    Ok(Outcome { collisions, errors })
}

} // verus!
