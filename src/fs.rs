use vstd::prelude::*;

use crate::bytes::{concat_bytes, copy_bytes};
use crate::inode::{InodeError, InodeKind, InodeStat, LookedUp, Superblock, is_dir_prefix, DOT, SLASH};
use crate::prefetch::{PrefetchGetObject, RangeRequest, ReadStep};
use crate::readdir::{ListPage, ListRequest, ReaddirHandle, ReaddirStep, page_children};

verus! {

/// Inode number of the mount root.
pub const FUSE_ROOT_INODE: u64 = 1;

pub const ENOENT: i32 = 2;
pub const EIO: i32 = 5;
pub const EBADF: i32 = 9;
pub const ENOTDIR: i32 = 20;
pub const EINVAL: i32 = 22;
pub const ENFILE: i32 = 23;

pub const DIR_PERMISSIONS: u16 = 0o755;
pub const FILE_PERMISSIONS: u16 = 0o644;
pub const UID: u32 = 501;
pub const GID: u32 = 20;
pub const BLOCK_SIZE: u64 = 4096;

/// The errno reported for an inode error.
pub open spec fn errno_spec(e: InodeError) -> i32 {
    match e {
        InodeError::ClientError(_) => EIO,
        InodeError::FileDoesNotExist => ENOENT,
        InodeError::InodeDoesNotExist(_) => ENOENT,
        InodeError::InvalidFileName(_) => EINVAL,
        InodeError::NotADirectory(_) => ENOTDIR,
    }
}

/// The errno reported for an inode error.
pub fn errno_of(e: &InodeError) -> (r: i32)
    ensures
        r == errno_spec(*e),
{
    match e {
        InodeError::ClientError(_) => EIO,
        InodeError::FileDoesNotExist => ENOENT,
        InodeError::InodeDoesNotExist(_) => ENOENT,
        InodeError::InvalidFileName(_) => EINVAL,
        InodeError::NotADirectory(_) => ENOTDIR,
    }
}

pub struct S3FilesystemConfig {
    /// Time to live of replies, in seconds.
    pub ttl_zero: u64,
    /// Keys asked for per listing page.
    pub readdir_size: usize,
}

impl Default for S3FilesystemConfig {
    fn default() -> (r: Self)
        ensures
            r.ttl_zero == 0,
            r.readdir_size == 100,
    {
        S3FilesystemConfig { ttl_zero: 0, readdir_size: 100 }
    }
}

/// The attributes of an inode as the kernel sees them.
#[derive(Clone, Copy, Debug, PartialEq, Eq, Structural)]
pub struct FileAttributes {
    pub ino: u64,
    pub size: u64,
    pub blocks: u64,
    pub kind: InodeKind,
    pub perm: u16,
    pub nlink: u32,
    pub uid: u32,
    pub gid: u32,
    pub blksize: u32,
}

/// The attributes that `make_attr` gives inode `ino` of the given stat.
pub open spec fn attr_spec(ino: u64, stat: InodeStat) -> FileAttributes {
    FileAttributes {
        ino,
        size: stat.size,
        blocks: (stat.size / BLOCK_SIZE) as u64,
        kind: stat.kind,
        perm: if stat.kind == InodeKind::File { FILE_PERMISSIONS } else { DIR_PERMISSIONS },
        nlink: if stat.kind == InodeKind::File { 1 } else { 2 },
        uid: UID,
        gid: GID,
        blksize: if stat.kind == InodeKind::File { 4096 } else { 512 },
    }
}

pub fn make_attr(ino: u64, stat: &InodeStat) -> (r: FileAttributes)
    ensures
        r == attr_spec(ino, *stat),
{
    let (perm, nlink, blksize) = match stat.kind {
        InodeKind::File => (FILE_PERMISSIONS, 1u32, BLOCK_SIZE as u32),
        InodeKind::Directory => (DIR_PERMISSIONS, 2u32, 512u32),
    };
    FileAttributes {
        ino,
        size: stat.size,
        blocks: stat.size / BLOCK_SIZE,
        kind: stat.kind,
        perm,
        nlink,
        uid: UID,
        gid: GID,
        blksize,
    }
}

/// Reply to a `lookup` call.
#[derive(Debug)]
pub struct Entry {
    pub ttl: u64,
    pub attr: FileAttributes,
    pub generation: u64,
}

/// Reply to a `getattr` call.
#[derive(Debug)]
pub struct Attr {
    pub ttl: u64,
    pub attr: FileAttributes,
}

/// Reply to an `open` or `opendir` call.
#[derive(Clone, Copy, Debug, PartialEq, Eq, Structural)]
pub struct Opened {
    pub fh: u64,
    pub flags: u32,
}

/// What a lookup needs: its reply, or the object store probed first with a
/// HEAD on `file_key` and a one-key listing of `dir_prefix`.
#[derive(Debug)]
pub enum LookupStep {
    Found(Entry),
    Probe { file_key: Vec<u8>, dir_prefix: Vec<u8> },
}

/// How a `readdir` call ended: the reply is full, the listing is over, or a page must be
/// issued and handed to `add_dir_page` before `readdir` is called again.
#[derive(Debug)]
pub enum ReaddirOutcome {
    /// The replier refused an entry; the next call starts with it.
    Full,
    /// Every child has been delivered.
    End,
    NeedPage(ListRequest),
}

/// Reply to a `readdir` call.
pub trait DirectoryReplier {
    /// The entries taken so far: inode, offset, kind and name.
    spec fn added(&self) -> Seq<(u64, i64, InodeKind, Seq<u8>)>;

    /// Whether the last entry offered was refused.
    spec fn refused(&self) -> bool;

    /// Adds an entry to the reply. Returns true if the buffer was full, and
    /// then the entry was not taken.
    fn add(&mut self, ino: u64, offset: i64, kind: InodeKind, name: &[u8]) -> (full: bool)
        ensures
            final(self).refused() == full,
            full ==> final(self).added() == old(self).added(),
            !full ==> final(self).added() == old(self).added().push((ino, offset, kind, name@));
}

/// A reply that takes entries up to a fixed count.
pub struct ReplyBuffer {
    pub capacity: usize,
    pub entries: Vec<(u64, i64, InodeKind, Vec<u8>)>,
    /// Whether the last entry offered was refused.
    pub full: bool,
}

impl ReplyBuffer {
    /// An empty reply with room for `capacity` entries.
    pub fn new(capacity: usize) -> (r: ReplyBuffer)
        ensures
            r.added().len() == 0,
            r.entries@.len() == 0,
            r.capacity == capacity,
            !r.full,
    {
        let r = ReplyBuffer { capacity, entries: Vec::new(), full: false };
        assert(r.added() =~= Seq::<(u64, i64, InodeKind, Seq<u8>)>::empty());
        r
    }
}

impl DirectoryReplier for ReplyBuffer {
    open spec fn added(&self) -> Seq<(u64, i64, InodeKind, Seq<u8>)> {
        self.entries@.map_values(|e: (u64, i64, InodeKind, Vec<u8>)| (e.0, e.1, e.2, e.3@))
    }

    open spec fn refused(&self) -> bool {
        self.full
    }

    fn add(&mut self, ino: u64, offset: i64, kind: InodeKind, name: &[u8]) -> (full: bool)
        ensures
            full == (old(self).entries@.len() >= old(self).capacity),
            final(self).capacity == old(self).capacity,
            final(self).entries@.len() == old(self).entries@.len() + (if full { 0int } else { 1int }),
    {
        if self.entries.len() >= self.capacity {
            self.full = true;
            return true;
        }
        self.full = false;
        let mut v: Vec<u8> = Vec::new();
        let mut i: usize = 0;
        while i < name.len()
            invariant
                i <= name@.len(),
                v@ == name@.subrange(0, i as int),
            decreases name@.len() - i,
        {
            v.push(name[i]);
            i = i + 1;
            assert(v@ =~= name@.subrange(0, i as int));
        }
        assert(v@ =~= name@);
        let ghost before = self.entries@;
        self.entries.push((ino, offset, kind, v));
        assert(self.added() =~= before.map_values(|e: (u64, i64, InodeKind, Vec<u8>)| (e.0, e.1, e.2, e.3@)).push(
            (ino, offset, kind, name@),
        ));
        false
    }
}

/// An open directory: its cursor and the offset reached.
pub struct DirHandle {
    ino: u64,
    handle: ReaddirHandle,
    offset: i64,
    delivered: Ghost<Seq<(u64, i64, InodeKind, Seq<u8>)>>,
}

impl DirHandle {
    pub closed spec fn offset_spec(&self) -> i64 {
        self.offset
    }

    pub closed spec fn dir_ino(&self) -> u64 {
        self.ino
    }

    /// The entries delivered so far; the one at index `k` has offset `k + 1`.
    pub closed spec fn delivered_entries(&self) -> Seq<(u64, i64, InodeKind, Seq<u8>)> {
        self.delivered@
    }

    /// Offsets count delivered entries: `.`, `..`, then each yielded child.
    pub open spec fn wf(&self) -> bool {
        let d = self.delivered_entries();
        let y = self.cursor().yielded_names();
        &&& self.cursor().wf()
        &&& self.offset_spec() >= 0
        &&& d.len() == self.offset_spec()
        &&& self.offset_spec() >= 2 ==> y.len() == self.offset_spec() - 2
        &&& self.offset_spec() < 2 ==> y.len() == 0 && self.cursor().readded_entry() is None
        &&& forall|k: int| 2 <= k < self.offset_spec() ==> (#[trigger] d[k]).3 == y[k - 2]
    }

    pub closed spec fn cursor(&self) -> ReaddirHandle {
        self.handle
    }

    /// The offset of the last entry delivered; 0 before any.
    pub fn offset(&self) -> (r: i64)
        ensures
            r == self.offset_spec(),
    {
        self.offset
    }

    /// Moves past one delivered entry.
    pub fn next_offset(&mut self)
        requires
            old(self).offset_spec() < i64::MAX,
        ensures
            final(self).offset_spec() == old(self).offset_spec() + 1,
            final(self).delivered_entries() == old(self).delivered_entries(),
            final(self).dir_ino() == old(self).dir_ino(),
            final(self).cursor() == old(self).cursor(),
    {
        self.offset = self.offset + 1;
    }
}

#[derive(Debug)]
struct FileHandle {
    ino: u64,
    full_key: Vec<u8>,
    object_size: u64,
    request: Option<PrefetchGetObject>,
}

pub struct S3Filesystem {
    config: S3FilesystemConfig,
    superblock: Superblock,
    bucket: String,
    prefix: Vec<u8>,
    next_handle: u64,
    dir_handles: Vec<(u64, DirHandle)>,
    file_handles: Vec<(u64, FileHandle)>,
}

/// The attributes reported for inode `ino` of `sb`.
pub open spec fn inode_attr(sb: Superblock, ino: u64) -> FileAttributes {
    attr_spec(ino, InodeStat { size: sb.rec(ino).size, kind: sb.rec(ino).kind })
}

/// Entry `k` of `d` is right for a listing of directory `dir` (whose cursor
/// is `c`) asked for with `parent`: `.` first, then `..`, then the yielded
/// children with their inodes and recorded kinds in `sb`.
pub open spec fn entry_ok(
    d: Seq<(u64, i64, InodeKind, Seq<u8>)>,
    c: ReaddirHandle,
    sb: Superblock,
    parent: u64,
    k: int,
) -> bool {
    &&& d[k].1 == k + 1
    &&& k == 0 ==> d[k] == (parent, 1i64, InodeKind::Directory, seq![DOT])
    &&& k == 1 ==> d[k] == (c.parent_ino(), 2i64, InodeKind::Directory, seq![DOT, DOT])
    &&& k >= 2 ==> d[k].3 == c.yielded_names()[k - 2] && sb.child(c.dir_ino(), d[k].3, d[k].0)
        && sb.rec(d[k].0).kind == d[k].2
}

/// The pushed-back entry of `c` is a child of its directory, of its recorded kind.
pub open spec fn readded_ok(c: ReaddirHandle, sb: Superblock) -> bool {
    c.readded_entry() matches Some(e) ==> sb.child(c.dir_ino(), e.name@, e.ino) && sb.rec(e.ino).kind == e.kind
}

proof fn lemma_readded_ok_stable(c: ReaddirHandle, a: Superblock, b: Superblock)
    requires
        a.wf(),
        b.wf(),
        a.stable(&b),
        readded_ok(c, a),
    ensures
        readded_ok(c, b),
{
    if let Some(e) = c.readded_entry() {
        crate::inode::lemma_lookup_stable(&a, &b, c.dir_ino(), e.name@, e.ino);
        crate::inode::lemma_kind_stable(&a, &b, e.ino);
    }
}

/// Serves a `readdir` on open directory `h` whose offset the caller has
/// matched: `.` and `..` first, then the children, until the replier is full.
fn fill_dir<R: DirectoryReplier>(h: &mut DirHandle, sb: &mut Superblock, parent: u64, reply: &mut R) -> (r: ReaddirOutcome)
    requires
        old(h).wf(),
        old(sb).wf(),
        old(sb).is_dir(old(h).handle.dir_ino()),
        readded_ok(old(h).handle, *old(sb)),
        !old(reply).refused(),
    ensures
        final(h).wf(),
        !(r is Full) ==> !final(reply).refused(),
        final(h).ino == old(h).ino,
        final(h).handle.dir_ino() == old(h).handle.dir_ino(),
        final(h).handle.parent_ino() == old(h).handle.parent_ino(),
        final(h).handle.dir_prefix() == old(h).handle.dir_prefix(),
        final(h).handle.page_len() == old(h).handle.page_len(),
        final(h).handle.listed_names() == old(h).handle.listed_names(),
        final(sb).wf(),
        old(sb).stable(&*final(sb)),
        readded_ok(final(h).handle, *final(sb)),
        final(h).offset >= old(h).offset,
        final(h).delivered@.subrange(0, old(h).offset as int) == old(h).delivered@,
        final(h).handle.yielded_names().subrange(0, old(h).handle.yielded_names().len() as int)
            == old(h).handle.yielded_names(),
        final(reply).added() == old(reply).added() + final(h).delivered@.subrange(old(h).offset as int, final(h).offset as int),
        forall|k: int| old(h).offset <= k < final(h).offset ==> entry_ok(final(h).delivered@, final(h).handle, *final(sb), parent, k),
        final(h).handle.is_finished() == old(h).handle.is_finished(),
        final(h).handle.token() == old(h).handle.token(),
        r is Full ==> final(reply).refused() || final(h).offset == i64::MAX,
        !(r is Full) ==> final(h).handle.readded_entry() is None && final(h).handle.yielded_names()
            == final(h).handle.listed_names(),
        r is End ==> final(h).handle.is_finished(),
        r is NeedPage ==> !final(h).handle.is_finished(),
        r matches ReaddirOutcome::NeedPage(req) ==> req.prefix@ == old(h).handle.dir_prefix() && req.max_keys
            == old(h).handle.page_len() && (match req.continuation {
            Some(c) => Some(c@),
            None => None,
        }) == final(h).handle.token(),
{
    let ghost o = h.offset as int;
    let ghost y0 = h.handle.yielded_names();
    let ghost a0 = reply.added();
    assert(h.delivered@.subrange(0, o) =~= h.delivered@);
    assert(y0.subrange(0, y0.len() as int) =~= y0);
    assert(h.delivered@.subrange(o, o) =~= Seq::<(u64, i64, InodeKind, Seq<u8>)>::empty());
    if h.offset < 1 {
        let mut dot: Vec<u8> = Vec::new();
        dot.push(DOT);
        assert(dot@ =~= seq![DOT]);
        if reply.add(parent, h.offset + 1, InodeKind::Directory, dot.as_slice()) {
            return ReaddirOutcome::Full;
        }
        h.delivered = Ghost(h.delivered@.push((parent, 1i64, InodeKind::Directory, seq![DOT])));
        h.offset = h.offset + 1;
        assert(h.delivered@.subrange(0, o) =~= old(h).delivered@);
        assert(h.delivered@.subrange(o, h.offset as int) =~= seq![(parent, 1i64, InodeKind::Directory, seq![DOT])]);
        assert(reply.added() =~= a0 + h.delivered@.subrange(o, h.offset as int));
    }
    if h.offset < 2 {
        let ghost before = h.delivered@;
        let ghost a1 = reply.added();
        assert(a1 == a0 + before.subrange(o, h.offset as int)) by {
            if o == h.offset {
                assert(a1 =~= a0 + before.subrange(o, h.offset as int));
            }
        }
        let mut dotdot: Vec<u8> = Vec::new();
        dotdot.push(DOT);
        dotdot.push(DOT);
        assert(dotdot@ =~= seq![DOT, DOT]);
        let up = h.handle.parent();
        if reply.add(up, h.offset + 1, InodeKind::Directory, dotdot.as_slice()) {
            assert(h.delivered@.subrange(o, h.offset as int) =~= before.subrange(o, h.offset as int));
            return ReaddirOutcome::Full;
        }
        h.delivered = Ghost(h.delivered@.push((up, 2i64, InodeKind::Directory, seq![DOT, DOT])));
        h.offset = h.offset + 1;
        assert(h.delivered@.subrange(0, o) =~= old(h).delivered@);
        assert(h.delivered@.subrange(o, h.offset as int) =~= before.subrange(o, 1).push((up, 2i64, InodeKind::Directory, seq![DOT, DOT])));
        assert(reply.added() =~= a0 + h.delivered@.subrange(o, h.offset as int));
    }
    let ghost sb0 = *sb;
    loop
        invariant
            h.wf(),
            o == old(h).offset as int,
            o >= 0,
            y0 == old(h).handle.yielded_names(),
            a0 == old(reply).added(),
            h.offset >= 2,
            h.offset >= o,
            h.ino == old(h).ino,
            h.handle.dir_ino() == old(h).handle.dir_ino(),
            h.handle.parent_ino() == old(h).handle.parent_ino(),
            h.handle.dir_prefix() == old(h).handle.dir_prefix(),
            h.handle.page_len() == old(h).handle.page_len(),
            h.handle.listed_names() == old(h).handle.listed_names(),
            h.handle.token() == old(h).handle.token(),
            h.handle.is_finished() == old(h).handle.is_finished(),
            !reply.refused(),
            h.handle.readded_entry() == old(h).handle.readded_entry() || h.handle.readded_entry() is None,
            sb.wf(),
            sb.is_dir(h.handle.dir_ino()),
            sb0.stable(&*sb),
            old(sb).stable(&sb0),
            readded_ok(h.handle, *sb),
            h.delivered@.subrange(0, o) == old(h).delivered@,
            h.handle.yielded_names().len() >= y0.len(),
            h.handle.yielded_names().subrange(0, y0.len() as int) == y0,
            reply.added() == a0 + h.delivered@.subrange(o, h.offset as int),
            forall|k: int| o <= k < h.offset ==> entry_ok(h.delivered@, h.handle, *sb, parent, k),
        decreases
            h.handle.pending_names().len() + (if h.handle.readded_entry() is Some { 1int } else { 0int }),
    {
        if h.offset == i64::MAX {
            proof { crate::inode::lemma_stable_trans(&*old(sb), &sb0, &*sb); }
            return ReaddirOutcome::Full;
        }
        let ghost sb1 = *sb;
        let ghost h1 = h.handle;
        let ghost d1 = h.delivered@;
        let step = h.handle.next(sb);
        proof {
            crate::inode::lemma_stable_trans(&sb0, &sb1, &*sb);
            crate::inode::lemma_kind_stable(&sb1, &*sb, h.handle.dir_ino());
            crate::inode::lemma_stable_trans(&*old(sb), &sb0, &*sb);
            assert forall|k: int| o <= k < h.offset implies entry_ok(h.delivered@, h.handle, *sb, parent, k) by {
                assert(entry_ok(d1, h1, sb1, parent, k));
                if k >= 2 {
                    assert(h.handle.yielded_names()[k - 2] == h1.yielded_names()[k - 2]);
                    crate::inode::lemma_lookup_stable(&sb1, &*sb, h1.dir_ino(), d1[k].3, d1[k].0);
                    crate::inode::lemma_kind_stable(&sb1, &*sb, d1[k].0);
                }
            }
            assert forall|k: int| 2 <= k < h.offset implies (#[trigger] h.delivered@[k]).3 == h.handle.yielded_names()[k - 2] by {
                assert(h1.yielded_names()[k - 2] == d1[k].3);
                assert(h.handle.yielded_names()[k - 2] == h1.yielded_names()[k - 2]);
            }
            assert(h.handle.yielded_names().subrange(0, y0.len() as int) =~= y0) by {
                assert forall|k: int| 0 <= k < y0.len() implies h.handle.yielded_names()[k] == y0[k] by {
                    assert(h1.yielded_names().subrange(0, y0.len() as int)[k] == y0[k]);
                }
            }
            if let Some(e) = h1.readded_entry() {
                crate::inode::lemma_lookup_stable(&sb1, &*sb, h1.dir_ino(), e.name@, e.ino);
            }
        }
        match step {
            ReaddirStep::End => {
                return ReaddirOutcome::End;
            },
            ReaddirStep::NeedPage(req) => {
                return ReaddirOutcome::NeedPage(req);
            },
            ReaddirStep::Entry(e) => {
                proof {
                    if let Some(e1) = h1.readded_entry() {
                        crate::inode::lemma_kind_stable(&sb1, &*sb, e1.ino);
                    }
                }
                let ghost entry = (e.ino, (h.offset + 1) as i64, e.kind, e.name@);
                let ghost h2 = h.handle;
                let ghost ra = reply.added();
                assert(d1 == h.delivered@);
                assert(d1.len() == h.offset);
                assert(ra == a0 + d1.subrange(o, h.offset as int));
                if reply.add(e.ino, h.offset + 1, e.kind, e.name.as_slice()) {
                    h.handle.readd(e);
                    proof {
                        assert(h.handle.yielded_names() =~= h1.yielded_names());
                        assert(h.handle.yielded_names().subrange(0, y0.len() as int) =~= y0) by {
                            assert forall|k: int| 0 <= k < y0.len() implies h.handle.yielded_names()[k] == y0[k] by {
                                assert(h1.yielded_names().subrange(0, y0.len() as int)[k] == y0[k]);
                            }
                        }
                        assert forall|k: int| o <= k < h.offset implies entry_ok(h.delivered@, h.handle, *sb, parent, k) by {
                            assert(entry_ok(h.delivered@, h2, *sb, parent, k));
                        }
                    }
                    return ReaddirOutcome::Full;
                }
                let ghost before = h.delivered@;
                h.delivered = Ghost(h.delivered@.push(entry));
                h.offset = h.offset + 1;
                proof {
                    assert(reply.added() == ra.push(entry));
                    assert(before.len() == h.offset - 1);
                    assert(h.delivered@ == before.push(entry));
                    assert(o <= h.offset - 1);
                    assert forall|k: int| 0 <= k < h.offset - o implies #[trigger] h.delivered@.subrange(o, h.offset as int)[k]
                        == before.subrange(o, h.offset - 1).push(entry)[k] by {
                        let nd = before.push(entry);
                        if k < h.offset - 1 - o {
                            assert(0 <= o + k < before.len());
                            assert(nd[o + k] == before[o + k]);
                        } else {
                            assert(nd[before.len() as int] == entry);
                        }
                    }
                    assert(h.delivered@.subrange(o, h.offset as int) =~= before.subrange(o, h.offset - 1).push(entry));
                    assert(reply.added() =~= a0 + h.delivered@.subrange(o, h.offset as int));
                    assert(h.delivered@.subrange(0, o) =~= before.subrange(0, o));
                    assert(h.handle.yielded_names() == h1.yielded_names().push(e.name@));
                    assert(sb.child(h.handle.dir_ino(), e.name@, e.ino) && sb.rec(e.ino).kind == e.kind) by {
                        if let Some(e1) = h1.readded_entry() {
                            assert(e1 == e);
                        }
                    }
                    assert forall|k: int| o <= k < h.offset implies entry_ok(h.delivered@, h.handle, *sb, parent, k) by {
                        if k < h.offset - 1 {
                            assert(entry_ok(before, h.handle, *sb, parent, k));
                            assert(h.delivered@[k] == before[k]);
                        } else {
                            assert(h.delivered@[k] == entry);
                            assert(h.handle.yielded_names()[k - 2] == e.name@);
                        }
                    }
                    assert forall|k: int| 2 <= k < h.offset implies (#[trigger] h.delivered@[k]).3 == h.handle.yielded_names()[k - 2] by {
                        if k < h.offset - 1 {
                            assert(h.delivered@[k] == before[k]);
                        }
                    }
                }
            },
        }
    }
}

impl S3Filesystem {
    pub closed spec fn sb(&self) -> Superblock {
        self.superblock
    }

    pub closed spec fn handle_counter(&self) -> u64 {
        self.next_handle
    }

    pub closed spec fn ttl(&self) -> u64 {
        self.config.ttl_zero
    }

    pub closed spec fn has_file(&self, fh: u64) -> bool {
        exists|i: int| 0 <= i < self.file_handles@.len() && (#[trigger] self.file_handles@[i]).0 == fh
    }

    pub closed spec fn has_dir(&self, fh: u64) -> bool {
        exists|i: int| 0 <= i < self.dir_handles@.len() && (#[trigger] self.dir_handles@[i]).0 == fh
    }

    /// Where open file `fh` stands in the table.
    pub closed spec fn file_slot(&self, fh: u64) -> int {
        choose|i: int| 0 <= i < self.file_handles@.len() && (#[trigger] self.file_handles@[i]).0 == fh
    }

    /// The stream of open file `fh`, once it has been read.
    pub closed spec fn stream(&self, fh: u64) -> Option<PrefetchGetObject> {
        self.file_handles@[self.file_slot(fh)].1.request
    }

    /// The object size recorded when `fh` was opened.
    pub closed spec fn file_size(&self, fh: u64) -> u64 {
        self.file_handles@[self.file_slot(fh)].1.object_size
    }

    /// The object key of open file `fh`.
    pub closed spec fn file_key_spec(&self, fh: u64) -> Seq<u8> {
        self.file_handles@[self.file_slot(fh)].1.full_key@
    }

    /// Where open directory `fh` stands in the table.
    pub closed spec fn dir_slot(&self, fh: u64) -> int {
        choose|i: int| 0 <= i < self.dir_handles@.len() && (#[trigger] self.dir_handles@[i]).0 == fh
    }

    /// Open directory `fh`.
    pub closed spec fn dir_handle(&self, fh: u64) -> DirHandle {
        self.dir_handles@[self.dir_slot(fh)].1
    }

    /// The offset reached by open directory `fh`.
    pub open spec fn dir_offset(&self, fh: u64) -> i64 {
        self.dir_handle(fh).offset_spec()
    }

    pub closed spec fn readdir_size(&self) -> usize {
        self.config.readdir_size
    }

    pub closed spec fn wf(&self) -> bool {
        &&& self.superblock.wf()
        &&& self.next_handle >= 1
        &&& forall|i: int| 0 <= i < self.file_handles@.len() ==> {
            let f = #[trigger] self.file_handles@[i];
            &&& f.0 < self.next_handle
            &&& (f.1.request matches Some(p) ==> p.wf() && p.size_of() == f.1.object_size)
        }
        &&& forall|i: int, j: int| 0 <= i < j < self.file_handles@.len() ==> (#[trigger] self.file_handles@[i]).0 != (#[trigger] self.file_handles@[j]).0
        &&& forall|i: int| 0 <= i < self.dir_handles@.len() ==> {
            let d = #[trigger] self.dir_handles@[i];
            &&& d.0 < self.next_handle
            &&& d.1.wf()
            &&& self.superblock.is_dir(d.1.handle.dir_ino())
            &&& readded_ok(d.1.handle, self.superblock)
        }
        &&& forall|i: int, j: int| 0 <= i < j < self.dir_handles@.len() ==> (#[trigger] self.dir_handles@[i]).0 != (#[trigger] self.dir_handles@[j]).0
    }

    /// Every open file of `self` other than `fh` is open in `next` with the
    /// same key, size and stream.
    pub open spec fn files_kept(&self, next: &Self, fh: u64) -> bool {
        forall|g: u64|
            g != fh && #[trigger] self.has_file(g) ==> next.has_file(g) && next.stream(g) == self.stream(g)
                && next.file_size(g) == self.file_size(g) && next.file_key_spec(g) == self.file_key_spec(g)
    }

    /// Every open directory of `self` other than `fh` is open in `next`,
    /// unchanged.
    pub open spec fn dirs_kept(&self, next: &Self, fh: u64) -> bool {
        forall|g: u64| g != fh && #[trigger] self.has_dir(g) ==> next.has_dir(g) && next.dir_handle(g) == self.dir_handle(g)
    }

    proof fn lemma_files_kept(a: &Self, b: &Self, fh: u64)
        requires
            forall|i: int, j: int| 0 <= i < j < b.file_handles@.len() ==> (#[trigger] b.file_handles@[i]).0 != (#[trigger] b.file_handles@[j]).0,
            forall|j: int| 0 <= j < a.file_handles@.len() && a.file_handles@[j].0 != fh ==> exists|k: int|
                0 <= k < b.file_handles@.len() && b.file_handles@[k] == #[trigger] a.file_handles@[j],
        ensures
            a.files_kept(b, fh),
    {
        assert forall|g: u64| g != fh && #[trigger] a.has_file(g) implies b.has_file(g) && b.stream(g) == a.stream(g)
            && b.file_size(g) == a.file_size(g) && b.file_key_spec(g) == a.file_key_spec(g) by {
            let j = a.file_slot(g);
            let k = choose|k: int| 0 <= k < b.file_handles@.len() && b.file_handles@[k] == #[trigger] a.file_handles@[j];
            assert(b.file_handles@[k].0 == g);
            let k2 = b.file_slot(g);
            if k2 < k {
                assert(b.file_handles@[k2].0 != b.file_handles@[k].0);
            } else if k < k2 {
                assert(b.file_handles@[k].0 != b.file_handles@[k2].0);
            }
        }
    }

    proof fn lemma_dirs_kept(a: &Self, b: &Self, fh: u64)
        requires
            forall|i: int, j: int| 0 <= i < j < b.dir_handles@.len() ==> (#[trigger] b.dir_handles@[i]).0 != (#[trigger] b.dir_handles@[j]).0,
            forall|j: int| 0 <= j < a.dir_handles@.len() && a.dir_handles@[j].0 != fh ==> exists|k: int|
                0 <= k < b.dir_handles@.len() && b.dir_handles@[k] == #[trigger] a.dir_handles@[j],
        ensures
            a.dirs_kept(b, fh),
    {
        assert forall|g: u64| g != fh && #[trigger] a.has_dir(g) implies b.has_dir(g) && b.dir_handle(g) == a.dir_handle(g) by {
            let j = a.dir_slot(g);
            let k = choose|k: int| 0 <= k < b.dir_handles@.len() && b.dir_handles@[k] == #[trigger] a.dir_handles@[j];
            assert(b.dir_handles@[k].0 == g);
            let k2 = b.dir_slot(g);
            if k2 < k {
                assert(b.dir_handles@[k2].0 != b.dir_handles@[k].0);
            } else if k < k2 {
                assert(b.dir_handles@[k].0 != b.dir_handles@[k2].0);
            }
        }
    }

    /// Tables whose entries stay at their places, but for those of handle
    /// `fh`, keep every other handle.
    proof fn lemma_kept_in_place(a: &Self, b: &Self, fh: u64)
        requires
            b.file_handles@.len() == a.file_handles@.len(),
            b.dir_handles@.len() == a.dir_handles@.len(),
            forall|j: int| 0 <= j < a.file_handles@.len() && a.file_handles@[j].0 != fh ==> b.file_handles@[j] == a.file_handles@[j],
            forall|j: int| 0 <= j < a.dir_handles@.len() && a.dir_handles@[j].0 != fh ==> b.dir_handles@[j] == a.dir_handles@[j],
            forall|i: int, j: int| 0 <= i < j < b.file_handles@.len() ==> (#[trigger] b.file_handles@[i]).0 != (#[trigger] b.file_handles@[j]).0,
            forall|i: int, j: int| 0 <= i < j < b.dir_handles@.len() ==> (#[trigger] b.dir_handles@[i]).0 != (#[trigger] b.dir_handles@[j]).0,
        ensures
            a.files_kept(b, fh),
            a.dirs_kept(b, fh),
    {
        assert forall|j: int| 0 <= j < a.file_handles@.len() && a.file_handles@[j].0 != fh implies exists|k: int|
            0 <= k < b.file_handles@.len() && b.file_handles@[k] == #[trigger] a.file_handles@[j] by {
            assert(b.file_handles@[j] == a.file_handles@[j]);
        }
        assert forall|j: int| 0 <= j < a.dir_handles@.len() && a.dir_handles@[j].0 != fh implies exists|k: int|
            0 <= k < b.dir_handles@.len() && b.dir_handles@[k] == #[trigger] a.dir_handles@[j] by {
            assert(b.dir_handles@[j] == a.dir_handles@[j]);
        }
        Self::lemma_files_kept(a, b, fh);
        Self::lemma_dirs_kept(a, b, fh);
    }

    /// What a well-formed filesystem guarantees of its parts: the inode table
    /// is well formed with the root a directory, each stream is well formed
    /// and has its handle's size, each open directory is well formed, lists a
    /// directory of the table, and pushed back a child of that directory.
    pub proof fn lemma_wf_parts(&self)
        requires
            self.wf(),
        ensures
            self.sb().wf(),
            self.sb().is_dir(FUSE_ROOT_INODE),
            self.handle_counter() >= 1,
            forall|fh: u64| #[trigger] self.has_file(fh) ==> fh < self.handle_counter(),
            forall|fh: u64| #[trigger] self.has_dir(fh) ==> fh < self.handle_counter(),
            forall|fh: u64| #[trigger] self.has_file(fh) ==> (self.stream(fh) matches Some(p) ==> p.wf() && p.size_of()
                == self.file_size(fh)),
            forall|fh: u64| #[trigger] self.has_dir(fh) ==> self.dir_handle(fh).wf() && self.sb().is_dir(
                self.dir_handle(fh).cursor().dir_ino(),
            ) && readded_ok(self.dir_handle(fh).cursor(), self.sb()),
    {
        assert forall|fh: u64| #[trigger] self.has_file(fh) implies (self.stream(fh) matches Some(p) ==> p.wf()
            && p.size_of() == self.file_size(fh)) by {
            let i = self.file_slot(fh);
            assert(self.file_handles@[i].0 == fh);
        }
        assert forall|fh: u64| #[trigger] self.has_file(fh) implies fh < self.handle_counter() by {
            let i = self.file_slot(fh);
            assert(self.file_handles@[i].0 == fh);
        }
        assert forall|fh: u64| #[trigger] self.has_dir(fh) implies fh < self.handle_counter() by {
            let i = self.dir_slot(fh);
            assert(self.dir_handles@[i].0 == fh);
        }
        assert forall|fh: u64| #[trigger] self.has_dir(fh) implies self.dir_handle(fh).wf() && self.sb().is_dir(
            self.dir_handle(fh).cursor().dir_ino(),
        ) && readded_ok(self.dir_handle(fh).cursor(), self.sb()) by {
            let i = self.dir_slot(fh);
            assert(self.dir_handles@[i].0 == fh);
        }
    }

    /// A filesystem over `bucket` whose root is the key prefix `prefix`.
    pub fn new(bucket: String, prefix: Vec<u8>, config: S3FilesystemConfig) -> (r: Self)
        requires
            is_dir_prefix(prefix@),
        ensures
            r.wf(),
            r.handle_counter() == 1,
            r.sb().wf(),
            r.sb().is_dir(FUSE_ROOT_INODE),
            r.ttl() == config.ttl_zero,
            r.readdir_size() == config.readdir_size,
            r.sb().count() == 1,
            r.sb().rec(FUSE_ROOT_INODE).full_key@ == prefix@,
            forall|fh: u64| !r.has_file(fh) && !r.has_dir(fh),
    {
        let superblock = Superblock::new(copy_bytes(&prefix));
        S3Filesystem {
            config,
            superblock,
            bucket,
            prefix,
            next_handle: 1,
            dir_handles: Vec::new(),
            file_handles: Vec::new(),
        }
    }

    pub closed spec fn bucket_name(&self) -> Seq<char> {
        self.bucket@
    }

    /// The bucket the filesystem presents.
    pub fn bucket(&self) -> (r: &String)
        ensures
            r@ == self.bucket_name(),
    {
        &self.bucket
    }

    fn find_file(&self, fh: u64) -> (r: Option<usize>)
        ensures
            match r {
                Some(i) => i < self.file_handles@.len() && self.file_handles@[i as int].0 == fh,
                None => !self.has_file(fh),
            },
    {
        let mut i: usize = 0;
        while i < self.file_handles.len()
            invariant
                i <= self.file_handles@.len(),
                forall|j: int| 0 <= j < i ==> (#[trigger] self.file_handles@[j]).0 != fh,
            decreases self.file_handles@.len() - i,
        {
            if self.file_handles[i].0 == fh {
                return Some(i);
            }
            i = i + 1;
        }
        None
    }

    fn find_dir(&self, fh: u64) -> (r: Option<usize>)
        ensures
            match r {
                Some(i) => i < self.dir_handles@.len() && self.dir_handles@[i as int].0 == fh,
                None => !self.has_dir(fh),
            },
    {
        let mut i: usize = 0;
        while i < self.dir_handles.len()
            invariant
                i <= self.dir_handles@.len(),
                forall|j: int| 0 <= j < i ==> (#[trigger] self.dir_handles@[j]).0 != fh,
            decreases self.dir_handles@.len() - i,
        {
            if self.dir_handles[i].0 == fh {
                return Some(i);
            }
            i = i + 1;
        }
        None
    }

    /// The object key that open file `fh` reads, for the range GETs.
    pub fn file_key(&self, fh: u64) -> (r: Option<Vec<u8>>)
        requires
            self.wf(),
        ensures
            !self.has_file(fh) ==> r is None,
            self.has_file(fh) ==> (r matches Some(k) && k@ == self.file_key_spec(fh)),
    {
        match self.find_file(fh) {
            None => None,
            Some(i) => {
                proof {
                    let j = self.file_slot(fh);
                    assert(0 <= j < self.file_handles@.len() && self.file_handles@[j].0 == fh);
                    assert(j == i);
                }
                Some(copy_bytes(&self.file_handles[i].1.full_key))
            },
        }
    }

    /// The offset open directory `fh` has reached.
    pub fn dir_offset_of(&self, fh: u64) -> (r: Option<i64>)
        requires
            self.wf(),
        ensures
            !self.has_dir(fh) ==> r is None,
            self.has_dir(fh) ==> r == Some(self.dir_offset(fh)),
    {
        match self.find_dir(fh) {
            None => None,
            Some(i) => {
                proof {
                    let j = self.dir_slot(fh);
                    assert(0 <= j < self.dir_handles@.len() && self.dir_handles@[j].0 == fh);
                    assert(j == i);
                }
                Some(self.dir_handles[i].1.offset())
            },
        }
    }

    /// Resolves `name` in directory `parent` from what the filesystem knows;
    /// when it does not know the child yet, says what to probe.
    pub fn lookup(&self, parent: u64, name: &Vec<u8>) -> (r: Result<LookupStep, i32>)
        requires
            self.wf(),
        ensures
            !self.sb().has(parent) ==> r == Err::<LookupStep, i32>(ENOENT),
            self.sb().has(parent) && !self.sb().is_dir(parent) ==> r == Err::<LookupStep, i32>(ENOTDIR),
            self.sb().is_dir(parent) && !crate::inode::valid_name(name@) ==> r == Err::<LookupStep, i32>(EINVAL),
            self.sb().is_dir(parent) && crate::inode::valid_name(name@) ==> match r {
                Ok(LookupStep::Found(e)) => self.sb().child(parent, name@, e.attr.ino)
                    && e.attr == inode_attr(self.sb(), e.attr.ino) && e.ttl == self.ttl() && e.generation == 0,
                Ok(LookupStep::Probe { file_key, dir_prefix }) => !self.sb().has_child(parent, name@)
                    && file_key@ == self.sb().key_at(parent) + name@ && dir_prefix@ == file_key@ + seq![SLASH],
                Err(_) => false,
            },
    {
        match self.superblock.lookup_cached(parent, name) {
            Err(e) => Err(errno_of(&e)),
            Ok(Some(l)) => Ok(LookupStep::Found(self.entry_of(&l))),
            Ok(None) => {
                let n = self.superblock.looked_up(parent);
                let file_key = concat_bytes(&n.full_key, name);
                let mut dir_prefix = copy_bytes(&file_key);
                dir_prefix.push(SLASH);
                Ok(LookupStep::Probe { file_key, dir_prefix })
            },
        }
    }

    fn entry_of(&self, l: &LookedUp) -> (e: Entry)
        ensures
            e.attr == attr_spec(l.ino, l.stat),
            e.ttl == self.ttl(),
            e.generation == 0,
    {
        Entry { ttl: self.config.ttl_zero, attr: make_attr(l.ino, &l.stat), generation: 0 }
    }

    /// Finishes a lookup with the outcomes of the probes that `lookup` asked
    /// for: a HEAD on the file key (its size, or `None` when absent) and a
    /// listing of the directory prefix (whether anything lies under it). A name
    /// that is both a file and a directory denotes the directory.
    pub fn lookup_probed(
        &mut self,
        parent: u64,
        name: &Vec<u8>,
        file_probe: Result<Option<u64>, String>,
        dir_probe: Result<bool, String>,
    ) -> (r: Result<Entry, i32>)
        requires
            old(self).wf(),
        ensures
            final(self).wf(),
            old(self).sb().stable(&final(self).sb()),
            final(self).handle_counter() == old(self).handle_counter(),
            !old(self).sb().has(parent) ==> r == Err::<Entry, i32>(ENOENT),
            old(self).sb().has(parent) && !old(self).sb().is_dir(parent) ==> r == Err::<Entry, i32>(ENOTDIR),
            old(self).sb().is_dir(parent) && !crate::inode::valid_name(name@) ==> r == Err::<Entry, i32>(EINVAL),
            r matches Ok(e) ==> final(self).sb().child(parent, name@, e.attr.ino)
                && e.attr == inode_attr(final(self).sb(), e.attr.ino) && e.ttl == old(self).ttl() && e.generation == 0,
            old(self).sb().is_dir(parent) && crate::inode::valid_name(name@) && old(self).sb().has_child(parent, name@)
                ==> (r matches Ok(e) && old(self).sb().child(parent, name@, e.attr.ino)) && final(self).sb().recs() == old(self).sb().recs(),
            old(self).sb().is_dir(parent) && crate::inode::valid_name(name@) && !old(self).sb().has_child(parent, name@)
                && (dir_probe == Ok::<bool, String>(true) || file_probe matches Ok(Some(_))) ==> (r matches Ok(e)
                && !old(self).sb().has(e.attr.ino) && e.attr.ino == old(self).sb().count() + 1
                && final(self).sb().count() == old(self).sb().count() + 1
                && (forall|i: u64| old(self).sb().has(i) ==> #[trigger] final(self).sb().rec(i) == old(self).sb().rec(i))),
            r is Err ==> final(self).sb().recs() == old(self).sb().recs(),
            final(self).readdir_size() == old(self).readdir_size(),
            final(self).ttl() == old(self).ttl(),
            old(self).sb().is_dir(parent) && crate::inode::valid_name(name@) && !old(self).sb().has_child(parent, name@) ==> {
                match (file_probe, dir_probe) {
                    (_, Ok(true)) => r matches Ok(e) && e.attr.kind == InodeKind::Directory,
                    (Ok(Some(size)), _) => r matches Ok(e) && e.attr.kind == InodeKind::File && e.attr.size == size,
                    (Err(_), _) => r == Err::<Entry, i32>(EIO),
                    (Ok(None), Err(_)) => r == Err::<Entry, i32>(EIO),
                    (Ok(None), Ok(false)) => r == Err::<Entry, i32>(ENOENT),
                }
            },
    {
        let ghost sb0 = self.superblock;
        let res = self.superblock.lookup_resolve(parent, name, file_probe, dir_probe);
        proof {
            assert forall|i: int| 0 <= i < self.dir_handles@.len() implies self.superblock.is_dir(
                (#[trigger] self.dir_handles@[i]).1.handle.dir_ino(),
            ) by {
                crate::inode::lemma_kind_stable(&sb0, &self.superblock, self.dir_handles@[i].1.handle.dir_ino());
            }
        }
        match res {
            Err(e) => Err(errno_of(&e)),
            Ok(l) => {
                proof {
                    if old(self).sb().has_child(parent, name@) {
                        let j = choose|j: u64| old(self).sb().child(parent, name@, j);
                        crate::inode::lemma_lookup_stable(&sb0, &self.superblock, parent, name@, j);
                    }
                }
                Ok(self.entry_of(&l))
            },
        }
    }

    /// The cached attributes of `ino`.
    pub fn getattr(&self, ino: u64) -> (r: Result<Attr, i32>)
        requires
            self.wf(),
        ensures
            self.sb().has(ino) ==> (r matches Ok(a) && a.attr == inode_attr(self.sb(), ino) && a.ttl == self.ttl()),
            !self.sb().has(ino) ==> r == Err::<Attr, i32>(ENOENT),
    {
        match self.superblock.getattr(ino) {
            Err(e) => Err(errno_of(&e)),
            Ok(l) => Ok(Attr { ttl: self.config.ttl_zero, attr: make_attr(ino, &l.stat) }),
        }
    }

    /// Opens `ino` under a handle held by no other open file or directory.
    pub fn open(&mut self, ino: u64, flags: i32) -> (r: Result<Opened, i32>)
        requires
            old(self).wf(),
        ensures
            final(self).handle_counter() >= old(self).handle_counter(),
            old(self).sb().stable(&final(self).sb()),
            final(self).wf(),
            final(self).sb() == old(self).sb(),
            !old(self).sb().has(ino) ==> r == Err::<Opened, i32>(ENOENT) && *final(self) == *old(self),
            old(self).sb().has(ino) && old(self).handle_counter() == u64::MAX ==> r == Err::<Opened, i32>(ENFILE),
            old(self).sb().has(ino) && old(self).handle_counter() < u64::MAX ==> (r matches Ok(o)
                && o.fh == old(self).handle_counter() && o.flags == 0),
            r matches Ok(o) ==> !old(self).has_file(o.fh) && !old(self).has_dir(o.fh) && final(self).has_file(o.fh)
                && final(self).handle_counter() == o.fh + 1 && final(self).file_size(o.fh) == old(self).sb().rec(ino).size
                && final(self).file_key_spec(o.fh) == old(self).sb().key_at(ino) && final(self).stream(o.fh) is None,
            final(self).readdir_size() == old(self).readdir_size(),
            final(self).ttl() == old(self).ttl(),
            forall|fh: u64| #[trigger] old(self).has_file(fh) ==> final(self).has_file(fh),
            forall|fh: u64| #[trigger] final(self).has_dir(fh) == old(self).has_dir(fh),
            old(self).files_kept(&*final(self), old(self).handle_counter()),
            old(self).dirs_kept(&*final(self), old(self).handle_counter()),
    {
        let l = match self.superblock.getattr(ino) {
            Err(e) => {
                return Err(errno_of(&e));
            },
            Ok(l) => l,
        };
        if self.next_handle == u64::MAX {
            return Err(ENFILE);
        }
        let fh = self.next_handle;
        self.next_handle = fh + 1;
        let ghost before = self.file_handles@;
        self.file_handles.push((fh, FileHandle { ino, full_key: l.full_key, object_size: l.stat.size, request: None }));
        assert(self.file_handles@[before.len() as int].0 == fh);
        assert forall|g: u64| #[trigger] old(self).has_file(g) implies self.has_file(g) by {
            let i = choose|i: int| 0 <= i < before.len() && (#[trigger] before[i]).0 == g;
            assert(self.file_handles@[i] == before[i]);
        }
        assert(self.dir_handles@ == old(self).dir_handles@);
        assert(self.file_slot(fh) == before.len()) by {
            let k = self.file_slot(fh);
            if k != before.len() {
                assert(self.file_handles@[k] == before[k]);
            }
        }
        proof {
            assert forall|j: int| 0 <= j < old(self).file_handles@.len() && old(self).file_handles@[j].0 != fh implies exists|k: int|
                0 <= k < self.file_handles@.len() && self.file_handles@[k] == #[trigger] old(self).file_handles@[j] by {
                let k = j;
                assert(self.file_handles@[k] == old(self).file_handles@[j]);
            }
            Self::lemma_files_kept(&*old(self), &*self, fh);
        }
        proof {
            assert forall|j: int| 0 <= j < old(self).dir_handles@.len() && old(self).dir_handles@[j].0 != fh implies exists|k: int|
                0 <= k < self.dir_handles@.len() && self.dir_handles@[k] == #[trigger] old(self).dir_handles@[j] by {
                let k = j;
                assert(self.dir_handles@[k] == old(self).dir_handles@[j]);
            }
            Self::lemma_dirs_kept(&*old(self), &*self, fh);
        }
        Ok(Opened { fh, flags: 0 })
    }

    /// Reads up to `size` bytes at `offset` of open file `fh`, streaming from
    /// the object store; a read at or past the end gives no bytes.
    pub fn read(&mut self, ino: u64, fh: u64, offset: i64, size: u32) -> (r: Result<ReadStep, i32>)
        requires
            old(self).wf(),
        ensures
            old(self).sb().stable(&final(self).sb()),
            final(self).wf(),
            final(self).sb() == old(self).sb(),
            final(self).handle_counter() == old(self).handle_counter(),
            !old(self).has_file(fh) ==> r == Err::<ReadStep, i32>(EBADF),
            old(self).has_file(fh) && offset < 0 ==> r == Err::<ReadStep, i32>(EINVAL),
            old(self).has_file(fh) && offset >= 0 ==> (r matches Ok(step) && final(self).stream(fh) matches Some(s1)
                && s1.wf() && final(self).file_size(fh) == old(self).file_size(fh) && match old(self).stream(fh) {
                Some(s0) => s0.read_step(offset as u64, size as usize, &s1, step),
                None => exists|s0: PrefetchGetObject|
                    #![trigger s0.read_step(offset as u64, size as usize, &s1, step)]
                    s0.wf() && s0.size_of() == old(self).file_size(fh) && s0.expected() == 0
                        && s0.buffered().len() == 0 && s0.read_step(offset as u64, size as usize, &s1, step),
            }),
            forall|g: u64| #[trigger] final(self).has_file(g) == old(self).has_file(g),
            forall|g: u64| #[trigger] final(self).has_dir(g) == old(self).has_dir(g),
            old(self).files_kept(&*final(self), fh),
            old(self).dirs_kept(&*final(self), fh),
    {
        let i = match self.find_file(fh) {
            None => {
                return Err(EBADF);
            },
            Some(i) => i,
        };
        if offset < 0 {
            return Err(EINVAL);
        }
        let ghost before = self.file_handles@;
        proof {
            let j = self.file_slot(fh);
            assert(0 <= j < before.len() && before[j].0 == fh);
            assert(j == i);
        }
        let entry = &mut self.file_handles[i];
        if entry.1.request.is_none() {
            entry.1.request = Some(PrefetchGetObject::new(entry.1.object_size));
        }
        let ghost s0 = entry.1.request;
        let step = match &mut entry.1.request {
            Some(p) => p.read(offset as u64, size as usize),
            None => ReadStep::Data(Vec::new()),
        };
        proof {
            let j = self.file_slot(fh);
            assert(0 <= j < self.file_handles@.len() && self.file_handles@[j].0 == fh);
            if j != i {
                assert(self.file_handles@[j] == before[j]);
            }
            assert(j == i);
            let s1 = self.file_handles@[i as int].1.request;
            if old(self).stream(fh) is None {
                let w = s0->0;
                assert(w.read_step(offset as u64, size as usize, &s1->0, step));
            }
            assert forall|j: int| 0 <= j < self.file_handles@.len() && j != i implies #[trigger] self.file_handles@[j] == before[j] by {}
            assert forall|g: u64| #[trigger] self.has_file(g) == old(self).has_file(g) by {
                if old(self).has_file(g) {
                    let j = choose|j: int| 0 <= j < before.len() && (#[trigger] before[j]).0 == g;
                    assert(self.file_handles@[j].0 == g);
                }
                if self.has_file(g) {
                    let j = choose|j: int| 0 <= j < self.file_handles@.len() && (#[trigger] self.file_handles@[j]).0 == g;
                    assert(before[j].0 == g);
                }
            }
        }
        proof {
            Self::lemma_kept_in_place(&*old(self), &*self, fh);
        }
        Ok(step)
    }

    /// Hands the bytes of a fetched range to open file `fh`. `Ok(true)` when
    /// they continue its stream and were taken.
    pub fn supply_range(&mut self, fh: u64, start: u64, bytes: &Vec<u8>) -> (r: Result<bool, i32>)
        requires
            old(self).wf(),
        ensures
            old(self).sb().stable(&final(self).sb()),
            final(self).wf(),
            final(self).sb() == old(self).sb(),
            final(self).handle_counter() == old(self).handle_counter(),
            !old(self).has_file(fh) ==> r == Err::<bool, i32>(EBADF),
            old(self).has_file(fh) ==> r is Ok,
            old(self).has_file(fh) && old(self).stream(fh) is None ==> r == Ok::<bool, i32>(false)
                && final(self).stream(fh) is None,
            old(self).has_file(fh) ==> (old(self).stream(fh) matches Some(s0) ==> final(self).stream(fh) matches Some(s1) && {
                let taken = s0.ranges().len() > 0 && start == s0.ranges()[0].start && bytes@.len() == s0.ranges()[0].end
                    - start;
                &&& r == Ok::<bool, i32>(taken)
                &&& !taken ==> s1 == s0
                &&& taken ==> s1.expected() == s0.expected() && s1.buffered() == s0.buffered() + bytes@
                    && s1.request_offset() == s0.request_offset() + bytes@.len() && s1.size_of() == s0.size_of()
                    && s1.ranges() == s0.ranges().drop_first()
            }),
            forall|g: u64| #[trigger] final(self).has_file(g) == old(self).has_file(g),
            forall|g: u64| #[trigger] final(self).has_dir(g) == old(self).has_dir(g),
            old(self).files_kept(&*final(self), fh),
            old(self).dirs_kept(&*final(self), fh),
    {
        let i = match self.find_file(fh) {
            None => {
                return Err(EBADF);
            },
            Some(i) => i,
        };
        let ghost before = self.file_handles@;
        proof {
            let j = self.file_slot(fh);
            assert(0 <= j < before.len() && before[j].0 == fh);
            assert(j == i);
        }
        let entry = &mut self.file_handles[i];
        let ok = match &mut entry.1.request {
            Some(p) => p.supply(start, bytes),
            None => false,
        };
        proof {
            let j = self.file_slot(fh);
            assert(0 <= j < self.file_handles@.len() && self.file_handles@[j].0 == fh);
            if j != i {
                assert(self.file_handles@[j] == before[j]);
            }
            assert(j == i);
        }
        proof {
            assert forall|j: int| 0 <= j < self.file_handles@.len() && j != i implies #[trigger] self.file_handles@[j] == before[j] by {}
            assert forall|g: u64| #[trigger] self.has_file(g) == old(self).has_file(g) by {
                if old(self).has_file(g) {
                    let j = choose|j: int| 0 <= j < before.len() && (#[trigger] before[j]).0 == g;
                    assert(self.file_handles@[j].0 == g);
                }
                if self.has_file(g) {
                    let j = choose|j: int| 0 <= j < self.file_handles@.len() && (#[trigger] self.file_handles@[j]).0 == g;
                    assert(before[j].0 == g);
                }
            }
        }
        assert(self.dir_handles@ == old(self).dir_handles@);
        proof {
            Self::lemma_kept_in_place(&*old(self), &*self, fh);
        }
        Ok(ok)
    }

    /// Issues one more range ahead for open file `fh`, when its stream has
    /// room in flight and below the high-water mark: the range to GET.
    pub fn issue_range(&mut self, fh: u64) -> (r: Result<Option<RangeRequest>, i32>)
        requires
            old(self).wf(),
        ensures
            old(self).sb().stable(&final(self).sb()),
            final(self).wf(),
            final(self).sb() == old(self).sb(),
            final(self).handle_counter() == old(self).handle_counter(),
            !old(self).has_file(fh) ==> r == Err::<Option<RangeRequest>, i32>(EBADF),
            old(self).has_file(fh) ==> r is Ok,
            old(self).has_file(fh) && old(self).stream(fh) is None ==> r == Ok::<Option<RangeRequest>, i32>(None)
                && final(self).stream(fh) is None,
            old(self).has_file(fh) ==> (old(self).stream(fh) matches Some(s0) ==> final(self).stream(fh) matches Some(s1) && {
                let room = s0.ranges().len() < crate::prefetch::MAX_IN_FLIGHT && s0.issued_to() < s0.size_of()
                    && s0.issued_to() - s0.expected() < crate::prefetch::HIGH_WATER;
                &&& room ==> r == Ok::<Option<RangeRequest>, i32>(Some(s0.next_range())) && s0.issued(&s1)
                &&& !room ==> r == Ok::<Option<RangeRequest>, i32>(None) && s1 == s0
            }),
            forall|g: u64| #[trigger] final(self).has_file(g) == old(self).has_file(g),
            forall|g: u64| #[trigger] final(self).has_dir(g) == old(self).has_dir(g),
            old(self).files_kept(&*final(self), fh),
            old(self).dirs_kept(&*final(self), fh),
    {
        let i = match self.find_file(fh) {
            None => {
                return Err(EBADF);
            },
            Some(i) => i,
        };
        let ghost before = self.file_handles@;
        proof {
            let j = self.file_slot(fh);
            assert(0 <= j < before.len() && before[j].0 == fh);
            assert(j == i);
        }
        let entry = &mut self.file_handles[i];
        let ok = match &mut entry.1.request {
            Some(p) => p.issue(),
            None => None,
        };
        proof {
            let j = self.file_slot(fh);
            assert(0 <= j < self.file_handles@.len() && self.file_handles@[j].0 == fh);
            if j != i {
                assert(self.file_handles@[j] == before[j]);
            }
            assert(j == i);
        }
        proof {
            assert forall|j: int| 0 <= j < self.file_handles@.len() && j != i implies #[trigger] self.file_handles@[j] == before[j] by {}
            assert forall|g: u64| #[trigger] self.has_file(g) == old(self).has_file(g) by {
                if old(self).has_file(g) {
                    let j = choose|j: int| 0 <= j < before.len() && (#[trigger] before[j]).0 == g;
                    assert(self.file_handles@[j].0 == g);
                }
                if self.has_file(g) {
                    let j = choose|j: int| 0 <= j < self.file_handles@.len() && (#[trigger] self.file_handles@[j]).0 == g;
                    assert(before[j].0 == g);
                }
            }
        }
        assert(self.dir_handles@ == old(self).dir_handles@);
        proof {
            Self::lemma_kept_in_place(&*old(self), &*self, fh);
        }
        Ok(ok)
    }

    /// Opens directory `parent` for listing under a handle held by no other
    /// open file or directory, at offset 0.
    pub fn opendir(&mut self, parent: u64, flags: i32) -> (r: Result<Opened, i32>)
        requires
            old(self).wf(),
        ensures
            final(self).handle_counter() >= old(self).handle_counter(),
            old(self).sb().stable(&final(self).sb()),
            final(self).wf(),
            final(self).sb() == old(self).sb(),
            !old(self).sb().has(parent) ==> r == Err::<Opened, i32>(ENOENT) && *final(self) == *old(self),
            old(self).sb().has(parent) && !old(self).sb().is_dir(parent) ==> r == Err::<Opened, i32>(ENOTDIR)
                && *final(self) == *old(self),
            old(self).sb().is_dir(parent) && old(self).handle_counter() == u64::MAX ==> r == Err::<Opened, i32>(ENFILE),
            old(self).sb().is_dir(parent) && old(self).handle_counter() < u64::MAX ==> (r matches Ok(o)
                && o.fh == old(self).handle_counter() && o.flags == 0),
            r matches Ok(o) ==> !old(self).has_file(o.fh) && !old(self).has_dir(o.fh) && final(self).has_dir(o.fh)
                && final(self).dir_offset(o.fh) == 0 && final(self).handle_counter() == o.fh + 1 && {
                let c = final(self).dir_handle(o.fh).cursor();
                &&& c.dir_ino() == parent
                &&& c.parent_ino() == old(self).sb().rec(parent).parent
                &&& c.dir_prefix() == old(self).sb().key_at(parent)
                &&& c.page_len() == old(self).readdir_size()
                &&& c.token() is None
                &&& c.listed_names().len() == 0
                &&& c.yielded_names().len() == 0
                &&& !c.is_finished()
                &&& c.readded_entry() is None
            },
            final(self).readdir_size() == old(self).readdir_size(),
            final(self).ttl() == old(self).ttl(),
            forall|fh: u64| #[trigger] old(self).has_dir(fh) ==> final(self).has_dir(fh),
            forall|fh: u64| #[trigger] final(self).has_file(fh) == old(self).has_file(fh),
            old(self).files_kept(&*final(self), old(self).handle_counter()),
            old(self).dirs_kept(&*final(self), old(self).handle_counter()),
    {
        match self.superblock.check_dir(parent) {
            Err(e) => {
                return Err(errno_of(&e));
            },
            Ok(()) => {},
        }
        if self.next_handle == u64::MAX {
            return Err(ENFILE);
        }
        let l = self.superblock.looked_up(parent);
        let up = self.superblock.parent_of(parent);
        let handle = ReaddirHandle::new(parent, up, l.full_key, self.config.readdir_size);
        let fh = self.next_handle;
        self.next_handle = fh + 1;
        let ghost before = self.dir_handles@;
        self.dir_handles.push((fh, DirHandle { ino: parent, handle, offset: 0, delivered: Ghost(Seq::empty()) }));
        let ghost k = before.len() as int;
        assert(self.dir_handles@[k].0 == fh);
        assert forall|g: u64| #[trigger] old(self).has_dir(g) implies self.has_dir(g) by {
            let i = choose|i: int| 0 <= i < before.len() && (#[trigger] before[i]).0 == g;
            assert(self.dir_handles@[i] == before[i]);
        }
        assert(self.has_dir(fh));
        assert(self.dir_slot(fh) == k) by {
            let i = self.dir_slot(fh);
            if i != k {
                assert(self.dir_handles@[i] == before[i]);
            }
        }
        proof {
            assert forall|j: int| 0 <= j < old(self).file_handles@.len() && old(self).file_handles@[j].0 != fh implies exists|k: int|
                0 <= k < self.file_handles@.len() && self.file_handles@[k] == #[trigger] old(self).file_handles@[j] by {
                let k = j;
                assert(self.file_handles@[k] == old(self).file_handles@[j]);
            }
            Self::lemma_files_kept(&*old(self), &*self, fh);
        }
        proof {
            assert forall|j: int| 0 <= j < old(self).dir_handles@.len() && old(self).dir_handles@[j].0 != fh implies exists|k: int|
                0 <= k < self.dir_handles@.len() && self.dir_handles@[k] == #[trigger] old(self).dir_handles@[j] by {
                let k = j;
                assert(self.dir_handles@[k] == old(self).dir_handles@[j]);
            }
            Self::lemma_dirs_kept(&*old(self), &*self, fh);
        }
        Ok(Opened { fh, flags: 0 })
    }

    /// Lists open directory `fh` into `reply` from `offset`, which must be the
    /// offset the handle has reached: `.` and `..` take offsets 1 and 2, the
    /// children 3 on. An entry the replier has no room for is kept for the
    /// next call. A mismatched offset is refused and changes nothing.
    pub fn readdir<R: DirectoryReplier>(&mut self, parent: u64, fh: u64, offset: i64, reply: &mut R) -> (r: Result<ReaddirOutcome, i32>)
        requires
            old(self).wf(),
            !old(reply).refused(),
        ensures
            !(r matches Ok(ReaddirOutcome::Full)) ==> !final(reply).refused(),
            final(self).wf(),
            old(self).sb().stable(&final(self).sb()),
            final(self).handle_counter() == old(self).handle_counter(),
            final(self).readdir_size() == old(self).readdir_size(),
            final(self).ttl() == old(self).ttl(),
            !old(self).has_dir(fh) ==> r == Err::<ReaddirOutcome, i32>(EBADF) && *final(self) == *old(self),
            old(self).has_dir(fh) && offset != old(self).dir_offset(fh) ==> r == Err::<ReaddirOutcome, i32>(EINVAL)
                && *final(self) == *old(self),
            r is Err ==> *final(reply) == *old(reply),
            old(self).has_dir(fh) && offset == old(self).dir_offset(fh) ==> r is Ok && {
                let h0 = old(self).dir_handle(fh);
                let h1 = final(self).dir_handle(fh);
                let c0 = h0.cursor();
                let c1 = h1.cursor();
                &&& h1.offset_spec() >= offset
                &&& h1.delivered_entries().subrange(0, offset as int) == h0.delivered_entries()
                &&& final(reply).added() == old(reply).added() + h1.delivered_entries().subrange(offset as int, h1.offset_spec() as int)
                &&& forall|k: int| offset <= k < h1.offset_spec() ==> entry_ok(h1.delivered_entries(), c1, final(self).sb(), parent, k)
                &&& c1.yielded_names().subrange(0, c0.yielded_names().len() as int) == c0.yielded_names()
                &&& c1.listed_names() == c0.listed_names()
                &&& c1.dir_ino() == c0.dir_ino() && c1.parent_ino() == c0.parent_ino() && c1.dir_prefix() == c0.dir_prefix()
                &&& c1.page_len() == c0.page_len()
                &&& c1.is_finished() == c0.is_finished()
                &&& c1.token() == c0.token()
                &&& r matches Ok(ReaddirOutcome::Full) ==> final(reply).refused() || h1.offset_spec() == i64::MAX
                &&& !(r matches Ok(ReaddirOutcome::Full)) ==> c1.readded_entry() is None && c1.yielded_names()
                    == c1.listed_names()
                &&& r matches Ok(ReaddirOutcome::End) ==> c1.is_finished()
                &&& r matches Ok(ReaddirOutcome::NeedPage(_)) ==> !c1.is_finished()
                &&& r matches Ok(ReaddirOutcome::NeedPage(req)) ==> req.prefix@ == c0.dir_prefix() && req.max_keys
                    == c0.page_len() && (match req.continuation {
                    Some(c) => Some(c@),
                    None => None,
                }) == c1.token()
            },
            forall|g: u64| #[trigger] final(self).has_file(g) == old(self).has_file(g),
            forall|g: u64| #[trigger] final(self).has_dir(g) == old(self).has_dir(g),
            old(self).files_kept(&*final(self), fh),
            old(self).dirs_kept(&*final(self), fh),
    {
        let i = match self.find_dir(fh) {
            None => {
                return Err(EBADF);
            },
            Some(i) => i,
        };
        proof {
            let j = choose|j: int| 0 <= j < self.dir_handles@.len() && (#[trigger] self.dir_handles@[j]).0 == fh;
            if j != i {
                assert(self.dir_handles@[i as int].0 == self.dir_handles@[j].0);
            }
        }
        if offset != self.dir_handles[i].1.offset() {
            return Err(EINVAL);
        }
        let ghost before = self.dir_handles@;
        let ghost sb0 = self.superblock;
        proof {
            let j = self.dir_slot(fh);
            assert(j == i);
        }
        let out = fill_dir(&mut self.dir_handles[i].1, &mut self.superblock, parent, reply);
        proof {
            assert forall|j: int| 0 <= j < self.dir_handles@.len() implies self.superblock.is_dir(
                (#[trigger] self.dir_handles@[j]).1.handle.dir_ino(),
            ) && readded_ok(self.dir_handles@[j].1.handle, self.superblock) by {
                crate::inode::lemma_kind_stable(&sb0, &self.superblock, self.dir_handles@[j].1.handle.dir_ino());
                if j != i {
                    assert(self.dir_handles@[j] == before[j]);
                    lemma_readded_ok_stable(before[j].1.handle, sb0, self.superblock);
                }
            }
        }
        proof {
            assert forall|j: int| 0 <= j < self.dir_handles@.len() && j != i implies #[trigger] self.dir_handles@[j] == before[j] by {}
            assert forall|g: u64| #[trigger] self.has_dir(g) == old(self).has_dir(g) by {
                if old(self).has_dir(g) {
                    let j = choose|j: int| 0 <= j < before.len() && (#[trigger] before[j]).0 == g;
                    assert(self.dir_handles@[j].0 == g);
                }
                if self.has_dir(g) {
                    let j = choose|j: int| 0 <= j < self.dir_handles@.len() && (#[trigger] self.dir_handles@[j]).0 == g;
                    assert(before[j].0 == g);
                }
            }
        }
        proof {
            let j = self.dir_slot(fh);
            if j != i {
                assert(self.dir_handles@[j] == before[j]);
            }
            assert(j == i);
        }
        assert(self.file_handles@ == old(self).file_handles@);
        proof {
            Self::lemma_kept_in_place(&*old(self), &*self, fh);
        }
        Ok(out)
    }

    /// Hands a listing page that `readdir` asked for to open directory `fh`.
    pub fn add_dir_page(&mut self, fh: u64, page: ListPage) -> (r: Result<(), i32>)
        requires
            old(self).wf(),
        ensures
            old(self).sb().stable(&final(self).sb()),
            final(self).wf(),
            final(self).sb() == old(self).sb(),
            final(self).handle_counter() == old(self).handle_counter(),
            r is Ok <==> old(self).has_dir(fh),
            r is Err ==> r == Err::<(), i32>(EBADF),
            final(self).readdir_size() == old(self).readdir_size(),
            final(self).ttl() == old(self).ttl(),
            old(self).has_dir(fh) ==> {
                let h0 = old(self).dir_handle(fh);
                let h1 = final(self).dir_handle(fh);
                &&& h1.offset_spec() == h0.offset_spec()
                &&& h1.delivered_entries() == h0.delivered_entries()
                &&& h1.cursor().listed_names() == h0.cursor().listed_names() + page_children(h0.cursor().dir_prefix(), page)
                &&& h1.cursor().is_finished() == (page.next_continuation is None)
                &&& h1.cursor().yielded_names() == h0.cursor().yielded_names()
                &&& h1.cursor().dir_ino() == h0.cursor().dir_ino()
                &&& h1.cursor().dir_prefix() == h0.cursor().dir_prefix()
                &&& h1.cursor().parent_ino() == h0.cursor().parent_ino()
                &&& h1.cursor().page_len() == h0.cursor().page_len()
                &&& h1.cursor().readded_entry() == h0.cursor().readded_entry()
                &&& h1.cursor().token() == (match page.next_continuation {
                    Some(c) => Some(c@),
                    None => None,
                })
            },
            forall|g: u64| #[trigger] final(self).has_file(g) == old(self).has_file(g),
            forall|g: u64| #[trigger] final(self).has_dir(g) == old(self).has_dir(g),
            old(self).files_kept(&*final(self), fh),
            old(self).dirs_kept(&*final(self), fh),
    {
        let i = match self.find_dir(fh) {
            None => {
                return Err(EBADF);
            },
            Some(i) => i,
        };
        let ghost before = self.dir_handles@;
        proof {
            assert(self.dir_slot(fh) == i);
        }
        self.dir_handles[i].1.handle.add_page(page);
        proof {
            let j = self.dir_slot(fh);
            if j != i {
                assert(self.dir_handles@[j] == before[j]);
            }
            assert(j == i);
            assert forall|j: int| 0 <= j < self.dir_handles@.len() && j != i implies #[trigger] self.dir_handles@[j] == before[j] by {}
            assert forall|g: u64| #[trigger] self.has_dir(g) == old(self).has_dir(g) by {
                if old(self).has_dir(g) {
                    let j = choose|j: int| 0 <= j < before.len() && (#[trigger] before[j]).0 == g;
                    assert(self.dir_handles@[j].0 == g);
                }
                if self.has_dir(g) {
                    let j = choose|j: int| 0 <= j < self.dir_handles@.len() && (#[trigger] self.dir_handles@[j]).0 == g;
                    assert(before[j].0 == g);
                }
            }
        }
        assert(self.file_handles@ == old(self).file_handles@);
        proof {
            Self::lemma_kept_in_place(&*old(self), &*self, fh);
        }
        Ok(())
    }

    /// Closes open file `fh`, dropping its stream. Once released, `fh` is
    /// unknown to every later call until it is given out again, which never
    /// happens: handles are not reused.
    pub fn release(&mut self, ino: u64, fh: u64, flags: i32, lock_owner: Option<u64>, flush: bool) -> (r: Result<(), i32>)
        requires
            old(self).wf(),
            old(self).has_file(fh),
        ensures
            old(self).sb().stable(&final(self).sb()),
            final(self).wf(),
            final(self).sb() == old(self).sb(),
            final(self).handle_counter() == old(self).handle_counter(),
            r is Ok <==> old(self).has_file(fh),
            r is Err ==> r == Err::<(), i32>(EBADF),
            !final(self).has_file(fh),
            forall|g: u64| g != fh ==> (#[trigger] final(self).has_file(g) == old(self).has_file(g)),
            forall|g: u64| #[trigger] final(self).has_dir(g) == old(self).has_dir(g),
            old(self).files_kept(&*final(self), fh),
            old(self).dirs_kept(&*final(self), fh),
    {
        let i = match self.find_file(fh) {
            None => {
                return Err(EBADF);
            },
            Some(i) => i,
        };
        let ghost before = self.file_handles@;
        let _ = self.file_handles.remove(i);
        proof {
            assert forall|j: int| 0 <= j < self.file_handles@.len() implies #[trigger] self.file_handles@[j] == (
                if j < i { before[j] } else { before[j + 1] }) by {}
            assert forall|g: u64| g != fh implies (#[trigger] self.has_file(g) == old(self).has_file(g)) by {
                if old(self).has_file(g) {
                    let j = choose|j: int| 0 <= j < before.len() && (#[trigger] before[j]).0 == g;
                    if j < i {
                        assert(self.file_handles@[j].0 == g);
                    } else {
                        assert(self.file_handles@[j - 1].0 == g);
                    }
                }
                if self.has_file(g) {
                    let j = choose|j: int| 0 <= j < self.file_handles@.len() && (#[trigger] self.file_handles@[j]).0 == g;
                    if j < i {
                        assert(before[j].0 == g);
                    } else {
                        assert(before[j + 1].0 == g);
                    }
                }
            }
            assert(!self.has_file(fh)) by {
                if self.has_file(fh) {
                    let j = choose|j: int| 0 <= j < self.file_handles@.len() && (#[trigger] self.file_handles@[j]).0 == fh;
                    if j < i {
                        assert(before[j].0 == before[i as int].0);
                    } else {
                        assert(before[j + 1].0 == before[i as int].0);
                    }
                }
            }
            assert forall|a: int, b: int| 0 <= a < b < self.file_handles@.len() implies (#[trigger] self.file_handles@[a]).0
                != (#[trigger] self.file_handles@[b]).0 by {
                let a2 = if a < i { a } else { a + 1 };
                let b2 = if b < i { b } else { b + 1 };
                assert(before[a2].0 != before[b2].0);
            }
            assert forall|a: int| 0 <= a < self.file_handles@.len() implies {
                let f = #[trigger] self.file_handles@[a];
                &&& f.0 < self.next_handle
                &&& (f.1.request matches Some(p) ==> p.wf() && p.size_of() == f.1.object_size)
            } by {
                let a2 = if a < i { a } else { a + 1 };
                assert(before[a2] == self.file_handles@[a]);
            }
        }
        assert(self.dir_handles@ == old(self).dir_handles@);
        proof {
            assert forall|j: int| 0 <= j < old(self).file_handles@.len() && old(self).file_handles@[j].0 != fh implies exists|k: int|
                0 <= k < self.file_handles@.len() && self.file_handles@[k] == #[trigger] old(self).file_handles@[j] by {
                let k = if j < i { j } else { j - 1 };
                assert(self.file_handles@[k] == old(self).file_handles@[j]);
            }
            Self::lemma_files_kept(&*old(self), &*self, fh);
        }
        proof {
            assert forall|j: int| 0 <= j < old(self).dir_handles@.len() && old(self).dir_handles@[j].0 != fh implies exists|k: int|
                0 <= k < self.dir_handles@.len() && self.dir_handles@[k] == #[trigger] old(self).dir_handles@[j] by {
                let k = j;
                assert(self.dir_handles@[k] == old(self).dir_handles@[j]);
            }
            Self::lemma_dirs_kept(&*old(self), &*self, fh);
        }
        Ok(())
    }

    /// Closes open directory `fh`, dropping its cursor.
    pub fn releasedir(&mut self, ino: u64, fh: u64, flags: i32) -> (r: Result<(), i32>)
        requires
            old(self).wf(),
        ensures
            old(self).sb().stable(&final(self).sb()),
            final(self).wf(),
            final(self).sb() == old(self).sb(),
            final(self).handle_counter() == old(self).handle_counter(),
            r is Ok <==> old(self).has_dir(fh),
            r is Err ==> r == Err::<(), i32>(EBADF),
            !final(self).has_dir(fh),
            forall|g: u64| g != fh ==> (#[trigger] final(self).has_dir(g) == old(self).has_dir(g)),
            forall|g: u64| #[trigger] final(self).has_file(g) == old(self).has_file(g),
            old(self).files_kept(&*final(self), fh),
            old(self).dirs_kept(&*final(self), fh),
    {
        let i = match self.find_dir(fh) {
            None => {
                return Err(EBADF);
            },
            Some(i) => i,
        };
        let ghost before = self.dir_handles@;
        let _ = self.dir_handles.remove(i);
        proof {
            assert forall|j: int| 0 <= j < self.dir_handles@.len() implies #[trigger] self.dir_handles@[j] == (
                if j < i { before[j] } else { before[j + 1] }) by {}
            assert forall|g: u64| g != fh implies (#[trigger] self.has_dir(g) == old(self).has_dir(g)) by {
                if old(self).has_dir(g) {
                    let j = choose|j: int| 0 <= j < before.len() && (#[trigger] before[j]).0 == g;
                    if j < i {
                        assert(self.dir_handles@[j].0 == g);
                    } else {
                        assert(self.dir_handles@[j - 1].0 == g);
                    }
                }
                if self.has_dir(g) {
                    let j = choose|j: int| 0 <= j < self.dir_handles@.len() && (#[trigger] self.dir_handles@[j]).0 == g;
                    if j < i {
                        assert(before[j].0 == g);
                    } else {
                        assert(before[j + 1].0 == g);
                    }
                }
            }
            assert(!self.has_dir(fh)) by {
                if self.has_dir(fh) {
                    let j = choose|j: int| 0 <= j < self.dir_handles@.len() && (#[trigger] self.dir_handles@[j]).0 == fh;
                    if j < i {
                        assert(before[j].0 == before[i as int].0);
                    } else {
                        assert(before[j + 1].0 == before[i as int].0);
                    }
                }
            }
            assert forall|a: int, b: int| 0 <= a < b < self.dir_handles@.len() implies (#[trigger] self.dir_handles@[a]).0
                != (#[trigger] self.dir_handles@[b]).0 by {
                let a2 = if a < i { a } else { a + 1 };
                let b2 = if b < i { b } else { b + 1 };
                assert(before[a2].0 != before[b2].0);
            }
            assert forall|a: int| 0 <= a < self.dir_handles@.len() implies {
                let d = #[trigger] self.dir_handles@[a];
                &&& d.0 < self.next_handle
                &&& d.1.handle.wf()
                &&& d.1.offset >= 0
                &&& self.superblock.is_dir(d.1.handle.dir_ino())
            } by {
                let a2 = if a < i { a } else { a + 1 };
                assert(before[a2] == self.dir_handles@[a]);
            }
        }
        assert(self.file_handles@ == old(self).file_handles@);
        proof {
            assert forall|j: int| 0 <= j < old(self).file_handles@.len() && old(self).file_handles@[j].0 != fh implies exists|k: int|
                0 <= k < self.file_handles@.len() && self.file_handles@[k] == #[trigger] old(self).file_handles@[j] by {
                let k = j;
                assert(self.file_handles@[k] == old(self).file_handles@[j]);
            }
            Self::lemma_files_kept(&*old(self), &*self, fh);
        }
        proof {
            assert forall|j: int| 0 <= j < old(self).dir_handles@.len() && old(self).dir_handles@[j].0 != fh implies exists|k: int|
                0 <= k < self.dir_handles@.len() && self.dir_handles@[k] == #[trigger] old(self).dir_handles@[j] by {
                let k = if j < i { j } else { j - 1 };
                assert(self.dir_handles@[k] == old(self).dir_handles@[j]);
            }
            Self::lemma_dirs_kept(&*old(self), &*self, fh);
        }
        Ok(())
    }
}

/// Once a child `name` of `parent` has inode `ino`, every later state along a
/// run of calls (each keeping the inode table stable, as every call of the
/// filesystem does) resolves it to `ino` and to no other inode, with the same
/// kind.
pub proof fn lemma_lookup_stable_across(states: Seq<S3Filesystem>, parent: u64, name: Seq<u8>, ino: u64)
    requires
        states.len() >= 1,
        forall|k: int| 0 <= k < states.len() ==> (#[trigger] states[k]).wf(),
        forall|k: int| 0 <= k < states.len() - 1 ==> (#[trigger] states[k]).sb().stable(&states[k + 1].sb()),
        states[0].sb().child(parent, name, ino),
    ensures
        forall|k: int| 0 <= k < states.len() ==> {
            &&& (#[trigger] states[k]).sb().child(parent, name, ino)
            &&& states[k].sb().rec(ino).kind == states[0].sb().rec(ino).kind
            &&& forall|j: u64| states[k].sb().child(parent, name, j) ==> j == ino
        },
{
    assert forall|k: int| 0 <= k < states.len() implies {
        &&& (#[trigger] states[k]).sb().child(parent, name, ino)
        &&& states[k].sb().rec(ino).kind == states[0].sb().rec(ino).kind
        &&& forall|j: u64| states[k].sb().child(parent, name, j) ==> j == ino
    } by {
        lemma_stable_prefix(states, k);
        states[0].lemma_wf_parts();
        states[k].lemma_wf_parts();
        crate::inode::lemma_lookup_stable(&states[0].sb(), &states[k].sb(), parent, name, ino);
        crate::inode::lemma_kind_stable(&states[0].sb(), &states[k].sb(), ino);
    }
}

proof fn lemma_stable_prefix(states: Seq<S3Filesystem>, k: int)
    requires
        0 <= k < states.len(),
        forall|i: int| 0 <= i < states.len() - 1 ==> (#[trigger] states[i]).sb().stable(&states[i + 1].sb()),
    ensures
        states[0].sb().stable(&states[k].sb()),
    decreases k,
{
    if k > 0 {
        lemma_stable_prefix(states, k - 1);
        assert(states[k - 1].sb().stable(&states[k].sb()));
        crate::inode::lemma_stable_trans(&states[0].sb(), &states[k - 1].sb(), &states[k].sb());
    } else {
        let sb = states[0].sb();
        assert(sb.stable(&sb));
    }
}

proof fn lemma_counter_grows(states: Seq<S3Filesystem>, a: int, b: int)
    requires
        0 <= a <= b < states.len(),
        forall|k: int| 0 <= k < states.len() - 1 ==> (#[trigger] states[k]).handle_counter() <= states[k + 1].handle_counter(),
    ensures
        states[a].handle_counter() <= states[b].handle_counter(),
    decreases b - a,
{
    if a < b {
        lemma_counter_grows(states, a, b - 1);
        assert(states[b - 1].handle_counter() <= states[b].handle_counter());
    }
}

/// Along a run of calls, none of which lowers the handle counter (as no call
/// of the filesystem does), the handles given out by `open` or `opendir` at
/// two different steps differ: each is the counter before its call, which
/// the call raises past it.
pub proof fn lemma_handles_distinct(states: Seq<S3Filesystem>, a: int, b: int)
    requires
        0 <= a < b < states.len() - 1,
        forall|k: int| 0 <= k < states.len() - 1 ==> (#[trigger] states[k]).handle_counter() <= states[k + 1].handle_counter(),
        states[a + 1].handle_counter() == states[a].handle_counter() + 1,
    ensures
        states[a].handle_counter() != states[b].handle_counter(),
{
    lemma_counter_grows(states, a + 1, b);
}

} // verus!
