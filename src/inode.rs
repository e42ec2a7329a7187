use vstd::prelude::*;

use crate::bytes::{bytes_eq, concat_bytes, contains_byte, copy_bytes};

verus! {

/// Inode number of the mount root.
pub const ROOT_INODE: u64 = 1;

/// The key delimiter `/`.
pub const SLASH: u8 = 47;

/// The byte `.`.
pub const DOT: u8 = 46;

#[derive(Clone, Copy, Debug, PartialEq, Eq, Structural)]
pub enum InodeKind {
    File,
    Directory,
}

/// Size and kind of an inode; directories have size 0.
#[derive(Clone, Copy, Debug, PartialEq, Eq, Structural)]
pub struct InodeStat {
    pub size: u64,
    pub kind: InodeKind,
}

/// One entry of the inode table.
#[derive(Debug)]
pub struct InodeRecord {
    pub parent: u64,
    pub name: Vec<u8>,
    pub kind: InodeKind,
    pub full_key: Vec<u8>,
    pub size: u64,
}

/// What a lookup or getattr reports of an inode.
#[derive(Debug)]
pub struct LookedUp {
    pub ino: u64,
    pub stat: InodeStat,
    pub full_key: Vec<u8>,
}

#[derive(Debug)]
pub enum InodeError {
    ClientError(String),
    FileDoesNotExist,
    InodeDoesNotExist(u64),
    InvalidFileName(Vec<u8>),
    NotADirectory(u64),
}

/// A name may stand in a directory: no `/`, and neither `.` nor `..`.
pub open spec fn valid_name(n: Seq<u8>) -> bool {
    !n.contains(SLASH) && n != seq![DOT] && n != seq![DOT, DOT]
}

/// The object-store key of a child: the parent's prefix and the name, with a
/// trailing `/` for a directory.
pub open spec fn key_of(parent_key: Seq<u8>, name: Seq<u8>, kind: InodeKind) -> Seq<u8> {
    match kind {
        InodeKind::File => parent_key + name,
        InodeKind::Directory => parent_key + name + seq![SLASH],
    }
}

/// A directory prefix is empty or ends with `/`.
pub open spec fn is_dir_prefix(k: Seq<u8>) -> bool {
    k.len() == 0 || k.last() == SLASH
}

/// The in-memory namespace: inode `i` is the record at index `i - 1`.
pub struct Superblock {
    records: Vec<InodeRecord>,
}

impl Superblock {
    pub closed spec fn recs(&self) -> Seq<InodeRecord> {
        self.records@
    }

    pub open spec fn count(&self) -> nat {
        self.recs().len()
    }

    pub open spec fn has(&self, ino: u64) -> bool {
        1 <= ino <= self.count()
    }

    pub open spec fn rec(&self, ino: u64) -> InodeRecord {
        self.recs()[ino - 1]
    }

    pub open spec fn is_dir(&self, ino: u64) -> bool {
        self.has(ino) && self.recs()[ino - 1].kind == InodeKind::Directory
    }

    /// The key held for `ino`, read without naming `rec`.
    pub open spec fn key_at(&self, ino: u64) -> Seq<u8> {
        self.recs()[ino - 1].full_key@
    }

    /// `ino` is the child called `name` of `parent`.
    pub open spec fn child(&self, parent: u64, name: Seq<u8>, ino: u64) -> bool {
        &&& self.has(ino)
        &&& ino != ROOT_INODE
        &&& self.rec(ino).parent == parent
        &&& self.rec(ino).name@ == name
    }

    pub open spec fn has_child(&self, parent: u64, name: Seq<u8>) -> bool {
        exists|i: u64| self.child(parent, name, i)
    }

    /// `l` reports inode `l.ino` as the table holds it.
    pub open spec fn describes(&self, l: LookedUp) -> bool {
        &&& self.has(l.ino)
        &&& l.stat.kind == self.rec(l.ino).kind
        &&& l.stat.size == self.rec(l.ino).size
        &&& l.full_key@ == self.rec(l.ino).full_key@
    }

    pub open spec fn wf(&self) -> bool {
        &&& self.count() >= 1
        &&& self.rec(ROOT_INODE).kind == InodeKind::Directory
        &&& self.rec(ROOT_INODE).size == 0
        &&& is_dir_prefix(self.rec(ROOT_INODE).full_key@)
        &&& forall|i: u64|
            2 <= i <= self.count() ==> {
                let r = #[trigger] self.rec(i);
                &&& 1 <= r.parent < i
                &&& self.is_dir(r.parent)
                &&& valid_name(r.name@)
                &&& r.full_key@ == key_of(self.key_at(r.parent), r.name@, r.kind)
                &&& (r.kind == InodeKind::Directory ==> r.size == 0)
            }
        &&& forall|i: u64, j: u64|
            #![trigger self.rec(i), self.rec(j)]
            2 <= i <= self.count() && 2 <= j <= self.count() && i != j && self.rec(i).parent
                == self.rec(j).parent ==> self.rec(i).name@ != self.rec(j).name@
    }

    /// Every inode of `self` is still in `next`, with the same parent, name,
    /// kind and key.
    pub open spec fn stable(&self, next: &Superblock) -> bool {
        &&& self.count() <= next.count()
        &&& forall|i: u64|
            #![trigger next.rec(i)]
            self.has(i) ==> {
                &&& next.rec(i).parent == self.rec(i).parent
                &&& next.rec(i).name@ == self.rec(i).name@
                &&& next.rec(i).kind == self.rec(i).kind
                &&& next.rec(i).full_key@ == self.rec(i).full_key@
            }
    }

    /// A table holding only the root directory, whose key prefix is `prefix`.
    pub fn new(prefix: Vec<u8>) -> (r: Superblock)
        requires
            is_dir_prefix(prefix@),
        ensures
            r.wf(),
            r.count() == 1,
            r.rec(ROOT_INODE).full_key@ == prefix@,
    {
        let root = InodeRecord {
            parent: ROOT_INODE,
            name: Vec::new(),
            kind: InodeKind::Directory,
            full_key: prefix,
            size: 0,
        };
        let mut records: Vec<InodeRecord> = Vec::new();
        records.push(root);
        Superblock { records }
    }

    /// Whether `name` may stand in a directory.
    pub fn check_name(name: &Vec<u8>) -> (r: bool)
        ensures
            r == valid_name(name@),
    {
        if contains_byte(name, SLASH) {
            return false;
        }
        if name.len() == 1 && name[0] == DOT {
            assert(name@ =~= seq![DOT]);
            return false;
        }
        if name.len() == 2 && name[0] == DOT && name[1] == DOT {
            assert(name@ =~= seq![DOT, DOT]);
            return false;
        }
        assert(name@ != seq![DOT]) by {
            if name@ == seq![DOT] {
                assert(name@[0] == DOT);
            }
        }
        assert(name@ != seq![DOT, DOT]) by {
            if name@ == seq![DOT, DOT] {
                assert(name@[0] == DOT && name@[1] == DOT);
            }
        }
        true
    }

    /// `Ok` exactly when `ino` is a directory of the table.
    pub fn check_dir(&self, ino: u64) -> (r: Result<(), InodeError>)
        requires
            self.wf(),
        ensures
            r is Ok <==> self.is_dir(ino),
            !self.has(ino) ==> r == Err::<(), InodeError>(InodeError::InodeDoesNotExist(ino)),
            self.has(ino) && !self.is_dir(ino) ==> r == Err::<(), InodeError>(
                InodeError::NotADirectory(ino),
            ),
    {
        if ino == 0 || ino > self.records.len() as u64 {
            return Err(InodeError::InodeDoesNotExist(ino));
        }
        match self.records[(ino - 1) as usize].kind {
            InodeKind::Directory => Ok(()),
            InodeKind::File => Err(InodeError::NotADirectory(ino)),
        }
    }

    /// The child called `name` of `parent`, if the table holds one.
    pub fn find_child(&self, parent: u64, name: &Vec<u8>) -> (r: Option<u64>)
        requires
            self.wf(),
        ensures
            match r {
                Some(i) => self.child(parent, name@, i),
                None => !self.has_child(parent, name@),
            },
    {
        let mut idx: usize = 1;
        while idx < self.records.len()
            invariant
                self.wf(),
                1 <= idx <= self.count(),
                forall|i: u64| 2 <= i <= idx ==> !self.child(parent, name@, i),
            decreases self.count() - idx,
        {
            let r = &self.records[idx];
            if r.parent == parent && bytes_eq(&r.name, name) {
                return Some((idx + 1) as u64);
            }
            idx = idx + 1;
        }
        assert forall|i: u64| !self.child(parent, name@, i) by {
            if self.child(parent, name@, i) {
                assert(2 <= i <= idx);
            }
        }
        None
    }

    /// The parent recorded for `ino`.
    pub fn parent_of(&self, ino: u64) -> (r: u64)
        requires
            self.wf(),
            self.has(ino),
        ensures
            r == self.rec(ino).parent,
    {
        let n = self.records.len();
        assert(ino - 1 < n);
        self.records[(ino - 1) as usize].parent
    }

    /// Reports inode `ino`.
    pub fn looked_up(&self, ino: u64) -> (l: LookedUp)
        requires
            self.wf(),
            self.has(ino),
        ensures
            l.ino == ino,
            self.describes(l),
    {
        let n = self.records.len();
        assert(ino - 1 < n);
        let r = &self.records[(ino - 1) as usize];
        LookedUp { ino, stat: InodeStat { size: r.size, kind: r.kind }, full_key: copy_bytes(&r.full_key) }
    }

    /// The cached attributes and key of `ino`.
    pub fn getattr(&self, ino: u64) -> (r: Result<LookedUp, InodeError>)
        requires
            self.wf(),
        ensures
            self.has(ino) ==> (r matches Ok(l) && l.ino == ino && self.describes(l)),
            !self.has(ino) ==> r == Err::<LookedUp, InodeError>(InodeError::InodeDoesNotExist(ino)),
    {
        if ino == 0 || ino > self.records.len() as u64 {
            return Err(InodeError::InodeDoesNotExist(ino));
        }
        Ok(self.looked_up(ino))
    }
    /// The inode of child `name` of directory `parent`, added with the given
    /// kind and size when the table has none yet. An existing child keeps its
    /// inode and kind; a file listed again as a file takes the new size.
    pub fn insert_child(&mut self, parent: u64, name: &Vec<u8>, kind: InodeKind, size: u64) -> (ino: u64)
        requires
            old(self).wf(),
            old(self).is_dir(parent),
            valid_name(name@),
        ensures
            final(self).wf(),
            old(self).stable(&*final(self)),
            final(self).child(parent, name@, ino),
            old(self).has_child(parent, name@) ==> {
                &&& old(self).child(parent, name@, ino)
                &&& final(self).count() == old(self).count()
                &&& forall|i: u64| old(self).has(i) && i != ino ==> #[trigger] final(self).rec(i) == old(self).rec(i)
                &&& final(self).rec(ino).kind == old(self).rec(ino).kind
                &&& final(self).rec(ino).size == if kind == InodeKind::File && old(self).rec(ino).kind == InodeKind::File {
                    size
                } else {
                    old(self).rec(ino).size
                }
            },
            !old(self).has_child(parent, name@) ==> {
                &&& final(self).count() == old(self).count() + 1
                &&& forall|i: u64| old(self).has(i) ==> #[trigger] final(self).rec(i) == old(self).rec(i)
                &&& ino == final(self).count()
                &&& final(self).rec(ino).kind == kind
                &&& final(self).rec(ino).size == (if kind == InodeKind::File { size } else { 0 })
            },
    {
        match self.find_child(parent, name) {
            Some(i) => {
                let n0 = self.records.len();
                assert(i - 1 < n0);
                let idx = (i - 1) as usize;
                if kind == InodeKind::File && self.records[idx].kind == InodeKind::File {
                    let ghost before = *self;
                    self.records[idx].size = size;
                    proof {
                        assert(self.recs().len() == before.recs().len());
                        assert forall|j: u64| before.has(j) && j != i implies #[trigger] self.rec(j) == before.rec(j) by {
                            assert(self.recs()[j - 1] == before.recs()[j - 1]);
                        }
                        assert forall|j: u64| 1 <= j <= self.count() implies #[trigger] self.recs()[j - 1].kind == before.recs()[j - 1].kind
                            && self.recs()[j - 1].full_key@ == before.recs()[j - 1].full_key@ by {
                            if j != i {
                                assert(self.rec(j) == before.rec(j));
                            }
                        }
                        assert(forall|j: u64| 1 <= j <= self.count() ==> self.key_at(j) == before.key_at(j));
                        assert(forall|j: u64| 1 <= j <= self.count() ==> (self.is_dir(j) == before.is_dir(j)));
                    }
                }
                return i;
            },
            None => {},
        }
        let ghost before = *self;
        let n0 = self.records.len();
        assert(parent - 1 < n0);
        let base = concat_bytes(&self.records[(parent - 1) as usize].full_key, name);
        let full_key = match kind {
            InodeKind::File => base,
            InodeKind::Directory => {
                let mut k = base;
                k.push(SLASH);
                k
            },
        };
        let rec = InodeRecord {
            parent,
            name: copy_bytes(name),
            kind,
            full_key,
            size: if kind == InodeKind::File { size } else { 0 },
        };
        let ghost grec = rec;
        self.records.push(rec);
        let n = self.records.len();
        let ino = n as u64;
        assert(self.recs() == before.recs().push(grec));
        assert(ino - 1 == before.count());
        assert(self.rec(ino) == grec);
        assert forall|i: u64| before.has(i) implies #[trigger] self.rec(i) == before.rec(i) by {}
        assert forall|i: u64| 2 <= i <= self.count() implies {
            let r = #[trigger] self.rec(i);
            &&& 1 <= r.parent < i
            &&& self.is_dir(r.parent)
            &&& valid_name(r.name@)
            &&& r.full_key@ == key_of(self.key_at(r.parent), r.name@, r.kind)
            &&& (r.kind == InodeKind::Directory ==> r.size == 0)
        } by {
            if i < ino {
                assert(before.rec(i) == self.rec(i));
                assert(before.recs()[before.rec(i).parent - 1] == self.recs()[before.rec(i).parent - 1]);
            } else {
                assert(self.recs()[parent - 1] == before.recs()[parent - 1]);
                match kind {
                    InodeKind::File => {},
                    InodeKind::Directory => {},
                }
            }
        }
        assert forall|i: u64, j: u64|
            #![trigger self.rec(i), self.rec(j)]
            2 <= i <= self.count() && 2 <= j <= self.count() && i != j && self.rec(i).parent
                == self.rec(j).parent implies self.rec(i).name@ != self.rec(j).name@ by {
            if i == ino {
                assert(!before.child(parent, name@, j));
            } else if j == ino {
                assert(!before.child(parent, name@, i));
            } else {
                assert(before.rec(i) == self.rec(i) && before.rec(j) == self.rec(j));
            }
        }
        ino
    }

    /// Resolves `name` in `parent` from the table alone: `Ok(None)` when the
    /// table does not know the child yet and the object store must be asked.
    pub fn lookup_cached(&self, parent: u64, name: &Vec<u8>) -> (r: Result<Option<LookedUp>, InodeError>)
        requires
            self.wf(),
        ensures
            !self.has(parent) ==> r == Err::<Option<LookedUp>, InodeError>(InodeError::InodeDoesNotExist(parent)),
            self.has(parent) && !self.is_dir(parent) ==> r == Err::<Option<LookedUp>, InodeError>(
                InodeError::NotADirectory(parent),
            ),
            self.is_dir(parent) && !valid_name(name@) ==> (r matches Err(InodeError::InvalidFileName(n)) && n@ == name@),
            self.is_dir(parent) && valid_name(name@) ==> match r {
                Ok(Some(l)) => self.child(parent, name@, l.ino) && self.describes(l),
                Ok(None) => !self.has_child(parent, name@),
                Err(_) => false,
            },
    {
        match self.check_dir(parent) {
            Err(e) => {
                return Err(e);
            },
            Ok(()) => {},
        }
        if !Self::check_name(name) {
            return Err(InodeError::InvalidFileName(copy_bytes(name)));
        }
        match self.find_child(parent, name) {
            Some(i) => Ok(Some(self.looked_up(i))),
            None => Ok(None),
        }
    }

    /// Resolves `name` in `parent` once the object store has been probed:
    /// `file_probe` is the outcome of a HEAD on the file key (the object's size,
    /// or `None` when absent) and `dir_probe` that of a listing of the
    /// directory prefix (whether anything lies under it). A name that is both a
    /// file and a directory denotes the directory.
    pub fn lookup_resolve(
        &mut self,
        parent: u64,
        name: &Vec<u8>,
        file_probe: Result<Option<u64>, String>,
        dir_probe: Result<bool, String>,
    ) -> (r: Result<LookedUp, InodeError>)
        requires
            old(self).wf(),
        ensures
            final(self).wf(),
            old(self).stable(&*final(self)),
            !old(self).is_dir(parent) || !valid_name(name@) || old(self).has_child(parent, name@)
                ==> final(self).recs() == old(self).recs(),
            !old(self).has(parent) ==> r == Err::<LookedUp, InodeError>(InodeError::InodeDoesNotExist(parent)),
            old(self).has(parent) && !old(self).is_dir(parent) ==> r == Err::<LookedUp, InodeError>(
                InodeError::NotADirectory(parent),
            ),
            old(self).is_dir(parent) && !valid_name(name@) ==> (r matches Err(InodeError::InvalidFileName(n)) && n@ == name@),
            old(self).is_dir(parent) && valid_name(name@) && old(self).has_child(parent, name@) ==> (r matches Ok(l)
                && old(self).child(parent, name@, l.ino) && old(self).describes(l)),
            old(self).is_dir(parent) && valid_name(name@) && !old(self).has_child(parent, name@) ==> {
                match (file_probe, dir_probe) {
                    (_, Ok(true)) => r matches Ok(l) && final(self).child(parent, name@, l.ino)
                        && final(self).describes(l) && l.stat.kind == InodeKind::Directory
                        && final(self).count() == old(self).count() + 1 && l.ino == final(self).count()
                        && (forall|i: u64| old(self).has(i) ==> #[trigger] final(self).rec(i) == old(self).rec(i)),
                    (Ok(Some(size)), _) => r matches Ok(l) && final(self).child(parent, name@, l.ino)
                        && final(self).describes(l) && l.stat == (InodeStat { size, kind: InodeKind::File })
                        && final(self).count() == old(self).count() + 1 && l.ino == final(self).count()
                        && (forall|i: u64| old(self).has(i) ==> #[trigger] final(self).rec(i) == old(self).rec(i)),
                    (Err(e), _) => r == Err::<LookedUp, InodeError>(InodeError::ClientError(e))
                        && final(self).recs() == old(self).recs(),
                    (Ok(None), Err(e)) => r == Err::<LookedUp, InodeError>(InodeError::ClientError(e))
                        && final(self).recs() == old(self).recs(),
                    (Ok(None), Ok(false)) => r == Err::<LookedUp, InodeError>(InodeError::FileDoesNotExist)
                        && final(self).recs() == old(self).recs(),
                }
            },
    {
        match self.lookup_cached(parent, name) {
            Err(e) => {
                return Err(e);
            },
            Ok(Some(l)) => {
                return Ok(l);
            },
            Ok(None) => {},
        }
        let (kind, size) = match (file_probe, dir_probe) {
            (_, Ok(true)) => (InodeKind::Directory, 0u64),
            (Ok(Some(size)), _) => (InodeKind::File, size),
            (Err(e), _) => {
                return Err(InodeError::ClientError(e));
            },
            (Ok(None), Err(e)) => {
                return Err(InodeError::ClientError(e));
            },
            (Ok(None), Ok(false)) => {
                return Err(InodeError::FileDoesNotExist);
            },
        };
        let ino = self.insert_child(parent, name, kind, size);
        Ok(self.looked_up(ino))
    }
}

/// Once `lookup` has resolved `name` in `parent` to `ino`, every later state
/// of the table resolves it to `ino` again, and to no other inode.
pub proof fn lemma_lookup_stable(a: &Superblock, b: &Superblock, parent: u64, name: Seq<u8>, ino: u64)
    requires
        a.wf(),
        b.wf(),
        a.stable(b),
        a.child(parent, name, ino),
    ensures
        b.child(parent, name, ino),
        forall|j: u64| b.child(parent, name, j) ==> j == ino,
{
    assert(b.rec(ino).parent == a.rec(ino).parent);
    assert forall|j: u64| b.child(parent, name, j) implies j == ino by {
        if j != ino {
            assert(b.rec(j).parent == b.rec(ino).parent);
        }
    }
}

/// An inode keeps its kind in every later state of the table.
pub proof fn lemma_kind_stable(a: &Superblock, b: &Superblock, ino: u64)
    requires
        a.stable(b),
        a.has(ino),
    ensures
        b.has(ino),
        b.rec(ino).kind == a.rec(ino).kind,
{
    assert(b.rec(ino).kind == a.rec(ino).kind);
}

/// Tables that follow one another are stable along the way.
pub proof fn lemma_stable_trans(a: &Superblock, b: &Superblock, c: &Superblock)
    requires
        a.stable(b),
        b.stable(c),
    ensures
        a.stable(c),
{
    assert forall|i: u64| #![trigger c.rec(i)] a.has(i) implies {
        &&& c.rec(i).parent == a.rec(i).parent
        &&& c.rec(i).name@ == a.rec(i).name@
        &&& c.rec(i).kind == a.rec(i).kind
        &&& c.rec(i).full_key@ == a.rec(i).full_key@
    } by {
        assert(b.rec(i).parent == a.rec(i).parent);
    }
}

} // verus!
