use vstd::prelude::*;

use crate::bytes::{bytes_eq, copy_bytes, slice_bytes};
use crate::inode::{InodeKind, Superblock, valid_name, SLASH};

verus! {

/// An object in a listing page: its full key and size.
#[derive(Debug)]
pub struct ListedObject {
    pub key: Vec<u8>,
    pub size: u64,
}

/// One page of a delimited listing.
#[derive(Debug)]
pub struct ListPage {
    pub common_prefixes: Vec<Vec<u8>>,
    pub contents: Vec<ListedObject>,
    pub next_continuation: Option<Vec<u8>>,
}

/// A listing to issue: keys under `prefix`, delimited by `/`, at most
/// `max_keys` of them, from `continuation` on.
#[derive(Debug)]
pub struct ListRequest {
    pub prefix: Vec<u8>,
    pub continuation: Option<Vec<u8>>,
    pub max_keys: usize,
}

/// A child yielded by a directory cursor.
#[derive(Debug)]
pub struct DirEntry {
    pub ino: u64,
    pub name: Vec<u8>,
    pub kind: InodeKind,
    pub size: u64,
}

#[derive(Debug)]
pub enum ReaddirStep {
    Entry(DirEntry),
    End,
    NeedPage(ListRequest),
}

#[derive(Debug)]
struct Pending {
    name: Vec<u8>,
    kind: InodeKind,
    size: u64,
}

/// A cursor over the children of one directory.
pub struct ReaddirHandle {
    dir: u64,
    parent: u64,
    prefix: Vec<u8>,
    page_size: usize,
    pending: Vec<Pending>,
    continuation: Option<Vec<u8>>,
    finished: bool,
    readded: Option<DirEntry>,
    listed: Ghost<Seq<Seq<u8>>>,
    yielded: Ghost<Seq<Seq<u8>>>,
}

/// Stacked names in the order they are popped.
pub open spec fn yield_order(p: Seq<Seq<u8>>) -> Seq<Seq<u8>> {
    Seq::new(p.len(), |j: int| p[p.len() - 1 - j])
}

/// The part of `key` after `prefix`, when `key` starts with `prefix`.
pub fn strip_prefix(prefix: &Vec<u8>, key: &Vec<u8>) -> (r: Option<Vec<u8>>)
    ensures
        match r {
            Some(n) => prefix@.len() <= key@.len() && key@.subrange(0, prefix@.len() as int) == prefix@
                && n@ == key@.subrange(prefix@.len() as int, key@.len() as int),
            None => !(prefix@.len() <= key@.len() && key@.subrange(0, prefix@.len() as int) == prefix@),
        },
        match r {
            Some(n) => after_prefix(prefix@, key@) == Some(n@),
            None => after_prefix(prefix@, key@) is None,
        },
{
    if prefix.len() > key.len() {
        return None;
    }
    let head = slice_bytes(key, 0, prefix.len());
    if !bytes_eq(&head, prefix) {
        return None;
    }
    Some(slice_bytes(key, prefix.len(), key.len()))
}

/// The part of `key` after `prefix`, when `key` starts with `prefix`.
pub open spec fn after_prefix(prefix: Seq<u8>, key: Seq<u8>) -> Option<Seq<u8>> {
    if prefix.len() <= key.len() && key.subrange(0, prefix.len() as int) == prefix {
        Some(key.subrange(prefix.len() as int, key.len() as int))
    } else {
        None
    }
}

/// The directory child that common prefix `cp` denotes under `prefix`.
pub open spec fn dir_child(prefix: Seq<u8>, cp: Seq<u8>) -> Option<Seq<u8>> {
    match after_prefix(prefix, cp) {
        Some(n) => if n.len() > 1 && n.last() == SLASH && valid_name(n.drop_last()) {
            Some(n.drop_last())
        } else {
            None
        },
        None => None,
    }
}

/// The file child that object key `key` denotes under `prefix`.
pub open spec fn file_child(prefix: Seq<u8>, key: Seq<u8>) -> Option<Seq<u8>> {
    match after_prefix(prefix, key) {
        Some(n) => if n.len() > 0 && valid_name(n) {
            Some(n)
        } else {
            None
        },
        None => None,
    }
}

/// The directory children that common prefixes `cps` denote, in order.
pub open spec fn dir_children(prefix: Seq<u8>, cps: Seq<Seq<u8>>) -> Seq<Seq<u8>>
    decreases cps.len(),
{
    if cps.len() == 0 {
        Seq::empty()
    } else {
        let rest = dir_children(prefix, cps.drop_last());
        match dir_child(prefix, cps.last()) {
            Some(n) => rest.push(n),
            None => rest,
        }
    }
}

/// The file children that object keys `keys` denote, in order, leaving out
/// the names in `dirs`.
pub open spec fn file_children(prefix: Seq<u8>, keys: Seq<Seq<u8>>, dirs: Seq<Seq<u8>>) -> Seq<Seq<u8>>
    decreases keys.len(),
{
    if keys.len() == 0 {
        Seq::empty()
    } else {
        let rest = file_children(prefix, keys.drop_last(), dirs);
        match file_child(prefix, keys.last()) {
            Some(n) => if dirs.contains(n) {
                rest
            } else {
                rest.push(n)
            },
            None => rest,
        }
    }
}

pub open spec fn prefix_views(page: ListPage) -> Seq<Seq<u8>> {
    page.common_prefixes@.map_values(|v: Vec<u8>| v@)
}

pub open spec fn key_views(page: ListPage) -> Seq<Seq<u8>> {
    page.contents@.map_values(|o: ListedObject| o.key@)
}

/// The children a listing page under `prefix` yields, in order: the files,
/// then the directories; a name that is both is a directory.
pub open spec fn page_children(prefix: Seq<u8>, page: ListPage) -> Seq<Seq<u8>> {
    let dirs = dir_children(prefix, prefix_views(page));
    file_children(prefix, key_views(page), dirs) + dirs
}

impl ReaddirHandle {
    pub closed spec fn dir_ino(&self) -> u64 {
        self.dir
    }

    pub closed spec fn parent_ino(&self) -> u64 {
        self.parent
    }

    pub closed spec fn dir_prefix(&self) -> Seq<u8> {
        self.prefix@
    }

    pub closed spec fn is_finished(&self) -> bool {
        self.finished
    }

    pub closed spec fn pending_names(&self) -> Seq<Seq<u8>> {
        self.pending@.map_values(|p: Pending| p.name@)
    }

    pub closed spec fn page_len(&self) -> usize {
        self.page_size
    }

    /// The continuation token of the last page taken in.
    pub closed spec fn token(&self) -> Option<Seq<u8>> {
        match self.continuation {
            Some(c) => Some(c@),
            None => None,
        }
    }

    pub closed spec fn readded_entry(&self) -> Option<DirEntry> {
        self.readded
    }

    /// The children of every page taken in, in listing order.
    pub closed spec fn listed_names(&self) -> Seq<Seq<u8>> {
        self.listed@
    }

    /// The names yielded by `next` and not pushed back, in order.
    pub closed spec fn yielded_names(&self) -> Seq<Seq<u8>> {
        self.yielded@
    }

    pub open spec fn readded_names(&self) -> Seq<Seq<u8>> {
        match self.readded_entry() {
            Some(e) => seq![e.name@],
            None => Seq::empty(),
        }
    }

    pub closed spec fn wf(&self) -> bool {
        &&& forall|i: int| 0 <= i < self.pending@.len() ==> valid_name(#[trigger] self.pending@[i].name@)
        &&& self.listed@ == self.yielded@ + self.readded_names() + yield_order(self.pending_names())
    }

    /// A fresh cursor over directory `dir`, whose parent is `parent` and whose
    /// key prefix is `prefix`, listing `page_size` keys at a time.
    pub fn new(dir: u64, parent: u64, prefix: Vec<u8>, page_size: usize) -> (r: Self)
        ensures
            r.wf(),
            r.dir_ino() == dir,
            r.parent_ino() == parent,
            r.dir_prefix() == prefix@,
            !r.is_finished(),
            r.pending_names().len() == 0,
            r.readded_entry() is None,
            r.page_len() == page_size,
            r.token() is None,
            r.listed_names().len() == 0,
            r.yielded_names().len() == 0,
    {
        let r = ReaddirHandle {
            dir,
            parent,
            prefix,
            page_size,
            pending: Vec::new(),
            continuation: None,
            finished: false,
            readded: None,
            listed: Ghost(Seq::empty()),
            yielded: Ghost(Seq::empty()),
        };
        assert(r.listed@ =~= r.yielded@ + r.readded_names() + yield_order(r.pending_names()));
        assert(r.pending_names() =~= Seq::<Seq<u8>>::empty());
        r
    }

    /// The inode reported for `..`.
    pub fn parent(&self) -> (r: u64)
        ensures
            r == self.parent_ino(),
    {
        self.parent
    }

    /// The next child: the one pushed back if any, else the next buffered
    /// entry (given its inode in `sb`), else the end, or the listing to issue
    /// before the cursor can go on.
    pub fn next(&mut self, sb: &mut Superblock) -> (r: ReaddirStep)
        requires
            old(self).wf(),
            old(sb).wf(),
            old(sb).is_dir(old(self).dir_ino()),
        ensures
            final(self).wf(),
            final(sb).wf(),
            old(sb).stable(&*final(sb)),
            final(self).dir_ino() == old(self).dir_ino(),
            final(self).parent_ino() == old(self).parent_ino(),
            final(self).dir_prefix() == old(self).dir_prefix(),
            final(self).page_len() == old(self).page_len(),
            final(self).token() == old(self).token(),
            final(self).readded_entry() is None,
            r matches ReaddirStep::NeedPage(req) ==> req.prefix@ == old(self).dir_prefix() && req.max_keys
                == old(self).page_len() && (match req.continuation {
                Some(c) => Some(c@),
                None => None,
            }) == old(self).token(),
            old(self).readded_entry() matches Some(e) ==> r == ReaddirStep::Entry(e)
                && *final(sb) == *old(sb) && final(self).pending_names() == old(self).pending_names(),
            old(self).readded_entry() is None && old(self).pending_names().len() > 0 ==> (r matches ReaddirStep::Entry(e)
                && e.name@ == old(self).pending_names().last()
                && final(sb).child(old(self).dir_ino(), e.name@, e.ino)
                && e.kind == final(sb).rec(e.ino).kind && e.size == final(sb).rec(e.ino).size
                && final(self).pending_names() == old(self).pending_names().drop_last()),
            old(self).readded_entry() is None && old(self).pending_names().len() == 0 ==> (
                if old(self).is_finished() { r is End } else { r is NeedPage }) && *final(sb) == *old(sb),
            final(self).listed_names() == old(self).listed_names(),
            final(self).is_finished() == old(self).is_finished(),
            r matches ReaddirStep::Entry(e) ==> final(self).yielded_names() == old(self).yielded_names().push(e.name@),
            !(r is Entry) ==> final(self).yielded_names() == old(self).yielded_names(),
            r is End ==> final(self).yielded_names() == final(self).listed_names(),
            r is NeedPage ==> final(self).yielded_names() == final(self).listed_names(),
    {
        let taken = self.readded.take();
        match taken {
            Some(e) => {
                self.yielded = Ghost(self.yielded@.push(e.name@));
                assert(self.listed@ =~= self.yielded@ + self.readded_names() + yield_order(self.pending_names()));
                return ReaddirStep::Entry(e);
            },
            None => {},
        }
        match self.pending.pop() {
            Some(p) => {
                proof {
                    assert(old(self).pending@.drop_last() == self.pending@);
                    assert(self.pending_names() =~= old(self).pending_names().drop_last());
                    assert(valid_name(old(self).pending@[old(self).pending@.len() - 1].name@));
                    assert(yield_order(old(self).pending_names()) =~= seq![p.name@] + yield_order(self.pending_names()));
                }
                self.yielded = Ghost(self.yielded@.push(p.name@));
                assert(self.listed@ =~= self.yielded@ + self.readded_names() + yield_order(self.pending_names()));
                let ino = sb.insert_child(self.dir, &p.name, p.kind, p.size);
                let stat = sb.looked_up(ino).stat;
                ReaddirStep::Entry(DirEntry { ino, name: p.name, kind: stat.kind, size: stat.size })
            },
            None => {
                if self.finished {
                    assert(self.listed@ =~= self.yielded@);
                    ReaddirStep::End
                } else {
                    assert(self.listed@ =~= self.yielded@);
                    let continuation = match &self.continuation {
                        Some(c) => Some(copy_bytes(c)),
                        None => None,
                    };
                    ReaddirStep::NeedPage(
                        ListRequest { prefix: copy_bytes(&self.prefix), continuation, max_keys: self.page_size },
                    )
                }
            },
        }
    }

    /// Pushes back an entry that was yielded but not delivered; the next call
    /// of `next` yields it again.
    pub fn readd(&mut self, e: DirEntry)
        requires
            old(self).wf(),
            old(self).readded_entry() is None,
            old(self).yielded_names().len() > 0,
            old(self).yielded_names().last() == e.name@,
        ensures
            final(self).listed_names() == old(self).listed_names(),
            final(self).yielded_names() == old(self).yielded_names().drop_last(),
            final(self).wf(),
            final(self).readded_entry() == Some(e),
            final(self).dir_ino() == old(self).dir_ino(),
            final(self).parent_ino() == old(self).parent_ino(),
            final(self).dir_prefix() == old(self).dir_prefix(),
            final(self).pending_names() == old(self).pending_names(),
            final(self).is_finished() == old(self).is_finished(),
            final(self).page_len() == old(self).page_len(),
            final(self).token() == old(self).token(),
    {
        let ghost n = e.name@;
        self.readded = Some(e);
        self.yielded = Ghost(self.yielded@.drop_last());
        assert(self.listed@ =~= self.yielded@ + self.readded_names() + yield_order(self.pending_names())) by {
            assert(old(self).yielded@ =~= self.yielded@.push(n));
        }
    }

    /// Takes in a listing page. Each common prefix under the directory yields a
    /// directory child named by its part after the prefix, without the trailing
    /// `/`; each object yields a file child, unless a common prefix of the page
    /// has its name. Names that cannot stand in a directory are passed over.
    /// The new children come after those still pending, files first. The
    /// cursor is finished when the page has no continuation.
    pub fn add_page(&mut self, page: ListPage)
        requires
            old(self).wf(),
        ensures
            final(self).wf(),
            final(self).dir_ino() == old(self).dir_ino(),
            final(self).parent_ino() == old(self).parent_ino(),
            final(self).dir_prefix() == old(self).dir_prefix(),
            final(self).readded_entry() == old(self).readded_entry(),
            final(self).is_finished() == (page.next_continuation is None),
            final(self).page_len() == old(self).page_len(),
            final(self).token() == (match page.next_continuation {
                Some(c) => Some(c@),
                None => None,
            }),
            final(self).listed_names() == old(self).listed_names() + page_children(old(self).dir_prefix(), page),
            final(self).yielded_names() == old(self).yielded_names(),
            ({
                let c = page_children(old(self).dir_prefix(), page);
                &&& final(self).pending_names().len() == c.len() + old(self).pending_names().len()
                &&& forall|j: int| 0 <= j < c.len() ==> #[trigger] c[j] == final(self).pending_names()[c.len() - 1 - j]
                &&& final(self).pending_names().subrange(c.len() as int, final(self).pending_names().len() as int)
                    == old(self).pending_names()
            }),
    {
        let ghost pfx = self.prefix@;
        let ghost cps = prefix_views(page);
        let ghost keys = key_views(page);
        let ghost c = page_children(pfx, page);
        let ListPage { common_prefixes, contents, next_continuation } = page;
        let mut dirs: Vec<Vec<u8>> = Vec::new();
        let mut i: usize = 0;
        while i < common_prefixes.len()
            invariant
                self.prefix@ == pfx,
                cps == common_prefixes@.map_values(|v: Vec<u8>| v@),
                i <= common_prefixes@.len(),
                dirs@.map_values(|v: Vec<u8>| v@) == dir_children(pfx, cps.subrange(0, i as int)),
            decreases common_prefixes@.len() - i,
        {
            let ghost before = dirs@;
            proof {
                assert(cps.subrange(0, i + 1).drop_last() =~= cps.subrange(0, i as int));
                assert(cps.subrange(0, i + 1).last() == common_prefixes@[i as int]@);
            }
            match strip_prefix(&self.prefix, &common_prefixes[i]) {
                Some(n) => {
                    if n.len() > 1 && n[n.len() - 1] == SLASH {
                        let name = slice_bytes(&n, 0, n.len() - 1);
                        assert(name@ =~= n@.drop_last());
                        if Superblock::check_name(&name) {
                            dirs.push(name);
                            assert(dirs@.map_values(|v: Vec<u8>| v@) =~= before.map_values(|v: Vec<u8>| v@).push(name@));
                        }
                    }
                },
                None => {},
            }
            i = i + 1;
        }
        assert(cps.subrange(0, i as int) =~= cps);
        let ghost dv = dirs@.map_values(|v: Vec<u8>| v@);
        let mut order: Vec<Pending> = Vec::new();
        let mut k: usize = 0;
        while k < contents.len()
            invariant
                self.prefix@ == pfx,
                keys == contents@.map_values(|o: ListedObject| o.key@),
                dv == dirs@.map_values(|v: Vec<u8>| v@),
                k <= contents@.len(),
                order@.map_values(|p: Pending| p.name@) == file_children(pfx, keys.subrange(0, k as int), dv),
            decreases contents@.len() - k,
        {
            let ghost before = order@;
            proof {
                assert(keys.subrange(0, k + 1).drop_last() =~= keys.subrange(0, k as int));
                assert(keys.subrange(0, k + 1).last() == contents@[k as int].key@);
            }
            match strip_prefix(&self.prefix, &contents[k].key) {
                Some(name) => {
                    if name.len() > 0 && Superblock::check_name(&name) {
                        if !Self::listed(&dirs, &name) {
                            assert(!dv.contains(name@)) by {
                                if dv.contains(name@) {
                                    let j = choose|j: int| 0 <= j < dv.len() && dv[j] == name@;
                                    assert(dirs@[j]@ == name@);
                                }
                            }
                            order.push(Pending { name, kind: InodeKind::File, size: contents[k].size });
                            assert(order@.map_values(|p: Pending| p.name@) =~= before.map_values(|p: Pending| p.name@).push(name@));
                        } else {
                            proof {
                                let j = choose|j: int| 0 <= j < dirs@.len() && (#[trigger] dirs@[j])@ == name@;
                                assert(dv[j] == name@);
                            }
                        }
                    }
                },
                None => {},
            }
            k = k + 1;
        }
        assert(keys.subrange(0, k as int) =~= keys);
        let ghost fv = order@.map_values(|p: Pending| p.name@);
        let mut d: usize = 0;
        while d < dirs.len()
            invariant
                dv == dirs@.map_values(|v: Vec<u8>| v@),
                d <= dirs@.len(),
                order@.map_values(|p: Pending| p.name@) == fv + dv.subrange(0, d as int),
            decreases dirs@.len() - d,
        {
            let ghost before = order@;
            order.push(Pending { name: copy_bytes(&dirs[d]), kind: InodeKind::Directory, size: 0 });
            assert(order@.map_values(|p: Pending| p.name@) =~= before.map_values(|p: Pending| p.name@).push(dv[d as int]));
            assert(dv.subrange(0, d + 1) =~= dv.subrange(0, d as int).push(dv[d as int]));
            d = d + 1;
        }
        assert(dv.subrange(0, d as int) =~= dv);
        assert(order@.map_values(|p: Pending| p.name@) == c);
        let mut stack: Vec<Pending> = Vec::new();
        while order.len() > 0
            invariant
                order@.len() + stack@.len() == c.len(),
                forall|j: int| 0 <= j < order@.len() ==> (#[trigger] order@[j]).name@ == c[j],
                forall|j: int| 0 <= j < stack@.len() ==> (#[trigger] stack@[j]).name@ == c[c.len() - 1 - j],
            decreases order@.len(),
        {
            let ghost before = order@;
            let p = order.pop().unwrap();
            assert(p.name@ == c[before.len() - 1]);
            stack.push(p);
        }
        let ghost oldp = self.pending@;
        let mut old_pending: Vec<Pending> = Vec::new();
        std::mem::swap(&mut old_pending, &mut self.pending);
        stack.append(&mut old_pending);
        self.pending = stack;
        self.listed = Ghost(self.listed@ + c);
        proof {
            let pn = self.pending_names();
            let on = old(self).pending_names();
            assert(pn.len() == c.len() + on.len());
            assert forall|j: int| 0 <= j < pn.len() implies #[trigger] yield_order(pn)[j] == (yield_order(on) + c)[j] by {
                if j < on.len() {
                    assert(pn[pn.len() - 1 - j] == on[on.len() - 1 - j]) by {
                        assert(pn.subrange(c.len() as int, pn.len() as int)[on.len() - 1 - j] == on[on.len() - 1 - j]);
                    }
                } else {
                    let k = j - on.len();
                    assert(c[k] == pn[c.len() - 1 - k]);
                }
            }
            assert(yield_order(pn) =~= yield_order(on) + c);
            assert(self.listed@ =~= self.yielded@ + self.readded_names() + yield_order(pn));
            assert(self.pending_names().subrange(c.len() as int, self.pending_names().len() as int)
                =~= old(self).pending_names());
            assert forall|j: int| 0 <= j < self.pending@.len() implies valid_name(#[trigger] self.pending@[j].name@) by {
                if j >= c.len() {
                    assert(self.pending@[j] == oldp[j - c.len()]);
                } else {
                    lemma_children_valid(pfx, page);
                    assert(c.contains(c[c.len() - 1 - j]));
                }
            }
        }
        self.finished = next_continuation.is_none();
        self.continuation = next_continuation;
    }

    fn listed(names: &Vec<Vec<u8>>, name: &Vec<u8>) -> (r: bool)
        ensures
            r == exists|j: int| 0 <= j < names@.len() && (#[trigger] names@[j])@ == name@,
    {
        let mut i: usize = 0;
        while i < names.len()
            invariant
                i <= names@.len(),
                forall|j: int| 0 <= j < i ==> (#[trigger] names@[j])@ != name@,
            decreases names@.len() - i,
        {
            if bytes_eq(&names[i], name) {
                return true;
            }
            i = i + 1;
        }
        false
    }
}

/// A cursor that has taken in its last page and has nothing pending or
/// pushed back has yielded each listed child exactly once, in listing order,
/// however often entries were pushed back on the way.
pub proof fn lemma_enumeration_complete(h: &ReaddirHandle)
    requires
        h.wf(),
        h.is_finished(),
        h.pending_names().len() == 0,
        h.readded_entry() is None,
    ensures
        h.yielded_names() == h.listed_names(),
{
    assert(h.yielded_names() + h.readded_names() + yield_order(h.pending_names()) =~= h.yielded_names());
}

proof fn lemma_dir_children_valid(prefix: Seq<u8>, cps: Seq<Seq<u8>>)
    ensures
        forall|j: int| 0 <= j < dir_children(prefix, cps).len() ==> valid_name(#[trigger] dir_children(prefix, cps)[j]),
    decreases cps.len(),
{
    if cps.len() > 0 {
        lemma_dir_children_valid(prefix, cps.drop_last());
        let rest = dir_children(prefix, cps.drop_last());
        let all = dir_children(prefix, cps);
        match dir_child(prefix, cps.last()) {
            Some(n) => {
                assert(all == rest.push(n));
                assert forall|j: int| 0 <= j < all.len() implies valid_name(#[trigger] all[j]) by {
                    if j < rest.len() {
                        assert(all[j] == rest[j]);
                    }
                }
            },
            None => {
                assert(all == rest);
            },
        }
    }
}

proof fn lemma_file_children_valid(prefix: Seq<u8>, keys: Seq<Seq<u8>>, dirs: Seq<Seq<u8>>)
    ensures
        forall|j: int| 0 <= j < file_children(prefix, keys, dirs).len() ==> valid_name(#[trigger] file_children(prefix, keys, dirs)[j]),
    decreases keys.len(),
{
    if keys.len() > 0 {
        lemma_file_children_valid(prefix, keys.drop_last(), dirs);
        let rest = file_children(prefix, keys.drop_last(), dirs);
        let all = file_children(prefix, keys, dirs);
        match file_child(prefix, keys.last()) {
            Some(n) => {
                if !dirs.contains(n) {
                    assert(all == rest.push(n));
                    assert forall|j: int| 0 <= j < all.len() implies valid_name(#[trigger] all[j]) by {
                        if j < rest.len() {
                            assert(all[j] == rest[j]);
                        }
                    }
                } else {
                    assert(all == rest);
                }
            },
            None => {
                assert(all == rest);
            },
        }
    }
}

proof fn lemma_children_valid(prefix: Seq<u8>, page: ListPage)
    ensures
        forall|n: Seq<u8>| page_children(prefix, page).contains(n) ==> valid_name(n),
{
    let dirs = dir_children(prefix, prefix_views(page));
    let files = file_children(prefix, key_views(page), dirs);
    lemma_dir_children_valid(prefix, prefix_views(page));
    lemma_file_children_valid(prefix, key_views(page), dirs);
    assert forall|n: Seq<u8>| page_children(prefix, page).contains(n) implies valid_name(n) by {
        let j = choose|j: int| 0 <= j < page_children(prefix, page).len() && page_children(prefix, page)[j] == n;
        if j < files.len() {
            assert(files[j] == n);
        } else {
            assert(dirs[j - files.len()] == n);
        }
    }
}

} // verus!
