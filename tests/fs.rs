use s3_file_connector::fs::{
    errno_of, make_attr, Entry, ReplyBuffer, LookupStep, ReaddirOutcome, S3Filesystem,
    S3FilesystemConfig, EBADF, EINVAL, EIO, ENOENT, ENOTDIR, FUSE_ROOT_INODE,
};
use s3_file_connector::inode::{InodeError, InodeKind, InodeStat};
use s3_file_connector::prefetch::{PrefetchGetObject, RangeRequest, ReadStep, INITIAL_REQUEST_SIZE, MAX_IN_FLIGHT};
use s3_file_connector::readdir::{ListPage, ListRequest, ListedObject};

struct Store {
    objects: Vec<(Vec<u8>, u64)>,
}

impl Store {
    fn new(objs: &[(&str, u64)]) -> Store {
        let mut objects: Vec<(Vec<u8>, u64)> =
            objs.iter().map(|(k, s)| (k.as_bytes().to_vec(), *s)).collect();
        objects.sort();
        Store { objects }
    }

    fn head(&self, key: &[u8]) -> Option<u64> {
        self.objects.iter().find(|(k, _)| k == key).map(|(_, s)| *s)
    }

    fn any_under(&self, prefix: &[u8]) -> bool {
        self.objects.iter().any(|(k, _)| k.starts_with(prefix))
    }

    fn list(&self, req: &ListRequest) -> ListPage {
        let mut items: Vec<(Vec<u8>, Option<u64>)> = Vec::new();
        for (k, s) in &self.objects {
            if !k.starts_with(&req.prefix) {
                continue;
            }
            let rest = &k[req.prefix.len()..];
            match rest.iter().position(|b| *b == b'/') {
                Some(p) => {
                    let cp = k[..req.prefix.len() + p + 1].to_vec();
                    if !items.iter().any(|(x, kind)| *x == cp && kind.is_none()) {
                        items.push((cp, None));
                    }
                }
                None => items.push((k.clone(), Some(*s))),
            }
        }
        items.sort();
        let start: usize = match &req.continuation {
            Some(c) => String::from_utf8(c.clone()).unwrap().parse().unwrap(),
            None => 0,
        };
        let end = std::cmp::min(start + req.max_keys, items.len());
        let mut page = ListPage { common_prefixes: Vec::new(), contents: Vec::new(), next_continuation: None };
        for (k, s) in &items[start..end] {
            match s {
                Some(size) => page.contents.push(ListedObject { key: k.clone(), size: *size }),
                None => page.common_prefixes.push(k.clone()),
            }
        }
        if end < items.len() {
            page.next_continuation = Some(end.to_string().into_bytes());
        }
        page
    }
}

fn fs_new() -> S3Filesystem {
    S3Filesystem::new("bucket".to_string(), Vec::new(), S3FilesystemConfig::default())
}

fn lookup(fs: &mut S3Filesystem, store: &Store, parent: u64, name: &str) -> Result<Entry, i32> {
    let name = name.as_bytes().to_vec();
    match fs.lookup(parent, &name)? {
        LookupStep::Found(e) => Ok(e),
        LookupStep::Probe { file_key, dir_prefix } => {
            let f = store.head(&file_key);
            let d = store.any_under(&dir_prefix);
            fs.lookup_probed(parent, &name, Ok(f), Ok(d))
        }
    }
}

/// One readdir call as the kernel makes it, serving listings as they are asked for.
fn readdir_call(fs: &mut S3Filesystem, store: &Store, ino: u64, fh: u64, offset: i64, cap: usize) -> ReplyBuffer {
    let mut rep = ReplyBuffer::new(cap);
    let mut off = offset;
    loop {
        match fs.readdir(ino, fh, off, &mut rep).unwrap() {
            ReaddirOutcome::Full | ReaddirOutcome::End => return rep,
            ReaddirOutcome::NeedPage(req) => {
                fs.add_dir_page(fh, store.list(&req)).unwrap();
                if let Some(last) = rep.entries.last() {
                    off = last.1;
                }
            }
        }
    }
}

fn readdir_all(fs: &mut S3Filesystem, store: &Store, ino: u64, cap: usize) -> (Vec<(u64, i64, InodeKind, Vec<u8>)>, usize) {
    let fh = fs.opendir(ino, 0).unwrap().fh;
    let mut all = Vec::new();
    let mut offset = 0i64;
    let mut calls = 0;
    loop {
        let rep = readdir_call(fs, store, ino, fh, offset, cap);
        calls += 1;
        if rep.entries.is_empty() {
            return (all, calls);
        }
        offset = rep.entries.last().unwrap().1;
        all.extend(rep.entries);
    }
}

fn names(entries: &[(u64, i64, InodeKind, Vec<u8>)]) -> Vec<String> {
    entries.iter().map(|e| String::from_utf8(e.3.clone()).unwrap()).collect()
}

fn object(size: usize) -> Vec<u8> {
    (0..size).map(|i| (i * 31 % 251) as u8).collect()
}

fn read(fs: &mut S3Filesystem, obj: &[u8], fh: u64, offset: i64, size: u32) -> Vec<u8> {
    loop {
        match fs.read(2, fh, offset, size).unwrap() {
            ReadStep::Data(d) => return d,
            ReadStep::Fetch(req) => {
                let bytes = obj[req.start as usize..req.end as usize].to_vec();
                assert!(fs.supply_range(fh, req.start, &bytes).unwrap());
            }
        }
    }
}

fn open_object(fs: &mut S3Filesystem, store: &Store, name: &str) -> u64 {
    let e = lookup(fs, store, FUSE_ROOT_INODE, name).unwrap();
    fs.open(e.attr.ino, 0).unwrap().fh
}

#[test]
fn empty_bucket_lists_dot_entries_only() {
    let store = Store::new(&[]);
    let mut fs = fs_new();
    let (entries, _) = readdir_all(&mut fs, &store, FUSE_ROOT_INODE, 100);
    assert_eq!(names(&entries), vec![".", ".."]);
    assert_eq!(entries[0].1, 1);
    assert_eq!(entries[1].1, 2);
}

#[test]
fn two_files_one_directory() {
    let store = Store::new(&[("a.txt", 5), ("b.txt", 10), ("sub/c.txt", 2)]);
    let mut fs = fs_new();
    let (entries, _) = readdir_all(&mut fs, &store, FUSE_ROOT_INODE, 100);
    assert_eq!(names(&entries), vec![".", "..", "a.txt", "b.txt", "sub"]);
    assert_eq!(entries[4].2, InodeKind::Directory);
    let sub = lookup(&mut fs, &store, FUSE_ROOT_INODE, "sub").unwrap();
    assert_eq!(sub.attr.kind, InodeKind::Directory);
    assert_eq!(sub.attr.ino, entries[4].0);
    let (sub_entries, _) = readdir_all(&mut fs, &store, sub.attr.ino, 100);
    assert_eq!(names(&sub_entries), vec![".", "..", "c.txt"]);
    assert_eq!(sub_entries[1].0, FUSE_ROOT_INODE);
    let c = lookup(&mut fs, &store, sub.attr.ino, "c.txt").unwrap();
    assert_eq!(c.attr.kind, InodeKind::File);
    assert_eq!(c.attr.size, 2);
}

#[test]
fn file_and_directory_of_one_name_is_a_directory() {
    let store = Store::new(&[("x", 3), ("x/y", 1)]);
    let mut fs = fs_new();
    let x = lookup(&mut fs, &store, FUSE_ROOT_INODE, "x").unwrap();
    assert_eq!(x.attr.kind, InodeKind::Directory);
    let (entries, _) = readdir_all(&mut fs, &store, FUSE_ROOT_INODE, 100);
    assert_eq!(names(&entries), vec![".", "..", "x"]);
    assert_eq!(entries[2].2, InodeKind::Directory);
    assert_eq!(entries[2].0, x.attr.ino);
}

#[test]
fn short_replies_list_every_child_once() {
    let keys: Vec<String> = (0..250).map(|i| format!("f{:03}", i)).collect();
    let objs: Vec<(&str, u64)> = keys.iter().map(|k| (k.as_str(), 1u64)).collect();
    let store = Store::new(&objs);
    let mut fs = fs_new();
    let (entries, calls) = readdir_all(&mut fs, &store, FUSE_ROOT_INODE, 10);
    // 26 calls with entries, one empty call that sees the end
    assert_eq!(calls, 26 + 1);
    let got = names(&entries);
    assert_eq!(&got[..2], &[".".to_string(), "..".to_string()]);
    assert_eq!(got[2..].to_vec(), keys);
    for w in entries.windows(2) {
        assert!(w[0].1 < w[1].1);
    }
}

#[test]
fn lookup_is_stable() {
    let store = Store::new(&[("a", 1), ("d/e", 1)]);
    let mut fs = fs_new();
    let a1 = lookup(&mut fs, &store, FUSE_ROOT_INODE, "a").unwrap();
    let _ = readdir_all(&mut fs, &store, FUSE_ROOT_INODE, 100);
    let a2 = lookup(&mut fs, &store, FUSE_ROOT_INODE, "a").unwrap();
    assert_eq!(a1.attr.ino, a2.attr.ino);
    assert_eq!(a1.attr.kind, a2.attr.kind);
}

#[test]
fn lookup_errors() {
    let store = Store::new(&[("a", 1)]);
    let mut fs = fs_new();
    assert_eq!(lookup(&mut fs, &store, FUSE_ROOT_INODE, "..").err(), Some(EINVAL));
    assert_eq!(lookup(&mut fs, &store, FUSE_ROOT_INODE, ".").err(), Some(EINVAL));
    assert_eq!(lookup(&mut fs, &store, FUSE_ROOT_INODE, "a/b").err(), Some(EINVAL));
    assert_eq!(lookup(&mut fs, &store, FUSE_ROOT_INODE, "missing").err(), Some(ENOENT));
    assert_eq!(lookup(&mut fs, &store, 99, "a").err(), Some(ENOENT));
    let a = lookup(&mut fs, &store, FUSE_ROOT_INODE, "a").unwrap();
    assert_eq!(lookup(&mut fs, &store, a.attr.ino, "b").err(), Some(ENOTDIR));
    let name = b"z".to_vec();
    assert_eq!(
        fs.lookup_probed(FUSE_ROOT_INODE, &name, Err("down".to_string()), Ok(false)).err(),
        Some(EIO)
    );
}

#[test]
fn errno_mapping() {
    assert_eq!(errno_of(&InodeError::ClientError("x".to_string())), libc::EIO);
    assert_eq!(errno_of(&InodeError::FileDoesNotExist), libc::ENOENT);
    assert_eq!(errno_of(&InodeError::InodeDoesNotExist(3)), libc::ENOENT);
    assert_eq!(errno_of(&InodeError::InvalidFileName(b"..".to_vec())), libc::EINVAL);
    assert_eq!(errno_of(&InodeError::NotADirectory(3)), libc::ENOTDIR);
    assert_eq!(EBADF, libc::EBADF);
}

#[test]
fn attributes_of_files_and_directories() {
    let f = make_attr(7, &InodeStat { size: 10000, kind: InodeKind::File });
    assert_eq!((f.ino, f.size, f.blocks, f.perm, f.nlink, f.blksize), (7, 10000, 2, 0o644, 1, 4096));
    assert_eq!((f.uid, f.gid), (501, 20));
    let d = make_attr(1, &InodeStat { size: 0, kind: InodeKind::Directory });
    assert_eq!((d.perm, d.nlink, d.blksize, d.blocks), (0o755, 2, 512, 0));
}

#[test]
fn getattr_of_root_and_unknown() {
    let fs = fs_new();
    let a = fs.getattr(FUSE_ROOT_INODE).unwrap();
    assert_eq!(a.attr.kind, InodeKind::Directory);
    assert_eq!(fs.getattr(42).err(), Some(ENOENT));
}

#[test]
fn sequential_reads_reconstruct_the_object() {
    let size = 4 * 1024 * 1024 + 17;
    let obj = object(size);
    let store = Store::new(&[("big", size as u64)]);
    let mut fs = fs_new();
    let fh = open_object(&mut fs, &store, "big");
    let chunk = size / 10 + 1;
    let mut out = Vec::new();
    for i in 0..10 {
        out.extend(read(&mut fs, &obj, fh, (i * chunk) as i64, chunk as u32));
    }
    assert_eq!(out, obj);
}

#[test]
fn seek_backwards_resets() {
    let size = 3 * 1024 * 1024;
    let obj = object(size);
    let store = Store::new(&[("big", size as u64)]);
    let mut fs = fs_new();
    let fh = open_object(&mut fs, &store, "big");
    let mib = 1024 * 1024;
    let a = read(&mut fs, &obj, fh, 0, mib as u32);
    let b = read(&mut fs, &obj, fh, 0, mib as u32);
    assert_eq!(a, obj[..mib].to_vec());
    assert_eq!(b, obj[..mib].to_vec());
    let c = read(&mut fs, &obj, fh, 2 * mib as i64 + 5, 10);
    assert_eq!(c, obj[2 * mib + 5..2 * mib + 15].to_vec());
    let d = read(&mut fs, &obj, fh, 2 * mib as i64 + 15, 10);
    assert_eq!(d, obj[2 * mib + 15..2 * mib + 25].to_vec());
}

#[test]
fn reads_at_and_past_the_end_are_empty() {
    let obj = object(100);
    let store = Store::new(&[("small", 100)]);
    let mut fs = fs_new();
    let fh = open_object(&mut fs, &store, "small");
    assert_eq!(read(&mut fs, &obj, fh, 100, 10), Vec::<u8>::new());
    assert_eq!(read(&mut fs, &obj, fh, 500, 10), Vec::<u8>::new());
    assert_eq!(read(&mut fs, &obj, fh, 95, 10), obj[95..].to_vec());
}

#[test]
fn handles_are_unique_and_released_handles_are_bad() {
    let obj = object(10);
    let store = Store::new(&[("f", 10)]);
    let mut fs = fs_new();
    let e = lookup(&mut fs, &store, FUSE_ROOT_INODE, "f").unwrap();
    let h1 = fs.open(e.attr.ino, 0).unwrap().fh;
    let h2 = fs.open(e.attr.ino, 0).unwrap().fh;
    let h3 = fs.opendir(FUSE_ROOT_INODE, 0).unwrap().fh;
    assert!(h1 != h2 && h2 != h3 && h1 != h3);
    assert_eq!(fs.release(e.attr.ino, h1, 0, None, false), Ok(()));
    assert_eq!(fs.read(e.attr.ino, h1, 0, 5).err(), Some(EBADF));
    assert_eq!(fs.supply_range(h1, 0, &vec![1u8]).err(), Some(EBADF));
    assert_eq!(read(&mut fs, &obj, h2, 0, 5), obj[..5].to_vec());
    assert_eq!(fs.opendir(e.attr.ino, 0).err(), Some(ENOTDIR));
}

#[test]
fn stale_readdir_offset_is_refused_without_moving() {
    let store = Store::new(&[("a", 1), ("b", 1)]);
    let mut fs = fs_new();
    let fh = fs.opendir(FUSE_ROOT_INODE, 0).unwrap().fh;
    let first = readdir_call(&mut fs, &store, FUSE_ROOT_INODE, fh, 0, 3);
    assert_eq!(names(&first.entries), vec![".", "..", "a"]);
    let mut rep = ReplyBuffer::new(10);
    assert!(matches!(fs.readdir(FUSE_ROOT_INODE, fh, 1, &mut rep), Err(e) if e == EINVAL));
    assert!(rep.entries.is_empty());
    let rest = readdir_call(&mut fs, &store, FUSE_ROOT_INODE, fh, 3, 10);
    assert_eq!(names(&rest.entries), vec!["b"]);
    assert_eq!(rest.entries[0].1, 4);
    let mut rep = ReplyBuffer::new(10);
    assert!(matches!(fs.readdir(FUSE_ROOT_INODE, 999, 0, &mut rep), Err(e) if e == EBADF));
}

#[test]
fn stream_issues_ranges_ahead_up_to_the_bound() {
    let mut p = PrefetchGetObject::new(1 << 30);
    let first = match p.read(0, 10) {
        ReadStep::Fetch(r) => r,
        ReadStep::Data(_) => panic!("nothing is buffered yet"),
    };
    assert_eq!((first.start, first.end), (0, INITIAL_REQUEST_SIZE));
    let mut issued = vec![first];
    while let Some(r) = p.issue() {
        issued.push(r);
    }
    assert_eq!(issued.len(), MAX_IN_FLIGHT);
    assert_eq!(issued[1], RangeRequest { start: INITIAL_REQUEST_SIZE, end: 3 * INITIAL_REQUEST_SIZE });
    for w in issued.windows(2) {
        assert_eq!(w[0].end, w[1].start);
    }
    let bytes = vec![1u8; INITIAL_REQUEST_SIZE as usize];
    assert!(!p.supply(issued[1].start, &bytes));
    assert!(p.supply(0, &bytes));
    match p.read(0, 10) {
        ReadStep::Data(d) => assert_eq!(d, vec![1u8; 10]),
        ReadStep::Fetch(_) => panic!("the bytes are buffered"),
    }
    match p.read(10, INITIAL_REQUEST_SIZE as usize) {
        ReadStep::Fetch(r) => assert_eq!(r, issued[1]),
        ReadStep::Data(_) => panic!("the buffer is short"),
    }
    match p.read(5, 1) {
        ReadStep::Fetch(r) => assert_eq!((r.start, r.end), (5, 5 + INITIAL_REQUEST_SIZE)),
        ReadStep::Data(_) => panic!("a reset drops the buffer"),
    }
}

#[test]
fn pipelined_reads_reconstruct_the_object() {
    let size = 4 * 1024 * 1024 + 3;
    let obj = object(size);
    let store = Store::new(&[("big", size as u64)]);
    let mut fs = fs_new();
    let fh = open_object(&mut fs, &store, "big");
    let chunk = size / 10 + 1;
    let mut out = Vec::new();
    let mut most_in_flight = 0;
    for i in 0..10 {
        loop {
            match fs.read(2, fh, (i * chunk) as i64, chunk as u32).unwrap() {
                ReadStep::Data(d) => {
                    out.extend(d);
                    break;
                }
                ReadStep::Fetch(first) => {
                    let mut queue = vec![first];
                    while let Some(r) = fs.issue_range(fh).unwrap() {
                        queue.push(r);
                    }
                    most_in_flight = std::cmp::max(most_in_flight, queue.len());
                    for r in queue {
                        let bytes = obj[r.start as usize..r.end as usize].to_vec();
                        assert!(fs.supply_range(fh, r.start, &bytes).unwrap());
                    }
                }
            }
        }
    }
    assert_eq!(out, obj);
    assert!(most_in_flight <= MAX_IN_FLIGHT + 1);
}

#[test]
fn open_file_reports_its_key() {
    let store = Store::new(&[("d/f", 4)]);
    let mut fs = fs_new();
    let d = lookup(&mut fs, &store, FUSE_ROOT_INODE, "d").unwrap();
    let f = lookup(&mut fs, &store, d.attr.ino, "f").unwrap();
    let fh = fs.open(f.attr.ino, 0).unwrap().fh;
    assert_eq!(fs.file_key(fh), Some(b"d/f".to_vec()));
    assert_eq!(fs.file_key(fh + 100), None);
}

#[test]
fn listing_refreshes_a_known_file_size() {
    let before = Store::new(&[("a", 1)]);
    let mut fs = fs_new();
    let a = lookup(&mut fs, &before, FUSE_ROOT_INODE, "a").unwrap();
    assert_eq!(a.attr.size, 1);
    let after = Store::new(&[("a", 7)]);
    let (entries, _) = readdir_all(&mut fs, &after, FUSE_ROOT_INODE, 100);
    assert_eq!(entries[2].0, a.attr.ino);
    assert_eq!(fs.getattr(a.attr.ino).unwrap().attr.size, 7);
}

#[test]
fn listing_keeps_the_recorded_kind() {
    let early = Store::new(&[("x", 3)]);
    let mut fs = fs_new();
    let x = lookup(&mut fs, &early, FUSE_ROOT_INODE, "x").unwrap();
    assert_eq!(x.attr.kind, InodeKind::File);
    let late = Store::new(&[("x/y", 1)]);
    let (entries, _) = readdir_all(&mut fs, &late, FUSE_ROOT_INODE, 100);
    assert_eq!(entries[2].0, x.attr.ino);
    assert_eq!(entries[2].2, InodeKind::File);
}

#[test]
fn readdir_reports_full_and_end() {
    let store = Store::new(&[("a", 1)]);
    let mut fs = fs_new();
    let fh = fs.opendir(FUSE_ROOT_INODE, 0).unwrap().fh;
    let mut rep = ReplyBuffer::new(2);
    assert!(matches!(fs.readdir(FUSE_ROOT_INODE, fh, 0, &mut rep), Ok(ReaddirOutcome::NeedPage(_))));
    assert_eq!(rep.entries.len(), 2);
    match fs.readdir(FUSE_ROOT_INODE, fh, 2, &mut rep) {
        Ok(ReaddirOutcome::NeedPage(req)) => {
            assert_eq!(req.continuation, None);
            assert_eq!(req.max_keys, 100);
            fs.add_dir_page(fh, store.list(&req)).unwrap();
        }
        _ => panic!("the first page is asked for"),
    }
    assert!(matches!(fs.readdir(FUSE_ROOT_INODE, fh, 2, &mut rep), Ok(ReaddirOutcome::Full)));
    assert!(rep.full);
    let mut rep = ReplyBuffer::new(10);
    assert!(matches!(fs.readdir(FUSE_ROOT_INODE, fh, 2, &mut rep), Ok(ReaddirOutcome::End)));
    assert_eq!(names(&rep.entries), vec!["a"]);
    assert_eq!(rep.entries[0].1, 3);
}
