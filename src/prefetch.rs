use vstd::prelude::*;

use crate::bytes::{concat_bytes, slice_bytes};

verus! {

/// Size of the first range requested after opening or after a reset.
pub const INITIAL_REQUEST_SIZE: u64 = 1048576;

/// Largest range requested at once.
pub const MAX_REQUEST_SIZE: u64 = 67108864;

/// Most ranges in flight at once.
pub const MAX_IN_FLIGHT: usize = 8;

/// No range is issued once this many bytes lie ahead of the reader, buffered
/// or in flight.
pub const HIGH_WATER: u64 = 268435456;

/// A range GET to issue: bytes `[start, end)` of the object.
#[derive(Clone, Copy, Debug, PartialEq, Eq, Structural)]
pub struct RangeRequest {
    pub start: u64,
    pub end: u64,
}

/// What a read needs: its bytes, or the bytes of a range in flight first.
#[derive(Debug)]
pub enum ReadStep {
    Data(Vec<u8>),
    Fetch(RangeRequest),
}

/// The streaming read state of one open object. The buffer holds the bytes
/// `[next_offset, next_request_offset)` of the object; the ranges in flight
/// cover `[next_request_offset, issued_end)`, one after another.
#[derive(Debug)]
pub struct PrefetchGetObject {
    object_size: u64,
    next_offset: u64,
    buffer: Vec<u8>,
    next_request_offset: u64,
    next_request_size: u64,
    issued_end: u64,
    in_flight: Vec<RangeRequest>,
}

/// The number of bytes a read of `size` at `offset` delivers.
pub open spec fn read_len(object_size: u64, offset: u64, size: usize) -> nat {
    if offset >= object_size {
        0
    } else if size as int <= object_size - offset {
        size as nat
    } else {
        (object_size - offset) as nat
    }
}

/// The next request size after `s`: doubled, up to the largest.
pub open spec fn grown(s: u64) -> u64 {
    if s * 2 <= MAX_REQUEST_SIZE {
        (s * 2) as u64
    } else {
        MAX_REQUEST_SIZE
    }
}

impl PrefetchGetObject {
    pub closed spec fn size_of(&self) -> u64 {
        self.object_size
    }

    pub closed spec fn expected(&self) -> u64 {
        self.next_offset
    }

    pub closed spec fn buffered(&self) -> Seq<u8> {
        self.buffer@
    }

    pub closed spec fn request_offset(&self) -> u64 {
        self.next_request_offset
    }

    pub closed spec fn request_size(&self) -> u64 {
        self.next_request_size
    }

    pub closed spec fn issued_to(&self) -> u64 {
        self.issued_end
    }

    /// The ranges issued and not yet supplied, oldest first.
    pub closed spec fn ranges(&self) -> Seq<RangeRequest> {
        self.in_flight@
    }

    pub open spec fn wf(&self) -> bool {
        let rs = self.ranges();
        &&& self.expected() + self.buffered().len() == self.request_offset()
        &&& self.request_offset() <= self.issued_to() <= self.size_of()
        &&& INITIAL_REQUEST_SIZE <= self.request_size() <= MAX_REQUEST_SIZE
        &&& rs.len() <= MAX_IN_FLIGHT
        &&& rs.len() == 0 ==> self.issued_to() == self.request_offset()
        &&& rs.len() > 0 ==> rs[0].start == self.request_offset() && rs.last().end == self.issued_to()
        &&& forall|k: int| 0 <= k < rs.len() ==> (#[trigger] rs[k]).start < rs[k].end
        &&& forall|k: int| 0 <= k < rs.len() - 1 ==> (#[trigger] rs[k]).end == rs[k + 1].start
    }

    /// The buffered bytes are those of `obj` at the same offsets.
    pub open spec fn agrees_with(&self, obj: Seq<u8>) -> bool {
        &&& obj.len() == self.size_of()
        &&& self.buffered() == obj.subrange(self.expected() as int, self.request_offset() as int)
    }

    /// The state after a read at `offset`: unchanged when the read continues
    /// the stream, else emptied, with nothing in flight, and restarted at
    /// `offset` with the smallest request size.
    pub open spec fn positioned(&self, offset: u64, next: &Self) -> bool {
        &&& next.size_of() == self.size_of()
        &&& if offset == self.expected() {
            *next == *self
        } else {
            &&& next.expected() == offset
            &&& next.buffered().len() == 0
            &&& next.request_offset() == offset
            &&& next.issued_to() == offset
            &&& next.ranges().len() == 0
            &&& next.request_size() == INITIAL_REQUEST_SIZE
        }
    }

    /// The range `issue` gives next.
    pub open spec fn next_range(&self) -> RangeRequest {
        RangeRequest {
            start: self.issued_to(),
            end: if self.issued_to() + self.request_size() <= self.size_of() {
                (self.issued_to() + self.request_size()) as u64
            } else {
                self.size_of()
            },
        }
    }

    /// `next` is `self` with range `self.next_range()` issued.
    pub open spec fn issued(&self, next: &Self) -> bool {
        &&& next.size_of() == self.size_of()
        &&& next.expected() == self.expected()
        &&& next.buffered() == self.buffered()
        &&& next.request_offset() == self.request_offset()
        &&& next.issued_to() == self.next_range().end
        &&& next.ranges() == self.ranges().push(self.next_range())
        &&& next.request_size() == grown(self.request_size())
    }

    /// What a read does from the positioned state `mid`.
    pub open spec fn step_from(&self, mid: &Self, offset: u64, size: usize, next: &Self, r: ReadStep) -> bool {
        let n = read_len(self.size_of(), offset, size);
        &&& self.positioned(offset, mid)
        &&& if n <= mid.buffered().len() {
            &&& r matches ReadStep::Data(d) && d@ == mid.buffered().subrange(0, n as int)
            &&& next.size_of() == mid.size_of()
            &&& next.expected() == offset + n
            &&& next.buffered() == mid.buffered().subrange(n as int, mid.buffered().len() as int)
            &&& next.request_offset() == mid.request_offset()
            &&& next.request_size() == mid.request_size()
            &&& next.issued_to() == mid.issued_to()
            &&& next.ranges() == mid.ranges()
        } else if mid.ranges().len() > 0 {
            &&& r == ReadStep::Fetch(mid.ranges()[0])
            &&& *next == *mid
        } else {
            &&& r == ReadStep::Fetch(mid.next_range())
            &&& mid.issued(next)
        }
    }

    /// The relation between the state before a read, its arguments, the state
    /// after it and what it returned.
    pub open spec fn read_step(&self, offset: u64, size: usize, next: &Self, r: ReadStep) -> bool {
        if offset >= self.size_of() {
            &&& r matches ReadStep::Data(d) && d@.len() == 0
            &&& next == self
        } else {
            exists|mid: Self| #[trigger] self.step_from(&mid, offset, size, next, r)
        }
    }

    /// A stream over an object of `object_size` bytes, positioned at its start.
    pub fn new(object_size: u64) -> (r: Self)
        ensures
            r.wf(),
            r.size_of() == object_size,
            r.expected() == 0,
            r.buffered().len() == 0,
            r.ranges().len() == 0,
            r.request_size() == INITIAL_REQUEST_SIZE,
    {
        PrefetchGetObject {
            object_size,
            next_offset: 0,
            buffer: Vec::new(),
            next_request_offset: 0,
            next_request_size: INITIAL_REQUEST_SIZE,
            issued_end: 0,
            in_flight: Vec::new(),
        }
    }

    pub fn object_size(&self) -> (r: u64)
        ensures
            r == self.size_of(),
    {
        self.object_size
    }

    /// Issues the next range when fewer than the most ranges are in flight,
    /// some of the object is left to request, and less than the high-water
    /// mark lies ahead of the reader; the request size then doubles, up to the
    /// largest.
    pub fn issue(&mut self) -> (r: Option<RangeRequest>)
        requires
            old(self).wf(),
        ensures
            final(self).wf(),
            r is Some <==> (old(self).ranges().len() < MAX_IN_FLIGHT && old(self).issued_to() < old(self).size_of()
                && old(self).issued_to() - old(self).expected() < HIGH_WATER),
            r matches Some(rg) ==> rg == old(self).next_range() && old(self).issued(&*final(self)),
            r is None ==> *final(self) == *old(self),
    {
        if self.in_flight.len() >= MAX_IN_FLIGHT || self.issued_end >= self.object_size
            || self.issued_end - self.next_offset >= HIGH_WATER {
            return None;
        }
        Some(self.issue_next())
    }

    fn issue_next(&mut self) -> (rg: RangeRequest)
        requires
            old(self).wf(),
            old(self).ranges().len() < MAX_IN_FLIGHT,
            old(self).issued_to() < old(self).size_of(),
        ensures
            final(self).wf(),
            rg == old(self).next_range(),
            old(self).issued(&*final(self)),
    {
        let end: u64 = if self.next_request_size <= self.object_size - self.issued_end {
            self.issued_end + self.next_request_size
        } else {
            self.object_size
        };
        let rg = RangeRequest { start: self.issued_end, end };
        let ghost before = self.in_flight@;
        self.in_flight.push(rg);
        self.issued_end = end;
        self.next_request_size = if self.next_request_size <= MAX_REQUEST_SIZE / 2 {
            self.next_request_size * 2
        } else {
            MAX_REQUEST_SIZE
        };
        proof {
            let rs = self.in_flight@;
            assert(rs == before.push(rg));
            assert forall|k: int| 0 <= k < rs.len() - 1 implies (#[trigger] rs[k]).end == rs[k + 1].start by {
                if k < before.len() - 1 {
                    assert(rs[k] == before[k] && rs[k + 1] == before[k + 1]);
                }
            }
            assert forall|k: int| 0 <= k < rs.len() implies (#[trigger] rs[k]).start < rs[k].end by {
                if k < before.len() {
                    assert(rs[k] == before[k]);
                }
            }
        }
        rg
    }

    /// Serves a read of up to `size` bytes at `offset`, clamped to the end of
    /// the object; a read at or past the end gives no bytes. A read away from
    /// the expected offset drops the buffer and the ranges in flight. When the
    /// buffer does not hold the bytes yet, the oldest range in flight is
    /// returned, after issuing one if none is; the read is to be made again
    /// once its bytes have been supplied.
    pub fn read(&mut self, offset: u64, size: usize) -> (r: ReadStep)
        requires
            old(self).wf(),
        ensures
            final(self).wf(),
            old(self).read_step(offset, size, &*final(self), r),
    {
        let ghost before = *self;
        if offset >= self.object_size {
            return ReadStep::Data(Vec::new());
        }
        if offset != self.next_offset {
            self.next_offset = offset;
            self.buffer = Vec::new();
            self.next_request_offset = offset;
            self.next_request_size = INITIAL_REQUEST_SIZE;
            self.issued_end = offset;
            self.in_flight = Vec::new();
        }
        let ghost mid = *self;
        let avail: u64 = self.object_size - offset;
        let n: usize = if (size as u64) <= avail { size } else { avail as usize };
        assert(n == read_len(self.object_size, offset, size));
        if n <= self.buffer.len() {
            let d = slice_bytes(&self.buffer, 0, n);
            let rest = slice_bytes(&self.buffer, n, self.buffer.len());
            self.buffer = rest;
            self.next_offset = offset + n as u64;
            assert(before.step_from(&mid, offset, size, &*self, ReadStep::Data(d)));
            return ReadStep::Data(d);
        }
        if self.in_flight.len() > 0 {
            let rg = self.in_flight[0];
            assert(before.step_from(&mid, offset, size, &*self, ReadStep::Fetch(rg)));
            return ReadStep::Fetch(rg);
        }
        let rg = self.issue_next();
        assert(before.step_from(&mid, offset, size, &*self, ReadStep::Fetch(rg)));
        ReadStep::Fetch(rg)
    }

    /// Adds the bytes of the oldest range in flight, which starts at `start`.
    /// Accepted, and `true`, exactly when the bytes fill that range; the range
    /// then leaves the flight.
    pub fn supply(&mut self, start: u64, bytes: &Vec<u8>) -> (r: bool)
        requires
            old(self).wf(),
        ensures
            final(self).wf(),
            r == (old(self).ranges().len() > 0 && start == old(self).ranges()[0].start && bytes@.len()
                == old(self).ranges()[0].end - start),
            !r ==> *final(self) == *old(self),
            r ==> {
                &&& final(self).size_of() == old(self).size_of()
                &&& final(self).expected() == old(self).expected()
                &&& final(self).buffered() == old(self).buffered() + bytes@
                &&& final(self).request_offset() == old(self).request_offset() + bytes@.len()
                &&& final(self).request_size() == old(self).request_size()
                &&& final(self).issued_to() == old(self).issued_to()
                &&& final(self).ranges() == old(self).ranges().drop_first()
            },
    {
        if self.in_flight.len() == 0 {
            return false;
        }
        let rg = self.in_flight[0];
        if start != rg.start || bytes.len() as u64 != rg.end - rg.start {
            return false;
        }
        let ghost before = self.in_flight@;
        self.buffer = concat_bytes(&self.buffer, bytes);
        self.next_request_offset = rg.end;
        let _ = self.in_flight.remove(0);
        proof {
            let rs = self.in_flight@;
            assert(rs =~= before.drop_first());
            assert forall|k: int| 0 <= k < rs.len() - 1 implies (#[trigger] rs[k]).end == rs[k + 1].start by {
                assert(rs[k] == before[k + 1] && rs[k + 1] == before[k + 2]);
            }
            assert forall|k: int| 0 <= k < rs.len() implies (#[trigger] rs[k]).start < rs[k].end by {
                assert(rs[k] == before[k + 1]);
            }
            if rs.len() > 0 {
                assert(before[0].end == before[1].start);
            }
        }
        true
    }
}

/// Whatever the stream did before, a read that returns bytes returns the bytes
/// of the object at the offsets asked for (clamped to its end), and the
/// buffer still agrees with the object afterwards. This holds after a reset
/// as after a sequential read.
pub proof fn lemma_read_matches_object(
    a: &PrefetchGetObject,
    b: &PrefetchGetObject,
    obj: Seq<u8>,
    offset: u64,
    size: usize,
    r: ReadStep,
)
    requires
        a.wf(),
        b.wf(),
        a.agrees_with(obj),
        a.read_step(offset, size, b, r),
    ensures
        b.agrees_with(obj),
        offset <= a.size_of() ==> (r matches ReadStep::Data(d) ==> d@ == obj.subrange(
            offset as int,
            offset + read_len(a.size_of(), offset, size),
        )),
{
    if offset < a.size_of() {
        let mid = choose|mid: PrefetchGetObject| #[trigger] a.step_from(&mid, offset, size, b, r);
        let n = read_len(a.size_of(), offset, size);
        assert(mid.buffered() == obj.subrange(mid.expected() as int, mid.request_offset() as int)) by {
            if offset != a.expected() {
                assert(obj.subrange(offset as int, offset as int).len() == 0);
            }
        }
        if n <= mid.buffered().len() {
            assert(b.buffered() =~= obj.subrange(b.expected() as int, b.request_offset() as int));
            if let ReadStep::Data(d) = r {
                assert(d@ =~= obj.subrange(offset as int, offset + n));
            }
        }
    }
}

/// Supplying the object's own bytes for the requested range keeps the buffer
/// in agreement with the object.
pub proof fn lemma_supply_keeps_agreement(
    a: &PrefetchGetObject,
    b: &PrefetchGetObject,
    obj: Seq<u8>,
    bytes: Seq<u8>,
)
    requires
        a.wf(),
        a.agrees_with(obj),
        b.size_of() == a.size_of(),
        b.expected() == a.expected(),
        a.request_offset() + bytes.len() <= a.size_of(),
        b.buffered() == a.buffered() + bytes,
        b.request_offset() == a.request_offset() + bytes.len(),
        bytes == obj.subrange(a.request_offset() as int, a.request_offset() + bytes.len()),
    ensures
        b.agrees_with(obj),
{
    assert(b.buffered() =~= obj.subrange(b.expected() as int, b.request_offset() as int));
}

/// The given byte runs, one after another.
pub open spec fn joined(parts: Seq<Seq<u8>>) -> Seq<u8>
    decreases parts.len(),
{
    if parts.len() == 0 {
        Seq::empty()
    } else {
        joined(parts.drop_last()) + parts.last()
    }
}

proof fn lemma_joined_prefix(obj: Seq<u8>, parts: Seq<Seq<u8>>, offs: Seq<int>, k: int)
    requires
        offs.len() == parts.len() + 1,
        offs[0] == 0,
        forall|i: int| 0 <= i < parts.len() ==> 0 <= #[trigger] offs[i] <= offs[i + 1] <= obj.len(),
        forall|i: int| 0 <= i < parts.len() ==> #[trigger] parts[i] == obj.subrange(offs[i], offs[i + 1]),
        0 <= k <= parts.len(),
    ensures
        joined(parts.subrange(0, k)) == obj.subrange(0, offs[k]),
    decreases k,
{
    if k == 0 {
        assert(joined(parts.subrange(0, 0)) =~= obj.subrange(0, 0));
    } else {
        lemma_joined_prefix(obj, parts, offs, k - 1);
        let pre = parts.subrange(0, k);
        assert(pre.drop_last() =~= parts.subrange(0, k - 1));
        assert(pre.last() == parts[k - 1]);
        assert(offs[k - 1] <= offs[k]);
        assert(obj.subrange(0, offs[k - 1]) + obj.subrange(offs[k - 1], offs[k]) =~= obj.subrange(0, offs[k]));
    }
}

/// Sequential reads from offset 0 to the end of the object, in any chunking,
/// each returning the object's bytes at its offsets, join to the whole object.
pub proof fn lemma_sequential_reads_join(obj: Seq<u8>, parts: Seq<Seq<u8>>, offs: Seq<int>)
    requires
        offs.len() == parts.len() + 1,
        offs[0] == 0,
        offs.last() == obj.len(),
        forall|i: int| 0 <= i < parts.len() ==> 0 <= #[trigger] offs[i] <= offs[i + 1] <= obj.len(),
        forall|i: int| 0 <= i < parts.len() ==> #[trigger] parts[i] == obj.subrange(offs[i], offs[i + 1]),
    ensures
        joined(parts) == obj,
{
    lemma_joined_prefix(obj, parts, offs, parts.len() as int);
    assert(parts.subrange(0, parts.len() as int) =~= parts);
    assert(obj.subrange(0, obj.len() as int) =~= obj);
}

} // verus!
