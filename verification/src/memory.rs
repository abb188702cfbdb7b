//! A model of the host's address space: disjoint regions of bytes, each with
//! its page protection.
//!
//! A region stands for a run of pages that share one protection. A sealed
//! region is one whose protection the host refuses to change.

use vstd::prelude::*;
use crate::error::HookError;

verus! {

/// What a region of memory may be used for.
#[derive(Clone, Copy, Debug, PartialEq, Eq, Structural)]
pub struct Protection {
    pub read: bool,
    pub write: bool,
    pub execute: bool,
}

/// One mapped region.
pub struct Region {
    base: u32,
    bytes: Vec<u8>,
    protection: Protection,
    sealed: bool,
}

/// What a region is, as plain mathematical data.
pub struct RegionView {
    pub base: u32,
    pub bytes: Seq<u8>,
    pub protection: Protection,
    pub sealed: bool,
}

impl RegionView {
    /// The first address behind the region.
    pub open spec fn end(self) -> int {
        self.base + self.bytes.len()
    }

    /// A region is not empty and ends inside the 32-bit address space.
    pub open spec fn wf(self) -> bool {
        self.bytes.len() > 0 && self.end() <= 0x1_0000_0000
    }

    /// Whether the `len` bytes from `addr` on, at least one, all lie in the region.
    pub open spec fn covers(self, addr: int, len: int) -> bool {
        len > 0 && self.base <= addr && addr + len <= self.end()
    }

    /// Whether any of the `len` bytes from `addr` on lies in the region.
    pub open spec fn meets(self, addr: int, len: int) -> bool {
        addr < self.end() && self.base < addr + len
    }

    /// The `len` bytes that the region holds from `addr` on.
    pub open spec fn slice(self, addr: int, len: int) -> Seq<u8> {
        self.bytes.subrange(addr - self.base, addr - self.base + len)
    }

    /// The region with `data` written from `addr` on.
    pub open spec fn patched(self, addr: int, data: Seq<u8>) -> RegionView {
        RegionView {
            bytes: Seq::new(
                self.bytes.len(),
                |i: int|
                    if addr - self.base <= i < addr - self.base + data.len() {
                        data[i - (addr - self.base)]
                    } else {
                        self.bytes[i]
                    },
            ),
            ..self
        }
    }

    /// The region under another protection.
    pub open spec fn protected(self, protection: Protection) -> RegionView {
        RegionView { protection, ..self }
    }
}

impl View for Region {
    type V = RegionView;

    closed spec fn view(&self) -> RegionView {
        RegionView {
            base: self.base,
            bytes: self.bytes@,
            protection: self.protection,
            sealed: self.sealed,
        }
    }
}

impl Region {
    fn overwrite(&mut self, offset: usize, data: &Vec<u8>)
        requires
            offset + data@.len() <= old(self)@.bytes.len(),
        ensures
            final(self)@ == old(self)@.patched(old(self)@.base + offset, data@),
    {
        let total: usize = self.bytes.len();
        let mut k: usize = 0;
        while k < data.len()
            invariant
                k <= data@.len(),
                offset + data@.len() <= self.bytes@.len() == total,
                self.bytes@.len() == old(self).bytes@.len(),
                self.base == old(self).base,
                self.protection == old(self).protection,
                self.sealed == old(self).sealed,
                forall|i: int|
                    0 <= i < self.bytes@.len() ==> self.bytes@[i] == (if offset <= i < offset + k {
                        data@[i - offset]
                    } else {
                        old(self).bytes@[i]
                    }),
            decreases data@.len() - k,
        {
            self.bytes[offset + k] = data[k];
            k = k + 1;
        }
        assert(self.bytes@ =~= old(self)@.patched(old(self)@.base + offset, data@).bytes);
    }

    fn copy_out(&self, offset: usize, len: usize) -> (out: Vec<u8>)
        requires
            offset + len <= self@.bytes.len(),
        ensures
            out@ == self@.slice(self@.base + offset, len as int),
    {
        let total: usize = self.bytes.len();
        let mut out: Vec<u8> = Vec::new();
        let mut k: usize = 0;
        while k < len
            invariant
                k <= len,
                offset + len <= self.bytes@.len() == total,
                out@ == self.bytes@.subrange(offset as int, offset + k),
            decreases len - k,
        {
            out.push(self.bytes[offset + k]);
            k = k + 1;
            assert(out@ =~= self.bytes@.subrange(offset as int, offset + k));
        }
        out
    }
}

/// What an address space is, as plain mathematical data: its regions in the
/// order in which they were mapped.
pub struct MemoryView {
    pub regions: Seq<RegionView>,
}

impl MemoryView {
    /// Every region is well formed and no two share an address.
    pub open spec fn wf(self) -> bool {
        &&& forall|i: int| 0 <= i < self.regions.len() ==> (#[trigger] self.regions[i]).wf()
        &&& forall|i: int, j: int|
            0 <= i < j < self.regions.len() ==> !(#[trigger] self.regions[i]).meets(
                (#[trigger] self.regions[j]).base as int,
                self.regions[j].bytes.len() as int,
            )
    }

    /// Whether region `i` exists and covers the `len` bytes from `addr` on.
    pub open spec fn holds(self, i: int, addr: int, len: int) -> bool {
        0 <= i < self.regions.len() && self.regions[i].covers(addr, len)
    }

    /// Whether one region covers the `len` bytes from `addr` on.
    pub open spec fn is_mapped(self, addr: int, len: int) -> bool {
        exists|i: int| self.holds(i, addr, len)
    }

    /// Whether none of the `len` bytes from `addr` on belongs to a region.
    pub open spec fn is_free(self, addr: int, len: int) -> bool {
        forall|i: int| 0 <= i < self.regions.len() ==> !(#[trigger] self.regions[i]).meets(addr, len)
    }

    /// The index of the region that covers the range.
    pub open spec fn index_of(self, addr: int, len: int) -> int {
        choose|i: int| self.holds(i, addr, len)
    }

    /// The region that covers the range.
    pub open spec fn region_at(self, addr: int, len: int) -> RegionView {
        self.regions[self.index_of(addr, len)]
    }

    /// The `len` bytes from `addr` on.
    pub open spec fn bytes(self, addr: int, len: int) -> Seq<u8> {
        self.region_at(addr, len).slice(addr, len)
    }

    /// The address space with one more region.
    pub open spec fn with_region(self, region: RegionView) -> MemoryView {
        MemoryView { regions: self.regions.push(region) }
    }

    /// The address space with `data` written from `addr` on.
    pub open spec fn with_bytes(self, addr: int, data: Seq<u8>) -> MemoryView {
        MemoryView {
            regions: self.regions.update(
                self.index_of(addr, data.len() as int),
                self.region_at(addr, data.len() as int).patched(addr, data),
            ),
        }
    }

    /// The address space with the region that covers the range put under
    /// `protection`.
    pub open spec fn with_protection(
        self,
        addr: int,
        len: int,
        protection: Protection,
    ) -> MemoryView {
        MemoryView {
            regions: self.regions.update(
                self.index_of(addr, len),
                self.region_at(addr, len).protected(protection),
            ),
        }
    }

    /// How a write under a lifted protection ends: refused as `BadAddress`
    /// where no region covers the range, as `MemoryProtectFailed` where the
    /// region is sealed.
    pub open spec fn patch_outcome(self, addr: int, len: int) -> Result<(), HookError> {
        if !self.is_mapped(addr, len) {
            Err(HookError::BadAddress)
        } else if self.region_at(addr, len).sealed {
            Err(HookError::MemoryProtectFailed)
        } else {
            Ok(())
        }
    }

    /// In a well-formed address space the region that covers a range is the
    /// only one that does.
    pub proof fn lemma_index_is_unique(self, i: int, addr: int, len: int)
        requires
            self.wf(),
            self.holds(i, addr, len),
        ensures
            self.is_mapped(addr, len),
            self.index_of(addr, len) == i,
    {
        let j = self.index_of(addr, len);
        assert(self.holds(j, addr, len));
        if i < j {
            assert(self.regions[i].meets(self.regions[j].base as int, self.regions[j].bytes.len() as int));
        } else if j < i {
            assert(self.regions[j].meets(self.regions[i].base as int, self.regions[i].bytes.len() as int));
        }
    }

    /// Writing bytes moves no region and changes no protection, so the same
    /// ranges stay mapped, found at the same index.
    pub proof fn lemma_write_keeps_layout(self, addr: int, data: Seq<u8>, at: int, len: int)
        requires
            self.wf(),
            self.is_mapped(addr, data.len() as int),
        ensures
            self.with_bytes(addr, data).wf(),
            self.with_bytes(addr, data).regions.len() == self.regions.len(),
            self.with_bytes(addr, data).is_mapped(at, len) == self.is_mapped(at, len),
            self.is_mapped(at, len) ==> {
                &&& self.with_bytes(addr, data).index_of(at, len) == self.index_of(at, len)
                &&& self.with_bytes(addr, data).region_at(at, len).protection == self.region_at(
                    at,
                    len,
                ).protection
                &&& self.with_bytes(addr, data).region_at(at, len).sealed == self.region_at(
                    at,
                    len,
                ).sealed
            },
    {
        let after = self.with_bytes(addr, data);
        let k = self.index_of(addr, data.len() as int);
        assert(self.holds(k, addr, data.len() as int));
        assert forall|i: int| 0 <= i < after.regions.len() implies {
            &&& (#[trigger] after.regions[i]).base == self.regions[i].base
            &&& after.regions[i].bytes.len() == self.regions[i].bytes.len()
            &&& after.regions[i].protection == self.regions[i].protection
            &&& after.regions[i].sealed == self.regions[i].sealed
        } by {}
        assert(after.wf()) by {
            assert forall|i: int, j: int| 0 <= i < j < after.regions.len() implies !(
            #[trigger] after.regions[i]).meets(
                (#[trigger] after.regions[j]).base as int,
                after.regions[j].bytes.len() as int,
            ) by {
                assert(!self.regions[i].meets(
                    self.regions[j].base as int,
                    self.regions[j].bytes.len() as int,
                ));
            }
        }
        if self.is_mapped(at, len) {
            let m = self.index_of(at, len);
            assert(self.holds(m, at, len));
            assert(after.holds(m, at, len));
            after.lemma_index_is_unique(m, at, len);
        }
        if after.is_mapped(at, len) {
            let m = after.index_of(at, len);
            assert(after.holds(m, at, len));
            assert(self.holds(m, at, len));
        }
    }
}

impl MemoryView {
    /// Writing bytes leaves free what was free.
    pub proof fn lemma_write_keeps_free(self, addr: int, data: Seq<u8>, at: int, len: int)
        requires
            self.wf(),
            self.is_mapped(addr, data.len() as int),
        ensures
            self.with_bytes(addr, data).is_free(at, len) == self.is_free(at, len),
    {
        let after = self.with_bytes(addr, data);
        let k = self.index_of(addr, data.len() as int);
        assert(self.holds(k, addr, data.len() as int));
        assert forall|i: int| 0 <= i < after.regions.len() implies (
        #[trigger] after.regions[i]).meets(at, len) == self.regions[i].meets(at, len) by {}
        if self.is_free(at, len) {
            assert forall|i: int| 0 <= i < after.regions.len() implies !(
            #[trigger] after.regions[i]).meets(at, len) by {
                assert(!self.regions[i].meets(at, len));
            }
        }
        if after.is_free(at, len) {
            assert forall|i: int| 0 <= i < self.regions.len() implies !(
            #[trigger] self.regions[i]).meets(at, len) by {
                assert(!after.regions[i].meets(at, len));
            }
        }
    }

    /// What was written is what is read back, and a write of what was read
    /// changes nothing.
    pub proof fn lemma_write_then_read(self, addr: int, data: Seq<u8>)
        requires
            self.wf(),
            self.is_mapped(addr, data.len() as int),
        ensures
            self.with_bytes(addr, data).bytes(addr, data.len() as int) == data,
            self.with_bytes(addr, self.bytes(addr, data.len() as int)) == self,
            self.with_bytes(addr, data).with_bytes(addr, self.bytes(addr, data.len() as int))
                == self,
    {
        let len = data.len() as int;
        let k = self.index_of(addr, len);
        assert(self.holds(k, addr, len));
        let after = self.with_bytes(addr, data);
        self.lemma_write_keeps_layout(addr, data, addr, len);
        assert(after.bytes(addr, len) =~= data);
        let before = self.bytes(addr, len);
        assert(self.regions[k].patched(addr, before).bytes =~= self.regions[k].bytes);
        assert(self.with_bytes(addr, before).regions =~= self.regions);
        assert(after.regions[k].patched(addr, before).bytes =~= self.regions[k].bytes);
        assert(after.with_bytes(addr, before).regions =~= self.regions);
    }

    /// A change of protection moves no region and no byte.
    pub proof fn lemma_protect_keeps_layout(
        self,
        addr: int,
        len: int,
        protection: Protection,
        at: int,
        n: int,
    )
        requires
            self.wf(),
            self.is_mapped(addr, len),
        ensures
            self.with_protection(addr, len, protection).wf(),
            self.with_protection(addr, len, protection).is_mapped(at, n) == self.is_mapped(at, n),
            self.is_mapped(at, n) ==> self.with_protection(addr, len, protection).index_of(at, n)
                == self.index_of(at, n),
    {
        let after = self.with_protection(addr, len, protection);
        let k = self.index_of(addr, len);
        assert(self.holds(k, addr, len));
        assert forall|i: int| 0 <= i < after.regions.len() implies {
            &&& (#[trigger] after.regions[i]).base == self.regions[i].base
            &&& after.regions[i].bytes == self.regions[i].bytes
            &&& after.regions[i].sealed == self.regions[i].sealed
        } by {}
        assert(after.wf()) by {
            assert forall|i: int, j: int| 0 <= i < j < after.regions.len() implies !(
            #[trigger] after.regions[i]).meets(
                (#[trigger] after.regions[j]).base as int,
                after.regions[j].bytes.len() as int,
            ) by {
                assert(!self.regions[i].meets(
                    self.regions[j].base as int,
                    self.regions[j].bytes.len() as int,
                ));
            }
        }
        if self.is_mapped(at, n) {
            let m = self.index_of(at, n);
            assert(self.holds(m, at, n));
            assert(after.holds(m, at, n));
            after.lemma_index_is_unique(m, at, n);
        }
        if after.is_mapped(at, n) {
            let m = after.index_of(at, n);
            assert(after.holds(m, at, n));
            assert(self.holds(m, at, n));
        }
    }

    /// Writing under a protection that is put on for the write and taken off
    /// again leaves exactly what a plain write would.
    pub proof fn lemma_scoped_write(self, addr: int, data: Seq<u8>, during: Protection)
        requires
            self.wf(),
            self.is_mapped(addr, data.len() as int),
        ensures
            self.with_protection(addr, data.len() as int, during).with_bytes(
                addr,
                data,
            ).with_protection(
                addr,
                data.len() as int,
                self.region_at(addr, data.len() as int).protection,
            ) == self.with_bytes(addr, data),
    {
        let len = data.len() as int;
        let k = self.index_of(addr, len);
        assert(self.holds(k, addr, len));
        let first = self.with_protection(addr, len, during);
        self.lemma_protect_keeps_layout(addr, len, during, addr, len);
        let second = first.with_bytes(addr, data);
        first.lemma_write_keeps_layout(addr, data, addr, len);
        let third = second.with_protection(addr, len, self.region_at(addr, len).protection);
        assert(third.regions =~= self.with_bytes(addr, data).regions);
    }
}

/// The memory of the host process.
pub struct AddressSpace {
    regions: Vec<Region>,
}

impl View for AddressSpace {
    type V = MemoryView;

    closed spec fn view(&self) -> MemoryView {
        MemoryView { regions: Seq::new(self.regions@.len(), |i: int| self.regions@[i]@) }
    }
}

impl AddressSpace {
    /// Whether the address space is well formed.
    pub open spec fn wf(&self) -> bool {
        self@.wf()
    }

    /// An address space with nothing mapped.
    pub fn new() -> (space: AddressSpace)
        ensures
            space.wf(),
            space@.regions.len() == 0,
    {
        AddressSpace { regions: Vec::new() }
    }

    /// The number of regions.
    pub fn region_count(&self) -> (count: usize)
        ensures
            count == self@.regions.len(),
    {
        self.regions.len()
    }

    /// Maps `bytes` at `base` under `protection`. Nothing is mapped, and
    /// `false` returned, if `bytes` is empty, would reach past the end of the
    /// address space, or would share an address with a region already there.
    pub fn map(&mut self, base: u32, bytes: Vec<u8>, protection: Protection, sealed: bool) -> (mapped:
        bool)
        requires
            old(self).wf(),
        ensures
            final(self).wf(),
            mapped == (bytes@.len() > 0 && base + bytes@.len() <= 0x1_0000_0000 && old(
                self,
            )@.is_free(base as int, bytes@.len() as int)),
            mapped ==> final(self)@ == old(self)@.with_region(
                RegionView { base, bytes: bytes@, protection, sealed },
            ),
            !mapped ==> final(self)@ == old(self)@,
    {
        let len = bytes.len();
        if len == 0 || len as u64 > 0x1_0000_0000 || base as u64 + len as u64 > 0x1_0000_0000 {
            return false;
        }
        let end: u64 = base as u64 + len as u64;
        let mut i: usize = 0;
        while i < self.regions.len()
            invariant
                i <= self.regions@.len(),
                *self == *old(self),
                self.wf(),
                len == bytes@.len(),
                end <= 0x1_0000_0000,
                end == base + len,
                forall|j: int| 0 <= j < i ==> !(#[trigger] self@.regions[j]).meets(base as int, len as int),
            decreases self.regions@.len() - i,
        {
            proof {
                assert(self@.regions[i as int].wf());
            }
            let other_base: u64 = self.regions[i].base as u64;
            let other_end: u64 = other_base + self.regions[i].bytes.len() as u64;
            if (base as u64) < other_end && other_base < end {
                assert(self@.regions[i as int].meets(base as int, len as int));
                return false;
            }
            i = i + 1;
        }
        let ghost added = RegionView { base, bytes: bytes@, protection, sealed };
        self.regions.push(Region { base, bytes, protection, sealed });
        proof {
            assert(self@.regions =~= old(self)@.regions.push(added));
            assert(added.wf());
            assert forall|a: int, b: int| 0 <= a < b < self@.regions.len() implies !(
            #[trigger] self@.regions[a]).meets(
                (#[trigger] self@.regions[b]).base as int,
                self@.regions[b].bytes.len() as int,
            ) by {
                if b < old(self)@.regions.len() {
                    assert(!old(self)@.regions[a].meets(
                        old(self)@.regions[b].base as int,
                        old(self)@.regions[b].bytes.len() as int,
                    ));
                } else {
                    assert(!old(self)@.regions[a].meets(base as int, len as int));
                }
            }
        }
        true
    }

    /// Finds the region that covers the `len` bytes from `addr` on.
    pub fn locate(&self, addr: u32, len: usize) -> (found: Option<usize>)
        requires
            self.wf(),
        ensures
            match found {
                Some(i) => self@.holds(i as int, addr as int, len as int) && self@.index_of(
                    addr as int,
                    len as int,
                ) == i,
                None => !self@.is_mapped(addr as int, len as int),
            },
            found is Some == self@.is_mapped(addr as int, len as int),
    {
        if len == 0 {
            return None;
        }
        let mut i: usize = 0;
        while i < self.regions.len()
            invariant
                i <= self.regions@.len(),
                self.wf(),
                len > 0,
                forall|j: int| 0 <= j < i ==> !self@.holds(j, addr as int, len as int),
            decreases self.regions@.len() - i,
        {
            let base = self.regions[i].base;
            let size = self.regions[i].bytes.len();
            proof {
                assert(self@.regions[i as int].wf());
            }
            if base <= addr && (addr - base) as usize <= size && len <= size - (addr - base) as usize {
                proof {
                    assert(self@.holds(i as int, addr as int, len as int));
                    self@.lemma_index_is_unique(i as int, addr as int, len as int);
                }
                return Some(i);
            }
            i = i + 1;
        }
        None
    }

    /// Whether none of the `len` bytes from `addr` on is mapped.
    pub fn is_free(&self, addr: u32, len: usize) -> (free: bool)
        requires
            self.wf(),
        ensures
            free == self@.is_free(addr as int, len as int),
    {
        let span: u64 = if len > 0xFFFF_FFFF {
            0x1_0000_0000
        } else {
            len as u64
        };
        let mut i: usize = 0;
        while i < self.regions.len()
            invariant
                i <= self.regions@.len(),
                self.wf(),
                span == (if len > 0xFFFF_FFFF {
                    0x1_0000_0000
                } else {
                    len as int
                }),
                forall|j: int|
                    0 <= j < i ==> !(#[trigger] self@.regions[j]).meets(addr as int, len as int),
            decreases self.regions@.len() - i,
        {
            proof {
                assert(self@.regions[i as int].wf());
            }
            let base: u64 = self.regions[i].base as u64;
            let end: u64 = base + self.regions[i].bytes.len() as u64;
            if (addr as u64) < end && base < addr as u64 + span {
                assert(self@.regions[i as int].meets(addr as int, len as int));
                return false;
            }
            i = i + 1;
        }
        true
    }

    /// The protection of the region that covers the `len` bytes from `addr`
    /// on; `None` if no region covers them.
    pub fn protection(&self, addr: u32, len: usize) -> (protection: Option<Protection>)
        requires
            self.wf(),
        ensures
            protection == (if self@.is_mapped(addr as int, len as int) {
                Some(self@.region_at(addr as int, len as int).protection)
            } else {
                None
            }),
    {
        match self.locate(addr, len) {
            Some(i) => Some(self.regions[i].protection),
            None => None,
        }
    }

    /// Reads the `len` bytes from `addr` on; `None` unless one readable region
    /// covers them.
    pub fn read(&self, addr: u32, len: usize) -> (data: Option<Vec<u8>>)
        requires
            self.wf(),
        ensures
            data is Some == (self@.is_mapped(addr as int, len as int) && self@.region_at(
                addr as int,
                len as int,
            ).protection.read),
            data matches Some(bytes) ==> bytes@ == self@.bytes(addr as int, len as int),
    {
        match self.locate(addr, len) {
            Some(i) => {
                if !self.regions[i].protection.read {
                    return None;
                }
                let offset: usize = (addr - self.regions[i].base) as usize;
                Some(self.regions[i].copy_out(offset, len))
            },
            None => None,
        }
    }

    /// Writes `data` from `addr` on. Nothing is written, and `false` returned,
    /// unless one writable region covers the range.
    pub fn write(&mut self, addr: u32, data: &Vec<u8>) -> (written: bool)
        requires
            old(self).wf(),
        ensures
            final(self).wf(),
            written == (old(self)@.is_mapped(addr as int, data@.len() as int) && old(
                self,
            )@.region_at(addr as int, data@.len() as int).protection.write),
            written ==> final(self)@ == old(self)@.with_bytes(addr as int, data@),
            !written ==> final(self)@ == old(self)@,
    {
        match self.locate(addr, data.len()) {
            Some(i) => {
                if !self.regions[i].protection.write {
                    return false;
                }
                let offset: usize = (addr - self.regions[i].base) as usize;
                self.regions[i].overwrite(offset, data);
                proof {
                    assert(self@.regions =~= old(self)@.with_bytes(addr as int, data@).regions);
                    old(self)@.lemma_write_keeps_layout(addr as int, data@, addr as int, data@.len() as int);
                }
                true
            },
            None => false,
        }
    }

    /// Puts the region that covers the `len` bytes from `addr` on under
    /// `protection` and returns the protection it had. Nothing changes, and
    /// `None` is returned, if no region covers the range or the region is
    /// sealed.
    pub fn protect(&mut self, addr: u32, len: usize, protection: Protection) -> (previous: Option<
        Protection,
    >)
        requires
            old(self).wf(),
        ensures
            final(self).wf(),
            previous is Some == (old(self)@.is_mapped(addr as int, len as int) && !old(
                self,
            )@.region_at(addr as int, len as int).sealed),
            previous matches Some(before) ==> {
                &&& before == old(self)@.region_at(addr as int, len as int).protection
                &&& final(self)@ == old(self)@.with_protection(addr as int, len as int, protection)
            },
            previous is None ==> final(self)@ == old(self)@,
    {
        match self.locate(addr, len) {
            Some(i) => {
                if self.regions[i].sealed {
                    return None;
                }
                let before = self.regions[i].protection;
                self.regions[i].protection = protection;
                proof {
                    let after = old(self)@.with_protection(addr as int, len as int, protection);
                    assert(self@.regions =~= after.regions);
                    assert forall|a: int, b: int| 0 <= a < b < self@.regions.len() implies !(
                    #[trigger] self@.regions[a]).meets(
                        (#[trigger] self@.regions[b]).base as int,
                        self@.regions[b].bytes.len() as int,
                    ) by {
                        assert(!old(self)@.regions[a].meets(
                            old(self)@.regions[b].base as int,
                            old(self)@.regions[b].bytes.len() as int,
                        ));
                    }
                    assert forall|a: int| 0 <= a < self@.regions.len() implies (
                    #[trigger] self@.regions[a]).wf() by {
                        assert(old(self)@.regions[a].wf());
                    }
                }
                Some(before)
            },
            None => None,
        }
    }

    /// Writes `data` from `addr` on into memory that need not be writable: the
    /// region is made writable for the write and put back under the
    /// protection it had. `BadAddress` if no region covers the range,
    /// `MemoryProtectFailed` if the region is sealed; then nothing changes.
    pub fn patch(&mut self, addr: u32, data: &Vec<u8>) -> (outcome: Result<(), HookError>)
        requires
            old(self).wf(),
        ensures
            final(self).wf(),
            outcome == old(self)@.patch_outcome(addr as int, data@.len() as int),
            outcome is Ok ==> final(self)@ == old(self)@.with_bytes(addr as int, data@),
            outcome is Err ==> final(self)@ == old(self)@,
    {
        let len = data.len();
        let before = match self.protection(addr, len) {
            Some(protection) => protection,
            None => {
                return Err(HookError::BadAddress);
            },
        };
        let during = Protection { read: before.read, write: true, execute: before.execute };
        if self.protect(addr, len, during).is_none() {
            return Err(HookError::MemoryProtectFailed);
        }
        proof {
            old(self)@.lemma_protect_keeps_layout(
                addr as int,
                len as int,
                during,
                addr as int,
                len as int,
            );
            let k = old(self)@.index_of(addr as int, len as int);
            assert(old(self)@.holds(k, addr as int, len as int));
        }
        let ghost unlocked = self@;
        let written = self.write(addr, data);
        assert(written);
        proof {
            unlocked.lemma_write_keeps_layout(addr as int, data@, addr as int, len as int);
        }
        let restored = self.protect(addr, len, before);
        assert(restored is Some);
        proof {
            old(self)@.lemma_scoped_write(addr as int, data@, during);
        }
        Ok(())
    }
}

} // verus!
