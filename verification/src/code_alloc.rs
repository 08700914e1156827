//! The executable-memory allocator.
//!
//! The allocator owns every region of code memory a context ever hands to
//! the code generator, and it is the one place where the W^X discipline is
//! enforced: a region is always in exactly one protection state, writing is
//! only permitted while the region is write-allowed, and the bytes can only
//! be fetched for execution once the region has been sealed to
//! execute-allowed.  Regions are page-aligned spans; a mapping request is
//! rounded up to a whole number of pages.
//!
//! The region lifecycle is `map` (fresh, write-allowed) → `protect`
//! (write-allowed ⇄ execute-allowed) → `unmap` (released).  A released or
//! never-mapped region admits no transition at all; this file states and
//! proves those laws over the allocator's model.

use vstd::prelude::*;

use crate::errors::JitError;

verus! {

/// Size in bytes of one page served by the allocator.
pub const PAGE_SIZE: usize = 4096;

/// Protection state of a mapped region.  There is no state that is both
/// writable and executable: W^X is enforced by construction.
#[derive(Clone, Copy, Debug, PartialEq, Eq, Structural)]
pub enum Protection {
    /// Write-allowed, no-execute: the state of a freshly mapped region.
    ReadWrite,
    /// Execute-allowed, no-write: the state of a sealed region.
    ReadExec,
}

/// Handle for one region, valid for the allocator that produced it.
#[derive(Clone, Copy, Debug, PartialEq, Eq, Structural)]
pub struct RegionId(pub usize);

/// One mapped span of code memory.
struct Region {
    prot: Protection,
    bytes: Vec<u8>,
}

/// Mathematical model of one mapped region.
#[verifier::ext_equal]
pub ghost struct RegionModel {
    pub prot: Protection,
    pub bytes: Seq<u8>,
}

/// The executable-memory allocator.  Slot `i` of the model holds the region
/// with id `i`; a released (or never mapped) slot holds `None`.  Region ids
/// are never reused.
pub struct CodeAlloc {
    regions: Vec<Option<Region>>,
}

impl View for Region {
    type V = RegionModel;

    closed spec fn view(&self) -> RegionModel {
        RegionModel { prot: self.prot, bytes: self.bytes@ }
    }
}

impl View for CodeAlloc {
    type V = Seq<Option<RegionModel>>;

    closed spec fn view(&self) -> Seq<Option<RegionModel>> {
        Seq::new(
            self.regions@.len(),
            |i: int|
                match self.regions@[i] {
                    Some(region) => Some(region@),
                    None => None,
                },
        )
    }
}

/// A mapping request for `len` bytes is served with a whole number of pages.
pub open spec fn rounded_len(len: nat) -> nat {
    (((len + PAGE_SIZE - 1) / (PAGE_SIZE as int)) * (PAGE_SIZE as int)) as nat
}

/// The largest request `map` can round up without overflowing a `usize`.
pub open spec fn max_map_len() -> nat {
    (usize::MAX - (PAGE_SIZE - 1)) as nat
}

/// Whether slot `id` currently holds a mapped region.
pub open spec fn is_mapped(v: Seq<Option<RegionModel>>, id: int) -> bool {
    0 <= id < v.len() && v[id] is Some
}

/// The model of the mapped region in slot `id`.
pub open spec fn region_of(v: Seq<Option<RegionModel>>, id: int) -> RegionModel
    recommends
        is_mapped(v, id),
{
    v[id]->Some_0
}

/// `base` with the bytes at `off .. off + data.len()` replaced by `data`.
pub open spec fn spliced(base: Seq<u8>, off: nat, data: Seq<u8>) -> Seq<u8> {
    base.take(off as int) + data + base.skip(off + data.len() as int)
}

/// Whether a write of `n` bytes at `off` into region `id` is permitted:
/// the region is mapped, still write-allowed, and the span stays in range.
pub open spec fn write_allowed(v: Seq<Option<RegionModel>>, id: int, off: nat, n: nat) -> bool {
    &&& is_mapped(v, id)
    &&& region_of(v, id).prot == Protection::ReadWrite
    &&& off + n <= region_of(v, id).bytes.len()
}

/// Transition of a successful `map`: a fresh write-allowed, zero-filled
/// region of `rounded_len(len)` bytes appears in the fresh slot `id`.
pub open spec fn map_ok(
    pre: Seq<Option<RegionModel>>,
    post: Seq<Option<RegionModel>>,
    id: int,
    len: nat,
) -> bool {
    &&& 0 < len <= max_map_len()
    &&& id == pre.len()
    &&& post == pre.push(
        Some(RegionModel { prot: Protection::ReadWrite, bytes: Seq::new(rounded_len(len), |i: int| 0u8) }),
    )
}

/// Transition of a successful `write`: only the written span of region `id`
/// changes, and the region stays write-allowed.
pub open spec fn write_ok(
    pre: Seq<Option<RegionModel>>,
    post: Seq<Option<RegionModel>>,
    id: int,
    off: nat,
    data: Seq<u8>,
) -> bool {
    &&& write_allowed(pre, id, off, data.len())
    &&& post == pre.update(
        id,
        Some(
            RegionModel {
                prot: Protection::ReadWrite,
                bytes: spliced(region_of(pre, id).bytes, off, data),
            },
        ),
    )
}

/// Transition of a successful `protect`: the protection of region `id`
/// becomes `target` and its bytes are untouched.  It requires a prior `map`
/// of the same region: no transition leads from unmapped to executable.
pub open spec fn protect_ok(
    pre: Seq<Option<RegionModel>>,
    post: Seq<Option<RegionModel>>,
    id: int,
    target: Protection,
) -> bool {
    &&& is_mapped(pre, id)
    &&& post == pre.update(
        id,
        Some(RegionModel { prot: target, bytes: region_of(pre, id).bytes }),
    )
}

/// Transition of a successful `unmap`: slot `id` is released.
pub open spec fn unmap_ok(
    pre: Seq<Option<RegionModel>>,
    post: Seq<Option<RegionModel>>,
    id: int,
) -> bool {
    &&& is_mapped(pre, id)
    &&& post == pre.update(id, None)
}

/// The bytes of region `id` as the processor would fetch them: defined
/// exactly when the region is mapped and sealed execute-allowed.
pub open spec fn exec_bytes(v: Seq<Option<RegionModel>>, id: int) -> Option<Seq<u8>> {
    if is_mapped(v, id) && region_of(v, id).prot == Protection::ReadExec {
        Some(region_of(v, id).bytes)
    } else {
        None
    }
}

impl CodeAlloc {
    /// Reserves `len` bytes, rounded up to whole pages, as a fresh
    /// write-allowed, zero-filled, non-executable region.  Fails only on a
    /// request of zero bytes or one too large to round up.
    pub fn map(&mut self, len: usize) -> (r: Result<RegionId, JitError>)
        ensures
            match r {
                Ok(id) => map_ok(old(self)@, final(self)@, id.0 as int, len as nat),
                Err(e) => {
                    &&& e == JitError::AllocationFailure
                    &&& !(0 < len <= max_map_len())
                    &&& final(self)@ == old(self)@
                },
            },
    {
        if len == 0 || len > usize::MAX - (PAGE_SIZE - 1) {
            return Err(JitError::AllocationFailure);
        }
        let rounded: usize = ((len + (PAGE_SIZE - 1)) / PAGE_SIZE) * PAGE_SIZE;
        proof {
            assert(rounded == rounded_len(len as nat));
        }
        let mut bytes: Vec<u8> = Vec::new();
        let mut i: usize = 0;
        while i < rounded
            invariant
                i <= rounded,
                bytes@ =~= Seq::new(i as nat, |j: int| 0u8),
            decreases rounded - i,
        {
            bytes.push(0u8);
            i = i + 1;
        }
        let id = RegionId(self.regions.len());
        self.regions.push(Some(Region { prot: Protection::ReadWrite, bytes }));
        proof {
            assert(self@ =~= old(self)@.push(
                Some(RegionModel {
                    prot: Protection::ReadWrite,
                    bytes: Seq::new(rounded_len(len as nat), |i: int| 0u8),
                }),
            ));
        }
        Ok(id)
    }

    /// Atomically transitions the mapped region `id` between write-allowed
    /// and execute-allowed.  Denied — with the region untouched — when `id`
    /// was never mapped or has been released.
    pub fn protect(&mut self, id: RegionId, target: Protection) -> (r: Result<(), JitError>)
        ensures
            match r {
                Ok(()) => protect_ok(old(self)@, final(self)@, id.0 as int, target),
                Err(e) => {
                    &&& e == JitError::ProtectionFailure
                    &&& !is_mapped(old(self)@, id.0 as int)
                    &&& final(self)@ == old(self)@
                },
            },
    {
        if id.0 >= self.regions.len() {
            return Err(JitError::ProtectionFailure);
        }
        let slot = &mut self.regions[id.0];
        match slot {
            Some(region) => {
                region.prot = target;
                proof {
                    assert(self@ =~= old(self)@.update(
                        id.0 as int,
                        Some(RegionModel {
                            prot: target,
                            bytes: region_of(old(self)@, id.0 as int).bytes,
                        }),
                    ));
                }
                Ok(())
            },
            None => Err(JitError::ProtectionFailure),
        }
    }

    /// Writes `data` into region `id` at byte offset `offset`.  Permitted
    /// only while the region is write-allowed and the span stays inside the
    /// region; otherwise the allocator is untouched.
    pub fn write(&mut self, id: RegionId, offset: usize, data: &Vec<u8>) -> (r: Result<
        (),
        JitError,
    >)
        ensures
            match r {
                Ok(()) => write_ok(old(self)@, final(self)@, id.0 as int, offset as nat, data@),
                Err(e) => {
                    &&& e == JitError::ProtectionFailure
                    &&& !write_allowed(old(self)@, id.0 as int, offset as nat, data@.len())
                    &&& final(self)@ == old(self)@
                },
            },
    {
        if id.0 >= self.regions.len() {
            return Err(JitError::ProtectionFailure);
        }
        let slot = &mut self.regions[id.0];
        match slot {
            Some(region) => {
                let writable = match region.prot {
                    Protection::ReadWrite => true,
                    Protection::ReadExec => false,
                };
                if !writable || offset > region.bytes.len() || data.len() > region.bytes.len()
                    - offset {
                    return Err(JitError::ProtectionFailure);
                }
                let ghost base = region.bytes@;
                let mut j: usize = 0;
                while j < data.len()
                    invariant
                        j <= data@.len(),
                        offset + data@.len() <= base.len(),
                        base.len() <= usize::MAX,
                        region.bytes@.len() == base.len(),
                        region.prot == Protection::ReadWrite,
                        forall|k: int|
                            0 <= k < base.len() ==> region.bytes@[k] == (if offset <= k < offset
                                + j {
                                data@[k - offset]
                            } else {
                                base[k]
                            }),
                    decreases data@.len() - j,
                {
                    let b = data[j];
                    region.bytes[offset + j] = b;
                    j = j + 1;
                }
                proof {
                    assert(region.bytes@ =~= spliced(base, offset as nat, data@));
                    assert(self@ =~= old(self)@.update(
                        id.0 as int,
                        Some(RegionModel {
                            prot: Protection::ReadWrite,
                            bytes: spliced(base, offset as nat, data@),
                        }),
                    ));
                }
                Ok(())
            },
            None => Err(JitError::ProtectionFailure),
        }
    }

    /// Returns a copy of the bytes of region `id` exactly as they are
    /// exposed for execution.  Denied unless the region is mapped and sealed
    /// execute-allowed, so no caller ever observes a half-written region as
    /// executable.
    pub fn read_exec(&self, id: RegionId) -> (r: Result<Vec<u8>, JitError>)
        ensures
            match r {
                Ok(bytes) => exec_bytes(self@, id.0 as int) == Some(bytes@),
                Err(e) => {
                    &&& e == JitError::ProtectionFailure
                    &&& exec_bytes(self@, id.0 as int) is None
                },
            },
    {
        if id.0 >= self.regions.len() {
            return Err(JitError::ProtectionFailure);
        }
        match &self.regions[id.0] {
            Some(region) => {
                match region.prot {
                    Protection::ReadExec => {
                        let mut out: Vec<u8> = Vec::new();
                        let mut j: usize = 0;
                        while j < region.bytes.len()
                            invariant
                                j <= region.bytes@.len(),
                                out@ =~= region.bytes@.take(j as int),
                            decreases region.bytes@.len() - j,
                        {
                            let b = region.bytes[j];
                            out.push(b);
                            j = j + 1;
                        }
                        proof {
                            assert(out@ =~= region.bytes@);
                        }
                        Ok(out)
                    },
                    Protection::ReadWrite => Err(JitError::ProtectionFailure),
                }
            },
            None => Err(JitError::ProtectionFailure),
        }
    }

    /// Releases region `id`.  The slot is never reused, so a stale handle
    /// can only ever be refused, not confused with a later region.
    pub fn unmap(&mut self, id: RegionId) -> (r: Result<(), JitError>)
        ensures
            match r {
                Ok(()) => unmap_ok(old(self)@, final(self)@, id.0 as int),
                Err(e) => {
                    &&& e == JitError::AllocationFailure
                    &&& !is_mapped(old(self)@, id.0 as int)
                    &&& final(self)@ == old(self)@
                },
            },
    {
        if id.0 >= self.regions.len() {
            return Err(JitError::AllocationFailure);
        }
        let slot = &mut self.regions[id.0];
        match slot {
            Some(_) => {
                *slot = None;
                proof {
                    assert(self@ =~= old(self)@.update(id.0 as int, None));
                }
                Ok(())
            },
            None => Err(JitError::AllocationFailure),
        }
    }

    /// Releases every still-mapped region, leaving the allocator with no
    /// mapped slot at all.
    pub fn unmap_all(&mut self)
        ensures
            final(self)@.len() == old(self)@.len(),
            forall|id: int| !is_mapped(final(self)@, id),
    {
        let n = self.regions.len();
        let mut cleared: Vec<Option<Region>> = Vec::new();
        let mut i: usize = 0;
        while i < n
            invariant
                i <= n,
                cleared@.len() == i,
                forall|id: int| 0 <= id < i ==> cleared@[id] is None,
            decreases n - i,
        {
            cleared.push(None);
            i = i + 1;
        }
        self.regions = cleared;
    }

    /// Number of slots ever mapped by this allocator (released slots
    /// included; ids are never reused).
    pub fn slot_count(&self) -> (r: usize)
        ensures
            r == self@.len(),
    {
        self.regions.len()
    }

    /// Whether region `id` is currently mapped.
    pub fn mapped(&self, id: RegionId) -> (r: bool)
        ensures
            r == is_mapped(self@, id.0 as int),
    {
        id.0 < self.regions.len() && match &self.regions[id.0] {
            Some(_) => true,
            None => false,
        }
    }

    /// The current protection of region `id`, or `None` if it is not
    /// mapped.
    pub fn protection(&self, id: RegionId) -> (r: Option<Protection>)
        ensures
            match r {
                Some(p) => is_mapped(self@, id.0 as int) && region_of(self@, id.0 as int).prot
                    == p,
                None => !is_mapped(self@, id.0 as int),
            },
    {
        if id.0 >= self.regions.len() {
            return None;
        }
        match &self.regions[id.0] {
            Some(region) => Some(region.prot),
            None => None,
        }
    }
}

/// The allocator strategy backed by anonymous private in-process memory,
/// supplied to `Context::init` as the default capability; it starts with no
/// region mapped.  (A host may instead plug the platform's raw mapping
/// facility behind the same contract outside the verified engine.)
pub fn unix_mmap() -> (r: CodeAlloc)
    ensures
        r@ =~= Seq::<Option<RegionModel>>::empty(),
{
    CodeAlloc { regions: Vec::new() }
}

/// W^X as one sentence: while a write to any span of a region is permitted,
/// that region's bytes are not fetchable for execution, and the other way
/// round.
pub proof fn lemma_write_xor_execute(v: Seq<Option<RegionModel>>, id: int, off: nat, n: nat)
    ensures
        write_allowed(v, id, off, n) ==> exec_bytes(v, id) is None,
        exec_bytes(v, id) is Some ==> !write_allowed(v, id, off, n),
{
}

/// The bytes a caller can execute after `map` → in-range write → seal are
/// exactly the bytes written, with the rest of the pages still zero: no
/// partial write is visible and nothing is reordered.
pub proof fn lemma_sealed_bytes_are_written_bytes(
    a0: Seq<Option<RegionModel>>,
    a1: Seq<Option<RegionModel>>,
    a2: Seq<Option<RegionModel>>,
    a3: Seq<Option<RegionModel>>,
    id: int,
    len: nat,
    off: nat,
    data: Seq<u8>,
)
    requires
        map_ok(a0, a1, id, len),
        write_ok(a1, a2, id, off, data),
        protect_ok(a2, a3, id, Protection::ReadExec),
    ensures
        exec_bytes(a3, id) is Some,
        exec_bytes(a3, id)->Some_0.len() == rounded_len(len),
        exec_bytes(a3, id)->Some_0.subrange(off as int, off + data.len() as int) == data,
        forall|k: int|
            0 <= k < rounded_len(len) && !(off <= k < off + data.len())
                ==> exec_bytes(a3, id)->Some_0[k] == 0u8,
{
    let zeros = Seq::new(rounded_len(len), |i: int| 0u8);
    assert(region_of(a1, id).bytes == zeros);
    let written = spliced(zeros, off, data);
    assert(region_of(a2, id).bytes == written);
    assert(exec_bytes(a3, id) == Some(written));
    assert(written.subrange(off as int, off + data.len() as int) =~= data);
}

/// No transition leads from unmapped straight to executable: on a slot that
/// is not mapped, `protect` and `write` admit no step at all, and the only
/// step `map` admits leaves the fresh region write-allowed, not executable.
pub proof fn lemma_unmapped_never_directly_executable(
    pre: Seq<Option<RegionModel>>,
    post: Seq<Option<RegionModel>>,
    id: int,
)
    requires
        !is_mapped(pre, id),
    ensures
        forall|target: Protection| !protect_ok(pre, post, id, target),
        forall|off: nat, data: Seq<u8>| !write_ok(pre, post, id, off, data),
        !unmap_ok(pre, post, id),
        forall|len: nat|
            map_ok(pre, post, id, len) ==> region_of(post, id).prot == Protection::ReadWrite,
{
    assert forall|len: nat| map_ok(pre, post, id, len) implies region_of(post, id).prot
        == Protection::ReadWrite by {
        assert(post[id] == Some(
            RegionModel {
                prot: Protection::ReadWrite,
                bytes: Seq::new(rounded_len(len), |i: int| 0u8),
            },
        ));
    }
}

} // verus!
