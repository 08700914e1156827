use mir_jit::code_alloc::{unix_mmap, Protection, RegionId, PAGE_SIZE};
use mir_jit::JitError;

#[test]
fn map_write_seal_fetch_round_trip() {
    let mut alloc = unix_mmap();
    let id = alloc.map(100).unwrap();
    let data = vec![0xde, 0xad, 0xbe, 0xef];
    alloc.write(id, 8, &data).unwrap();
    alloc.protect(id, Protection::ReadExec).unwrap();
    let bytes = alloc.read_exec(id).unwrap();
    // one whole page, the written span exactly as written, zero elsewhere
    assert_eq!(bytes.len(), PAGE_SIZE);
    assert_eq!(&bytes[8..12], &[0xde, 0xad, 0xbe, 0xef]);
    assert!(bytes[..8].iter().all(|&b| b == 0));
    assert!(bytes[12..].iter().all(|&b| b == 0));
}

#[test]
fn map_rounds_up_to_pages() {
    let mut alloc = unix_mmap();
    let id = alloc.map(PAGE_SIZE + 1).unwrap();
    alloc.protect(id, Protection::ReadExec).unwrap();
    assert_eq!(alloc.read_exec(id).unwrap().len(), 2 * PAGE_SIZE);
}

#[test]
fn map_zero_fails() {
    let mut alloc = unix_mmap();
    assert_eq!(alloc.map(0), Err(JitError::AllocationFailure));
}

#[test]
fn no_write_while_executable() {
    let mut alloc = unix_mmap();
    let id = alloc.map(16).unwrap();
    alloc.protect(id, Protection::ReadExec).unwrap();
    // W^X: a sealed region refuses writes
    let r = alloc.write(id, 0, &vec![1, 2, 3]);
    assert_eq!(r, Err(JitError::ProtectionFailure));
    // and back to write-allowed, fetching for execution is refused
    alloc.protect(id, Protection::ReadWrite).unwrap();
    assert!(alloc.read_exec(id).is_err());
}

#[test]
fn protect_requires_prior_map() {
    let mut alloc = unix_mmap();
    // never mapped
    assert_eq!(
        alloc.protect(RegionId(0), Protection::ReadExec),
        Err(JitError::ProtectionFailure)
    );
    // released: a stale handle is refused, not confused with a new region
    let id = alloc.map(16).unwrap();
    alloc.unmap(id).unwrap();
    assert_eq!(
        alloc.protect(id, Protection::ReadExec),
        Err(JitError::ProtectionFailure)
    );
    assert_eq!(alloc.unmap(id), Err(JitError::AllocationFailure));
}

#[test]
fn write_out_of_range_rejected() {
    let mut alloc = unix_mmap();
    let id = alloc.map(PAGE_SIZE).unwrap();
    let r = alloc.write(id, PAGE_SIZE - 1, &vec![1, 2]);
    assert_eq!(r, Err(JitError::ProtectionFailure));
}

#[test]
fn slots_are_never_reused() {
    let mut alloc = unix_mmap();
    assert_eq!(alloc.slot_count(), 0);
    let a = alloc.map(1).unwrap();
    let b = alloc.map(1).unwrap();
    assert_eq!(alloc.slot_count(), 2);
    assert_eq!(alloc.protection(a), Some(Protection::ReadWrite));
    alloc.protect(b, Protection::ReadExec).unwrap();
    assert_eq!(alloc.protection(b), Some(Protection::ReadExec));
    alloc.unmap(a).unwrap();
    assert!(!alloc.mapped(a));
    assert!(alloc.mapped(b));
    // the released slot stays dead: the next region gets a fresh id
    let c = alloc.map(1).unwrap();
    assert_ne!(a, c);
    assert_eq!(alloc.slot_count(), 3);
}

#[test]
fn unmap_all_releases_everything() {
    let mut alloc = unix_mmap();
    let a = alloc.map(1).unwrap();
    let b = alloc.map(1).unwrap();
    alloc.protect(b, Protection::ReadExec).unwrap();
    alloc.unmap_all();
    assert!(!alloc.mapped(a));
    assert!(!alloc.mapped(b));
}
