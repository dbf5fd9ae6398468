use std::cell::RefCell;

use lince::error::Error;
use lince::linux::Region;
use lince::mem::MemExt;
use lince::scan::{rescan_chunk, rescan_region, scan_chunk, scan_region, Scan, CHUNK_SIZE};

struct Ram {
    bytes: RefCell<Vec<u8>>,
}

impl MemExt for Ram {
    fn read(&self, addr: usize, size: usize) -> Result<Vec<u8>, Error> {
        let b = self.bytes.borrow();
        if addr + size > b.len() {
            return Err(Error::ParseMapsError);
        }
        Ok(b[addr..addr + size].to_vec())
    }

    fn write(&self, addr: usize, payload: &[u8]) -> Result<usize, Error> {
        let mut b = self.bytes.borrow_mut();
        b[addr..addr + payload.len()].copy_from_slice(payload);
        Ok(payload.len())
    }
}

#[test]
fn scan_chunk_takes_aligned_windows() {
    assert_eq!(scan_chunk(&[1, 2, 1, 2, 9, 1, 2], &[1, 2]), vec![0, 2]);
    assert_eq!(scan_chunk(&[9, 1, 2, 1], &[1, 2]), Vec::<u16>::new());
    assert_eq!(scan_chunk(&[7], &[7, 7]), Vec::<u16>::new());
}

#[test]
fn rescan_chunk_moves_last_into_gap() {
    let mut offs = vec![0u16, 2, 4, 6];
    rescan_chunk(&[1, 1, 0, 0, 1, 1, 1, 1], &mut offs, &[1, 1]);
    assert_eq!(offs, vec![0, 6, 4]);
}

#[test]
fn find_refind_and_list() {
    let mem = Ram { bytes: RefCell::new(vec![49, 49, 50, 50, 51, 51, 52, 52, 51, 51, 53, 53]) };
    let region = vec![Region { start: 2, end: 10, flags: "rw-p", pathname: "" }];
    let mut scan = Scan::new(&mem, &region).unwrap();
    scan.find(&[51, 51]).unwrap();
    assert_eq!(scan.list(), vec![4, 8]);
    assert_eq!(scan.len(), 2);
    assert!(!scan.is_empty());
    mem.write(4, &[50, 50]).unwrap();
    scan.refind(&[50, 50]).unwrap();
    assert_eq!(scan.list(), vec![4]);
    assert_eq!(scan.len(), 1);
}

#[test]
fn find_on_unreadable_region_fails() {
    let mem = Ram { bytes: RefCell::new(vec![0; 4]) };
    let region = vec![Region { start: 0, end: 16, flags: "rw-p", pathname: "" }];
    let mut scan = Scan::new(&mem, &region).unwrap();
    assert!(scan.find(&[0]).is_err());
    assert!(scan.data.is_empty());
}

#[test]
fn scan_region_splits_long_regions() {
    let mut bytes = vec![0u8; CHUNK_SIZE + 4];
    bytes[CHUNK_SIZE + 2] = 7;
    bytes[CHUNK_SIZE + 3] = 7;
    bytes[2] = 7;
    bytes[3] = 7;
    let mem = Ram { bytes: RefCell::new(bytes) };
    let local = scan_region(&mem, 0, CHUNK_SIZE + 4, &[7, 7]).unwrap();
    assert_eq!(local, vec![vec![2], vec![2]]);
    let empty = Scan::<Ram, Region>::new(&mem, &[]).unwrap();
    assert!(empty.is_empty());
}

#[test]
fn rescan_region_keeps_unpaired_lists() {
    let mem = Ram { bytes: RefCell::new(vec![5, 5, 6, 6]) };
    let mut local = vec![vec![0u16, 2], vec![0]];
    rescan_region(&mem, 0, 4, &[5, 5], &mut local).unwrap();
    assert_eq!(local, vec![vec![0], vec![0]]);
}

#[test]
fn refind_fits_checks_chunk_room() {
    let mem = Ram { bytes: RefCell::new(vec![1, 1, 1, 1]) };
    let region = vec![Region { start: 0, end: 4, flags: "rw-p", pathname: "" }];
    let mut scan = Scan::new(&mem, &region).unwrap();
    scan.find(&[1, 1]).unwrap();
    assert!(scan.refind_fits(2));
    assert!(!scan.refind_fits(3));
    assert_eq!(lince::scan::plan_chunk_len(0, CHUNK_SIZE + 5, 1), Some(5));
    assert_eq!(lince::scan::plan_chunk_len(0, CHUNK_SIZE + 5, 2), None);
    assert_eq!(lince::scan::plan_chunk_len(3, 3, 0), Some(0));
}

#[test]
fn find_with_no_region_succeeds() {
    let mem = Ram { bytes: RefCell::new(Vec::new()) };
    let region: Vec<Region> = Vec::new();
    let mut scan = Scan::new(&mem, &region).unwrap();
    assert!(scan.find(&[1]).is_ok());
    assert!(scan.is_empty());
    assert!(scan.list().is_empty());
}
