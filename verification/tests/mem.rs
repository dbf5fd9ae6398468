use std::cell::RefCell;
use std::io::{Read, Seek, SeekFrom, Write};

use lince::error::Error;
use lince::mem::{Chunks, MemExt};

struct FileMem<F> {
    handle: F,
}

impl<F> MemExt for FileMem<F>
where
    for<'a> &'a F: Read + Write + Seek,
{
    fn read(&self, addr: usize, size: usize) -> Result<Vec<u8>, Error> {
        let mut buf = vec![0; size];
        let mut h = &self.handle;
        h.seek(SeekFrom::Start(addr as u64)).map_err(Error::IoError)?;
        h.read_exact(&mut buf).map_err(Error::IoError)?;
        Ok(buf)
    }

    fn write(&self, addr: usize, payload: &[u8]) -> Result<usize, Error> {
        let mut h = &self.handle;
        h.seek(SeekFrom::Start(addr as u64)).map_err(Error::IoError)?;
        h.write_all(payload).map_err(Error::IoError)?;
        Ok(payload.len())
    }
}

struct BufMem {
    bytes: RefCell<Vec<u8>>,
}

impl MemExt for BufMem {
    fn read(&self, addr: usize, size: usize) -> Result<Vec<u8>, Error> {
        let b = self.bytes.borrow();
        if addr + size > b.len() {
            return Err(Error::ParseMapsError);
        }
        Ok(b[addr..addr + size].to_vec())
    }

    fn write(&self, addr: usize, payload: &[u8]) -> Result<usize, Error> {
        let mut b = self.bytes.borrow_mut();
        b[addr..addr + payload.len()].copy_from_slice(payload);
        Ok(payload.len())
    }
}

fn drain<T: MemExt>(mut chunks: Chunks<'_, T>) -> Vec<Vec<u8>> {
    let mut out = Vec::new();
    while let Some(c) = chunks.next() {
        out.push(c.unwrap());
    }
    out
}

#[test]
fn test_chunk_read_linux() {
    let handle = tempfile::tempfile().unwrap();
    let mem = FileMem { handle };
    mem.write(0, &[49, 50, 51, 52, 53, 54, 55, 56, 57, 48]).unwrap();
    let chunk = Chunks::from(&mem, 2, 10, 3);
    let v = drain(chunk);
    assert_eq!(v, vec![vec![51, 52, 53], vec![54, 55, 56], vec![57, 48]])
}

#[test]
fn chunks_whole_range_when_size_is_large() {
    let mem = BufMem { bytes: RefCell::new((0u8..20).collect()) };
    let v = drain(Chunks::from(&mem, 4, 9, 100));
    assert_eq!(v, vec![vec![4, 5, 6, 7, 8]]);
}

#[test]
fn chunks_exact_multiple_has_no_tail() {
    let mem = BufMem { bytes: RefCell::new((0u8..20).collect()) };
    let v = drain(Chunks::from(&mem, 0, 6, 3));
    assert_eq!(v, vec![vec![0, 1, 2], vec![3, 4, 5]]);
}

#[test]
fn chunks_empty_range_reads_nothing_once() {
    let mem = BufMem { bytes: RefCell::new(vec![1, 2, 3]) };
    let v = drain(Chunks::from(&mem, 2, 2, 3));
    assert_eq!(v, vec![Vec::<u8>::new()]);
}

#[test]
fn chunks_failed_read_is_reported() {
    let mem = BufMem { bytes: RefCell::new(vec![1, 2, 3]) };
    let mut c = Chunks::from(&mem, 0, 8, 4);
    assert!(matches!(c.next(), Some(Err(Error::ParseMapsError))));
}
