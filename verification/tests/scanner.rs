use std::cell::RefCell;

use lince::maps_result::MapRange;
use lince::scanner::{
    absolute_hits, addr_page, dlopen_address, filter_less, filter_less_regions, find_in,
    find_sym_by_name, libc_base, loader_payload, loader_stub, narrow_offsets, parse_syscall_ip,
    push_u64_le, scan_regions, select_regions, bytes_less, Cache, Error, Keep, MemExt,
};
use lince::text::IntErrorKind;

struct Ram {
    bytes: RefCell<Vec<u8>>,
}

impl MemExt for Ram {
    fn write(&self, addr: usize, payload: &[u8]) -> Result<usize, Error> {
        let mut b = self.bytes.borrow_mut();
        b[addr..addr + payload.len()].copy_from_slice(payload);
        Ok(payload.len())
    }

    fn read(&self, addr: usize, size: usize) -> Result<Vec<u8>, Error> {
        let b = self.bytes.borrow();
        if addr + size > b.len() {
            return Err(Error::ReadMemError);
        }
        Ok(b[addr..addr + size].to_vec())
    }

    fn dump(&self, _addr: usize, size: usize, _path: &str) -> Result<usize, Error> {
        Ok(size)
    }

    fn freeze(&self, _va: usize, _payload: Vec<u8>) -> Result<(), Error> {
        Ok(())
    }

    fn unfreeze(&self, _va: usize, _payload: Vec<u8>) -> Result<(), Error> {
        Ok(())
    }
}

fn range(start: usize, end: usize, flags: &str, path: &str) -> MapRange {
    MapRange {
        range_start: start,
        range_end: end,
        offset: 0,
        dev: "00:00".to_string(),
        flags: flags.to_string(),
        inode: 0,
        pathname: path.to_string(),
    }
}

#[test]
fn find_in_is_non_overlapping() {
    assert_eq!(find_in(b"aaaa", b"aa"), vec![0, 2]);
    assert_eq!(find_in(b"foo bar foo baz foo", b"foo"), vec![0, 8, 16]);
    assert_eq!(find_in(b"ab", b""), vec![0, 1, 2]);
    assert_eq!(find_in(b"", b"x"), Vec::<usize>::new());
}

#[test]
fn select_regions_keeps_heap_stack_and_anonymous_rw() {
    let maps = vec![
        range(0x1000, 0x2000, "r--p", "/usr/bin/x"),
        range(0x2000, 0x3000, "rw-p", "[heap]"),
        range(0x3000, 0x3000, "rw-p", "[stack]"),
        range(0x4000, 0x5000, "rw-p", ""),
        range(0x5000, 0x6000, "r--p", ""),
        range(0x6000, 0x7000, "rwxp", ""),
        range(0x7000, 0x8000, "-", ""),
    ];
    let kept = select_regions(&maps);
    let starts: Vec<usize> = kept.iter().map(|m| m.range_start).collect();
    assert_eq!(starts, vec![0x2000, 0x4000, 0x6000]);
}

#[test]
fn bytes_less_is_lexicographic() {
    assert!(bytes_less(&[1, 2], &[1, 3]));
    assert!(bytes_less(&[1], &[1, 0]));
    assert!(!bytes_less(&[2], &[1, 9]));
    assert!(!bytes_less(&[1, 2], &[1, 2]));
}

#[test]
fn narrow_offsets_equal_and_not_greater() {
    let mem = [1u8, 1, 0, 0, 2, 2, 1, 1];
    let mut offs = vec![0usize, 2, 4, 6];
    narrow_offsets(&mem, &mut offs, &[1, 1], Keep::Equal);
    assert_eq!(offs, vec![0, 6]);
    let mut offs2 = vec![0usize, 2, 4, 6];
    narrow_offsets(&mem, &mut offs2, &[1, 1], Keep::NotGreater);
    assert_eq!(offs2, vec![0, 2, 6]);
}

#[test]
fn filter_less_keeps_order() {
    let mem = [3u8, 0, 1, 0, 5, 0];
    assert_eq!(filter_less(&mem, &vec![0, 2, 4], &[2, 0]), vec![2]);
    let kept = filter_less_regions(&vec![mem.to_vec(), vec![0, 0]], &vec![vec![0, 2, 4], vec![0]], &[2, 0]);
    assert_eq!(kept, vec![vec![2], vec![0]]);
}

#[test]
fn cache_first_scan_and_rescan() {
    let mem = Ram { bytes: RefCell::new(vec![1, 2, 3, 4, 9, 1, 2, 3, 4, 0, 0, 0, 0, 0, 0, 0]) };
    let mut cache = Cache::default();
    cache.input = vec![1, 2, 3, 4];
    cache.first_scan(&mem, vec![range(0, 9, "rw-p", ""), range(9, 16, "rw-p", "")]);
    assert_eq!(cache.addr, vec![vec![0, 5], vec![]]);
    assert_eq!(cache.hits(), vec![0, 5]);
    mem.write(5, &[7, 7, 7, 7]).unwrap();
    cache.rescan(&mem).unwrap();
    assert_eq!(cache.maps.len(), 1);
    assert_eq!(cache.addr, vec![vec![0]]);
}

#[test]
fn scan_regions_unreadable_region_has_no_hits() {
    let mem = Ram { bytes: RefCell::new(vec![1, 1]) };
    let found = scan_regions(&mem, &vec![range(0, 2, "rw-p", ""), range(0, 9, "rw-p", "")], &[1]);
    assert_eq!(found, vec![vec![0, 1], vec![]]);
}

#[test]
fn absolute_hits_and_paging() {
    let maps = vec![range(0x100, 0x200, "rw-p", ""), range(0x1000, 0x2000, "rw-p", "")];
    let hits = absolute_hits(&maps, &vec![vec![1, 2], vec![3]]);
    assert_eq!(hits, vec![0x101, 0x102, 0x1003]);
    assert_eq!(addr_page(&hits, 2, 2), (vec![0x101, 0x102], Some(0)));
    assert_eq!(addr_page(&hits, 2, 1), (vec![0x101], Some(1)));
    assert_eq!(addr_page(&hits, 2, 5), (hits.clone(), None));
    assert_eq!(addr_page(&hits, 2, 3), (vec![], None));
}

#[test]
fn parse_syscall_ip_reads_last_hex_field() {
    assert_eq!(parse_syscall_ip("7 0x3 0x7ffd 0x7f1234abcd\n").unwrap(), 0x7f1234abcd);
    assert!(matches!(parse_syscall_ip("running"), Err(Error::PidNotFound)));
    assert!(matches!(
        parse_syscall_ip("0 0xzz"),
        Err(Error::ParseIntError(IntErrorKind::InvalidDigit))
    ));
    assert!(matches!(parse_syscall_ip(" 0x "), Err(Error::ParseIntError(IntErrorKind::Empty))));
}

#[test]
fn libc_base_finds_first_mapping() {
    let maps = vec![
        range(0x10, 0x20, "r--p", "/usr/bin/x"),
        range(0x30, 0x40, "r--p", "/usr/lib/libc.so.6"),
        range(0x50, 0x60, "r-xp", "/usr/lib/libc.so.6"),
    ];
    assert_eq!(libc_base(&maps).unwrap(), 0x30);
    let other = vec![range(0x10, 0x20, "r--p", "/usr/bin/x")];
    assert!(matches!(libc_base(&other), Err(Error::PidNotFound)));
}

#[test]
fn find_sym_by_name_prefers_static_table() {
    let syms = vec![(None, 1u64), (Some("a".to_string()), 2)];
    let dyns = vec![(Some("a".to_string()), 3u64), (Some("b".to_string()), 4)];
    assert_eq!(find_sym_by_name(&syms, &dyns, "a"), Some(2));
    assert_eq!(find_sym_by_name(&syms, &dyns, "b"), Some(4));
    assert_eq!(find_sym_by_name(&syms, &dyns, "c"), None);
}

#[test]
fn dlopen_address_rejects_non_elf() {
    assert!(matches!(dlopen_address(&[0u8; 16], &vec![]), Err(Error::ElfError(_))));
}

#[test]
fn loader_payload_layout() {
    let stub = loader_stub("/tmp/tmp.bin");
    assert_eq!(&stub[..3], &[80, 83, 81]);
    assert_eq!(stub.len(), 137 + 12 + 1);
    assert_eq!(&stub[137..149], b"/tmp/tmp.bin");
    assert_eq!(*stub.last().unwrap(), 0);
    let p = loader_payload(&[9, 9], 0x1122, "/l.so", 0x33);
    let head = 152;
    assert_eq!(&p[head..head + 2], &[9, 9]);
    assert_eq!(&p[head + 2..head + 10], &2u64.to_le_bytes());
    assert_eq!(&p[head + 10..head + 18], &0x1122u64.to_le_bytes());
    assert_eq!(&p[head + 18..head + 23], b"/l.so");
    assert_eq!(p[head + 23], 0);
    assert_eq!(&p[head + 24..], &0x33u64.to_le_bytes());
}

#[test]
fn push_u64_le_matches_std() {
    let mut v = vec![1u8];
    push_u64_le(&mut v, 0x0102030405060708);
    assert_eq!(v, vec![1, 8, 7, 6, 5, 4, 3, 2, 1]);
}

#[test]
fn keep_below_reads_each_address() {
    let mem = Ram { bytes: RefCell::new(vec![1, 0, 5, 0, 2, 0]) };
    let kept = lince::scanner::keep_below(&mem, &vec![0, 2, 4], &[3, 0]).unwrap();
    assert_eq!(kept, vec![0, 4]);
    assert!(lince::scanner::keep_below(&mem, &vec![5], &[3, 0]).is_err());
}

#[test]
fn narrow_regions_not_greater() {
    let mem = Ram { bytes: RefCell::new(vec![1, 1, 9, 9, 0, 0]) };
    let maps = vec![range(0, 6, "rw-p", "")];
    let mut addr = vec![vec![0usize, 2, 4]];
    lince::scanner::narrow_regions(&mem, &maps, &mut addr, &[1, 1], Keep::NotGreater).unwrap();
    assert_eq!(addr, vec![vec![0, 4]]);
}

fn put(b: &mut [u8], at: usize, v: &[u8]) {
    b[at..at + v.len()].copy_from_slice(v);
}

fn tiny_libc_image(value: u64) -> Vec<u8> {
    let mut b = vec![0u8; 328];
    put(&mut b, 0, &[0x7f, b'E', b'L', b'F', 2, 1, 1]);
    put(&mut b, 16, &3u16.to_le_bytes());
    put(&mut b, 18, &62u16.to_le_bytes());
    put(&mut b, 20, &1u32.to_le_bytes());
    put(&mut b, 40, &136u64.to_le_bytes());
    put(&mut b, 52, &64u16.to_le_bytes());
    put(&mut b, 58, &64u16.to_le_bytes());
    put(&mut b, 60, &3u16.to_le_bytes());
    put(&mut b, 65, b"__libc_dlopen_mode");
    let sym = 88 + 24;
    put(&mut b, sym, &1u32.to_le_bytes());
    b[sym + 4] = 0x12;
    put(&mut b, sym + 6, &1u16.to_le_bytes());
    put(&mut b, sym + 8, &value.to_le_bytes());
    let symtab = 136 + 64;
    put(&mut b, symtab + 4, &2u32.to_le_bytes());
    put(&mut b, symtab + 24, &88u64.to_le_bytes());
    put(&mut b, symtab + 32, &48u64.to_le_bytes());
    put(&mut b, symtab + 40, &2u32.to_le_bytes());
    put(&mut b, symtab + 56, &24u64.to_le_bytes());
    let strtab = 136 + 128;
    put(&mut b, strtab + 4, &3u32.to_le_bytes());
    put(&mut b, strtab + 24, &64u64.to_le_bytes());
    put(&mut b, strtab + 32, &20u64.to_le_bytes());
    b
}

#[test]
fn dlopen_address_adds_symbol_to_libc_base() {
    let image = tiny_libc_image(0x1234);
    let maps = vec![
        range(0x1000, 0x2000, "r--p", "/usr/bin/x"),
        range(0x7f00_0000, 0x7f00_1000, "r--p", "/usr/lib/libc.so.6"),
    ];
    assert_eq!(dlopen_address(&image, &maps).unwrap(), 0x7f00_1234);
    assert!(matches!(dlopen_address(&image, &vec![]), Err(Error::PidNotFound)));
}

#[test]
fn first_scan_pass_then_narrow() {
    let mem = Ram { bytes: RefCell::new(vec![4, 3, 2, 1, 4, 3, 2, 1, 0]) };
    let maps = vec![range(0, 9, "rw-p", "")];
    let mut addr: Vec<Vec<usize>> = Vec::new();
    lince::scanner::first_scan(&mem, &maps, &mut addr, &[4, 3, 2, 1]).unwrap();
    assert_eq!(addr, vec![vec![0, 4]]);
    mem.write(0, &[9]).unwrap();
    lince::scanner::first_scan(&mem, &maps, &mut addr, &[4, 3, 2, 1, 7]).unwrap();
    assert_eq!(addr, vec![vec![4]]);
}

#[test]
fn can_rescan_checks_the_pairing() {
    let mut cache = Cache::default();
    cache.input = vec![1, 2, 3, 4];
    cache.maps = vec![range(0, 8, "rw-p", ""), range(8, 10, "rw-p", "")];
    cache.addr = vec![vec![4], vec![]];
    assert!(cache.can_rescan());
    cache.addr = vec![vec![5], vec![]];
    assert!(!cache.can_rescan());
    cache.addr = vec![vec![], vec![0]];
    assert!(!cache.can_rescan());
    cache.input = vec![1];
    cache.addr = vec![vec![0]];
    assert!(!cache.can_rescan());
}

#[test]
fn keep_below_with_no_address_reads_nothing() {
    let mem = Ram { bytes: RefCell::new(Vec::new()) };
    let kept = lince::scanner::keep_below(&mem, &Vec::new(), &[3, 0]).unwrap();
    assert!(kept.is_empty());
}
