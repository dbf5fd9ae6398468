use lince::data::VecMinValue;
use lince::elf::elf32::Elf32;
use lince::elf::elf64::Parse;
use lince::elf::util::{bytes_to_u16, bytes_to_u32, bytes_to_u64};
use lince::emaps::get_process_maps;
use lince::ext::Cache as ExtCache;
use lince::gui::{filter_entries, position_of, process_entry, select_enabled};
use lince::maps_nostd;
use lince::maps_result;
use lince::memscan::{lock, unlock, Cmd, ReadLine};
use lince::nostdmaps::{no_std_parse_proc_maps, std_parse_proc_maps};
use lince::pbar::{push_decimal, ProgressBar, WinSize};
use lince::sdk::{Error as SdkError, Maps, MemExt as SdkMemExt, Meow};
use lince::utils::hexstr_to_usize;
use lince::windows::{WinProc, Windows};

fn addrs(v: &VecMinValue) -> Vec<usize> {
    v.iter()
}

#[test]
fn vec_min_value_small_offset() {
    let mut v = VecMinValue::Orig { vec: vec![0x10000, 0x10010, 0x10004] };
    v.compact();
    assert!(matches!(v, VecMinValue::SmallOffset { base: 0x10000, .. }));
    assert_eq!(addrs(&v), vec![0x10000, 0x10010, 0x10004]);
}

#[test]
fn vec_min_value_layouts() {
    let mut a = VecMinValue::Orig { vec: vec![1, 2, 3] };
    a.compact();
    assert!(matches!(a, VecMinValue::Small { .. }));
    let mut b = VecMinValue::Orig { vec: vec![0x100000, 0x200000] };
    b.compact();
    assert!(matches!(b, VecMinValue::Big { .. }));
    let mut c = VecMinValue::Orig { vec: vec![0x1_0000_0000, 0x1_0000_1000] };
    c.compact();
    assert!(matches!(c, VecMinValue::SmallOffset { .. }));
    let mut d = VecMinValue::Orig { vec: vec![0x1_0000_0000, 0x1_1000_0000] };
    d.compact();
    assert!(matches!(d, VecMinValue::BigOffset { base: 0x1_0000_0000, .. }));
    let mut e = VecMinValue::Orig { vec: vec![5] };
    e.compact();
    assert!(matches!(e, VecMinValue::Orig { .. }));
}

#[test]
fn vec_min_value_edit() {
    let mut v = VecMinValue::Orig { vec: vec![0x10000, 0x10001, 0x10002, 0x10003] };
    v.compact();
    assert_eq!(v.len(), 4);
    assert_eq!(v.get(1), Some(0x10001));
    assert_eq!(v.get(9), None);
    v.remove(0);
    assert_eq!(addrs(&v), vec![0x10001, 0x10002, 0x10003]);
    v.swap_remove(0);
    assert_eq!(addrs(&v), vec![0x10003, 0x10002]);
    v.retain(|a| *a != 0x10002);
    assert_eq!(addrs(&v), vec![0x10003]);
    v.shrink_to_fit();
    assert!(!v.is_empty());
    let empty = VecMinValue::default();
    assert!(empty.is_empty());
}

fn elf64_image() -> Vec<u8> {
    let mut b = vec![0u8; 64 + 56 + 64];
    b[0..4].copy_from_slice(&[0x7f, b'E', b'L', b'F']);
    b[16..18].copy_from_slice(&2u16.to_le_bytes());
    b[24..32].copy_from_slice(&0x401000u64.to_le_bytes());
    b[32..40].copy_from_slice(&64u64.to_le_bytes());
    b[40..48].copy_from_slice(&120u64.to_le_bytes());
    b[54..56].copy_from_slice(&56u16.to_le_bytes());
    b[56..58].copy_from_slice(&1u16.to_le_bytes());
    b[58..60].copy_from_slice(&64u16.to_le_bytes());
    b[60..62].copy_from_slice(&1u16.to_le_bytes());
    b[64..68].copy_from_slice(&1u32.to_le_bytes());
    b[64 + 16..64 + 24].copy_from_slice(&0x400000u64.to_le_bytes());
    b[120 + 4..120 + 8].copy_from_slice(&3u32.to_le_bytes());
    b[120 + 24..120 + 32].copy_from_slice(&0x20u64.to_le_bytes());
    b
}

#[test]
fn elf64_headers() {
    let img = elf64_image();
    let elf = Parse::new(&img);
    assert_eq!(elf.ehdr().e_type, 2);
    assert_eq!(elf.ehdr().e_entry, 0x401000);
    assert_eq!(&elf.ehdr().e_ident[0..4], &[0x7f, b'E', b'L', b'F']);
    let mut ph = elf.phdr_iter();
    let p = ph.next().unwrap();
    assert_eq!(p.p_type, 1);
    assert_eq!(p.p_vaddr, 0x400000);
    assert!(ph.next().is_none());
    let mut sh = elf.shdr_iter();
    let s = sh.next().unwrap();
    assert_eq!(s.sh_type, 3);
    assert_eq!(s.sh_offset, 0x20);
    assert!(sh.next().is_none());
}

#[test]
fn elf32_header() {
    let mut b = vec![0u8; 52];
    b[16..18].copy_from_slice(&3u16.to_le_bytes());
    b[24..28].copy_from_slice(&0x8048000u32.to_le_bytes());
    let elf = Elf32::new(&b);
    assert_eq!(elf.ehdr().e_type, 3);
    assert_eq!(elf.ehdr().e_entry, 0x8048000);
    let mut ph = elf.phdr_iter();
    assert!(ph.next().is_none());
}

#[test]
fn little_endian_words() {
    assert_eq!(bytes_to_u16(&[0x34, 0x12]), 0x1234);
    assert_eq!(bytes_to_u32(&[1, 0, 0, 0x80]), 0x8000_0001);
    assert_eq!(bytes_to_u64(&[1, 2, 3, 4, 5, 6, 7, 8]), 0x0807060504030201);
}

#[test]
fn hexstr_to_usize_strips_every_0x() {
    assert_eq!(hexstr_to_usize("0x7ffe40b6b000").unwrap(), 0x7ffe40b6b000);
    assert_eq!(hexstr_to_usize("ff").unwrap(), 0xff);
    assert_eq!(hexstr_to_usize("10x2").unwrap(), 0x12);
    assert!(hexstr_to_usize("0x").is_err());
}

const LISTING: &str = "1000-2000 r-xp 00000010 08:01 42 /bin/a b\n3000-4000 rw-p 0 00:00 0\n";

#[test]
fn other_maps_readers_agree() {
    let r = maps_result::parse_proc_maps(LISTING).unwrap();
    assert_eq!(r.len(), 2);
    assert_eq!(r[0].pathname().as_str(), "/bin/a b");
    assert_eq!(r[0].offset, 0x10);
    assert_eq!(r[0].inode, 42);
    assert_eq!(r[0].dev, "08:01");
    assert!(r[0].is_exec());
    let e = get_process_maps(LISTING);
    assert_eq!(e.len(), 2);
    assert_eq!(e[1].start(), 0x3000);
    let s = std_parse_proc_maps(LISTING);
    assert_eq!(s[0].pathname, "/bin/a b");
    let n = no_std_parse_proc_maps(LISTING);
    assert_eq!(n[0].pathname, "/bin/a");
    assert_eq!(n[1].pathname, "");
    let m = maps_nostd::parse_proc_maps(LISTING);
    assert_eq!(m[1].end(), 0x4000);
    assert!(m[1].is_write());
}

#[test]
fn lenient_reader_stops_at_bad_line() {
    let e = get_process_maps("1000-2000 r-xp 0 08:01 42 x\nzz-1 r 0 0 0\n3000-4000 rw-p 0 0 0\n");
    assert_eq!(e.len(), 1);
    assert!(maps_result::parse_proc_maps("1000-2000 r-xp 0 08:01").is_err());
}

#[test]
fn progress_bar_renders() {
    let term = WinSize { ws_row: 24, ws_col: 30, ws_xpixel: 0, ws_ypixel: 0 };
    let mut bar = ProgressBar::new(4, term);
    assert_eq!(bar.length, 10);
    assert_eq!(bar.inc(), "[==>-------] 1/4 ");
    bar.inc();
    bar.inc();
    assert_eq!(bar.inc(), "[==========] 4/4 ");
    let mut s = String::new();
    push_decimal(&mut s, 1203);
    assert_eq!(s, "1203");
}

#[test]
fn gui_entries_and_filter() {
    let items = vec![process_entry("Firefox", "12"), process_entry("fish", "7"), process_entry("bash", "1")];
    assert_eq!(items[0], "Firefox -> 12");
    assert_eq!(filter_entries(&items, "F"), vec![0, 1]);
    assert_eq!(filter_entries(&items, ""), vec![0, 1, 2]);
    assert_eq!(position_of(&items, "bash -> 1"), Some(2));
    assert_eq!(position_of(&items, "zsh -> 2"), None);
    assert!(select_enabled(3));
    assert!(!select_enabled(0));
}

struct NoMem;

impl SdkMemExt for NoMem {
    fn read(&self, _addr: usize, size: usize) -> Result<Vec<u8>, SdkError> {
        Ok(vec![0; size])
    }

    fn write(&self, _addr: usize, payload: &[u8]) -> Result<usize, SdkError> {
        Ok(payload.len())
    }
}

#[test]
fn meow_hands_out_copies() {
    let handle = NoMem;
    let meow = Meow {
        pid: 42,
        maps: vec![Maps { range_start: 1, range_end: 2, flags: "r--p".into(), pathname: "/x".into() }],
        handle: &handle,
    };
    assert_eq!(meow.get_pid(), 42);
    let maps = meow.getmaps();
    assert_eq!(maps.len(), 1);
    assert_eq!(maps[0].pathname, "/x");
    assert_eq!(meow.handle.read(0, 3).unwrap(), vec![0, 0, 0]);
}

#[test]
fn windows_input_copies_value() {
    let mut w = Windows { proc: WinProc { pid: 3, hprocess: 0 }, cache: ExtCache::default() };
    w.input(&[1, 2, 3]);
    assert_eq!(w.cache.input, vec![1, 2, 3]);
    assert_eq!(w.proc.pid, 3);
}

#[test]
fn readline_starts_with_find() {
    let r = ReadLine::new("> ".to_string());
    assert_eq!(r.cmd, Cmd::FIND);
    assert_eq!(r.prompt, "> ");
    lock();
    unlock();
}

#[test]
fn jstr_to_vu32_reads_escaped_words() {
    let words = lince::decode::jstr_to_vu32(
        r"\xa2\x01\x80\xd2\x20\x00\x80\xd2\x30\x00\x80\xd2\x09\xfc\x5f\x08",
    )
    .unwrap();
    assert_eq!(words, vec![0xd28001a2, 0xd2800020, 0xd2800030, 0x085ffc09]);
    assert_eq!(lince::decode::jstr_to_vu32("").unwrap(), Vec::<u32>::new());
    assert!(matches!(
        lince::decode::jstr_to_vu32(r"\xzz"),
        Err(lince::decode::Error::ParseError(lince::text::IntErrorKind::InvalidDigit))
    ));
    assert!(matches!(
        lince::decode::jstr_to_vu32("abc"),
        Err(lince::decode::Error::ParseError(lince::text::IntErrorKind::Empty))
    ));
}

#[test]
fn comm_helpers() {
    assert!(lince::comm::comm_matches("kthreadd\n", "kthreadd"));
    assert!(!lince::comm::comm_matches("kthreadd\n", "kthread"));
    assert_eq!(lince::comm::trim("  a b \t"), "a b");
    assert_eq!(lince::comm::pid_in_comm_path("/proc/123/comm"), Some(123));
    assert_eq!(lince::comm::pid_in_comm_path("/proc/self/comm"), None);
    assert_eq!(lince::comm::pid_in_comm_path("comm"), None);
}

#[test]
fn keep_prefixed_is_case_sensitive() {
    let items = vec!["Ab".to_string(), "ab".to_string(), "b".to_string()];
    assert_eq!(lince::gui::keep_prefixed(&items, "a"), vec![1]);
    assert_eq!(lince::gui::keep_prefixed(&items, ""), vec![0, 1, 2]);
}

#[test]
fn pid_by_name_takes_last_match() {
    let comms = vec![
        ("/proc/1/comm".to_string(), Some("init\n".to_string())),
        ("/proc/7/comm".to_string(), Some("fish\n".to_string())),
        ("/proc/9/comm".to_string(), None),
        ("/proc/12/comm".to_string(), Some(" fish ".to_string())),
        ("/proc/15/comm".to_string(), Some("bash\n".to_string())),
    ];
    assert_eq!(lince::comm::pid_by_name(&comms, "fish"), Some(12));
    assert_eq!(lince::comm::pid_by_name(&comms, "zsh"), None);
}

#[test]
fn vec_min_value_compact_unordered() {
    let mut v = VecMinValue::Orig { vec: vec![100, 5, 200] };
    v.compact();
    assert!(matches!(v, VecMinValue::Small { .. }));
    assert_eq!(addrs(&v), vec![100, 5, 200]);
    let mut w = VecMinValue::Orig { vec: vec![0x1_0000_0000, 7, 0x2_0000_0000_0000] };
    w.compact();
    assert!(matches!(w, VecMinValue::Orig { .. }));
    assert_eq!(addrs(&w), vec![0x1_0000_0000, 7, 0x2_0000_0000_0000]);
}

#[test]
fn vec_min_value_remove_keeps_layout() {
    let mut v = VecMinValue::Orig { vec: vec![0x10000, 0x10001, 0x10002] };
    v.compact();
    v.remove(1);
    assert!(matches!(v, VecMinValue::SmallOffset { base: 0x10000, .. }));
    v.swap_remove(0);
    assert!(matches!(v, VecMinValue::SmallOffset { base: 0x10000, .. }));
    assert_eq!(addrs(&v), vec![0x10002]);
}

#[test]
fn two_readers_agree_but_on_spaced_paths() {
    let listing = "1000-2000 r-xp 00000010 08:01 42 /bin/a b\n3000-4000 rw-p 0 00:00 0 /lib/c.so\n";
    let s = std_parse_proc_maps(listing);
    let n = no_std_parse_proc_maps(listing);
    assert_eq!(s.len(), n.len());
    for (a, b) in s.iter().zip(n.iter()) {
        assert_eq!((a.range_start, a.range_end, a.offset, a.inode), (b.range_start, b.range_end, b.offset, b.inode));
        assert_eq!((a.dev.as_str(), a.flags.as_str()), (b.dev, b.flags));
    }
    assert_ne!(s[0].pathname, n[0].pathname);
    assert_eq!(s[1].pathname, n[1].pathname);
}

#[test]
fn elf_header_iterators_collect_all() {
    let img = elf64_image();
    let elf = Parse::new(&img);
    let phdrs = elf.phdr_iter().collect();
    assert_eq!(phdrs.len(), 1);
    assert_eq!(phdrs[0].p_vaddr, 0x400000);
    let shdrs = elf.shdr_iter().collect();
    assert_eq!(shdrs.len(), 1);
    assert_eq!(shdrs[0].sh_offset, 0x20);
    let mut ph = elf.phdr_iter();
    assert_eq!(ph.collect().len(), 1);
    assert!(ph.next().is_none());
    assert!(ph.collect().is_empty());
    let b = vec![0u8; 52];
    let e32 = Elf32::new(&b);
    assert!(e32.phdr_iter().collect().is_empty());
    assert!(e32.shdr_iter().collect().is_empty());
}
