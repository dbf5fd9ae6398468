use lince::linux::{Region, RegionIter};
use lince::region::InfoExt;

fn collect_regions(contents: &str) -> Vec<Region<'_>> {
    let mut it = RegionIter::new(contents);
    let mut out = Vec::new();
    loop {
        assert!(it.can_decode_next(), "bad numeral in maps line");
        match it.next() {
            Some(r) => out.push(r),
            None => break,
        }
    }
    out
}

#[test]
fn test_linux_parse_proc_maps() {
    let contents: &str = r#"563ea224a000-563ea2259000 r--p 00000000 103:05 5920780 /usr/bin/fish
563ea23ea000-563ea2569000 rw-p 00000000 00:00 0 [heap]
7f9e08000000-7f9e08031000 rw-p 00000000 00:00 0 
563ea224a000-563ea2259000 r--p 00000000 103:05 5920780     /usr/b in/fish  
7f9e08000000-7f9e08031000 rw-p 00000000 00:00 0 "#;
    let maps = collect_regions(contents);
    assert_eq!(maps[0].start(), 0x563ea224a000);
    assert_eq!(maps[0].end(), 0x563ea2259000);
    assert_eq!(maps[0].pathname(), "/usr/bin/fish");
    assert_eq!(maps[1].pathname(), "[heap]");
    assert_eq!(maps[2].pathname(), "");
    assert_eq!(maps[3].pathname(), "/usr/b in/fish  ");
    assert_eq!(maps[4].pathname(), "");
}

#[test]
fn region_iter_flags_and_size() {
    let maps = collect_regions("1000-3000 rw-p 00000000 00:00 0 [stack]\n");
    assert_eq!(maps.len(), 1);
    assert_eq!(maps[0].size(), 0x2000);
    assert!(maps[0].is_read());
    assert!(maps[0].is_write());
    assert_eq!(maps[0].flags, "rw-p");
}

#[test]
fn region_iter_stops_at_line_without_range_dash() {
    let maps = collect_regions("1000 r--p 0 0 0 x\n2000-3000 r--p 0 0 0 y\n");
    assert_eq!(maps.len(), 0);
}

#[test]
fn region_iter_short_line_has_empty_path() {
    let maps = collect_regions("10-20 r-xp\n");
    assert_eq!(maps.len(), 1);
    assert_eq!(maps[0].start(), 0x10);
    assert_eq!(maps[0].end(), 0x20);
    assert_eq!(maps[0].pathname(), "");
}

#[test]
fn region_iter_reports_bad_numeral() {
    let it = RegionIter::new("zz-20 r-xp\n");
    assert!(!it.can_decode_next());
    let empty = RegionIter::new("");
    assert!(empty.can_decode_next());
}
