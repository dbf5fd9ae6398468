use lince::maps::{parse_proc_maps, MapInfo};
use lince::text::IntErrorKind;

#[test]
fn test_parse_proc_maps() {
    let contents: &str = r#"563ea224a000-563ea2259000 r--p 00000000 103:05 5920780 /usr/bin/fish
563ea23ea000-563ea2569000 rw-p 00000000 00:00 0 [heap]
7f9e08000000-7f9e08031000 rw-p 00000000 00:00 0"#;
    let maps = parse_proc_maps(contents).unwrap();
    assert_eq!(maps[0].start(), 0x563ea224a000);
    assert_eq!(maps[0].end(), 0x563ea2259000);
    assert_eq!(maps[0].pathname(), "/usr/bin/fish");
    assert_eq!(maps[1].pathname(), "[heap]");
    assert_eq!(maps[2].pathname(), "");
}

static MAPS: &str = r#"55ec34929000-55ec3492a000 r--p 00000000 103:02 538486                    /home/keke/Templates/哈 哈/test
55ec3492a000-55ec3492b000 r-xp 00001000 103:02 538486                    /home/keke/Templates/哈 哈/test
55ec3492b000-55ec3492c000 r--p 00002000 103:02 538486                    /home/keke/Templates/哈 哈/test
55ec3492c000-55ec3492d000 r--p 00002000 103:02 538486                    /home/keke/Templates/哈 哈/test
55ec3492d000-55ec3492e000 rw-p 00003000 103:02 538486                    /home/keke/Templates/哈 哈/test
55ec354d9000-55ec354fa000 rw-p 00000000 00:00 0                          [heap]
7f5c416cb000-7f5c416ce000 rw-p 00000000 00:00 0 
7f5c416ce000-7f5c416fa000 r--p 00000000 103:02 10489193                  /usr/lib/libc.so.6
7f5c416fa000-7f5c41870000 r-xp 0002c000 103:02 10489193                  /usr/lib/libc.so.6
7f5c41870000-7f5c418c4000 r--p 001a2000 103:02 10489193                  /usr/lib/libc.so.6
7f5c418c4000-7f5c418c5000 ---p 001f6000 103:02 10489193                  /usr/lib/libc.so.6
7f5c418c5000-7f5c418c8000 r--p 001f6000 103:02 10489193                  /usr/lib/libc.so.6
7f5c418c8000-7f5c418cb000 rw-p 001f9000 103:02 10489193                  /usr/lib/libc.so.6
7f5c418cb000-7f5c418d8000 rw-p 00000000 00:00 0 
7f5c418fe000-7f5c41900000 rw-p 00000000 00:00 0 
7f5c41900000-7f5c41902000 r--p 00000000 103:02 10489181                  /usr/lib/ld-linux-x86-64.so.2
7f5c41902000-7f5c41929000 r-xp 00002000 103:02 10489181                  /usr/lib/ld-linux-x86-64.so.2
7f5c41929000-7f5c41934000 r--p 00029000 103:02 10489181                  /usr/lib/ld-linux-x86-64.so.2
7f5c41935000-7f5c41937000 r--p 00034000 103:02 10489181                  /usr/lib/ld-linux-x86-64.so.2
7f5c41937000-7f5c41939000 rw-p 00036000 103:02 10489181                  /usr/lib/ld-linux-x86-64.so.2
7ffe40b6b000-7ffe40b8c000 rw-p 00000000 00:00 0                          [stack]
7ffe40bf3000-7ffe40bf7000 r--p 00000000 00:00 0                          [vvar]
7ffe40bf7000-7ffe40bf9000 r-xp 00000000 00:00 0                          [vdso]
ffffffffff600000-ffffffffff601000 --xp 00000000 00:00 0                  [vsyscall]
"#;

#[test]
fn test_parse_maps() {
    let _ = parse_proc_maps(MAPS);
}

#[test]
fn parse_maps_whole_listing() {
    let maps = parse_proc_maps(MAPS).unwrap();
    assert_eq!(maps.len(), 24);
    assert_eq!(maps[0].pathname(), "/home/keke/Templates/哈 哈/test");
    assert!(maps[1].is_exec());
    assert!(!maps[0].is_exec());
    assert!(maps[4].is_write() && maps[4].is_read());
    assert!(!maps[10].is_read());
    assert_eq!(maps[23].start(), 0xffffffffff600000);
    assert_eq!(maps[23].size(), 0x1000);
}

#[test]
fn parse_maps_stops_at_blank_line() {
    let maps = parse_proc_maps("1-2 r--p 0 0:0 0 a\n   \n3-4 rw-p 0 0:0 0 b").unwrap();
    assert_eq!(maps.len(), 1);
    assert_eq!(maps[0].pathname(), "a");
}

#[test]
fn parse_maps_missing_field() {
    assert!(matches!(
        parse_proc_maps("1-2 r--p 0 0:0"),
        Err(lince::error::Error::ParseMapsError)
    ));
    assert!(matches!(
        parse_proc_maps("12 r--p 0 0:0 0"),
        Err(lince::error::Error::ParseMapsError)
    ));
}

#[test]
fn parse_maps_bad_numeral() {
    assert!(matches!(
        parse_proc_maps("1g-2 r--p 0 0:0 0"),
        Err(lince::error::Error::ParseIntError(IntErrorKind::InvalidDigit))
    ));
    assert!(matches!(
        parse_proc_maps("-2 r--p 0 0:0 0"),
        Err(lince::error::Error::ParseIntError(IntErrorKind::Empty))
    ));
    assert!(matches!(
        parse_proc_maps("1-fffffffffffffffff r--p 0 0:0 0"),
        Err(lince::error::Error::ParseIntError(IntErrorKind::PosOverflow))
    ));
}

#[test]
fn parse_maps_joins_path_words() {
    let maps = parse_proc_maps("a-b r--p 0 0:0 0   x  y\tz").unwrap();
    assert_eq!(maps[0].pathname(), "x y z");
    assert_eq!(maps[0].start(), 0xa);
}
