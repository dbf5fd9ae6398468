use lince::args::{Args, Error, Keys};

fn args(v: &[&str]) -> Args {
    let mut all = vec![Some("prog".to_string())];
    all.extend(v.iter().map(|s| Some(s.to_string())));
    Args::new(all).unwrap()
}

#[test]
fn args_new_rejects_empty_and_non_utf8() {
    assert!(matches!(Args::new(vec![Some("prog".to_string())]), Err(Error::NoneArgument)));
    assert!(matches!(
        Args::new(vec![Some("prog".to_string()), None, Some("x".to_string())]),
        Err(Error::NonUtf8Argument)
    ));
}

#[test]
fn args_contains_removes_flag() {
    let mut a = args(&["-v", "file"]);
    assert!(a.contains(Keys::from(["-h", "-v"])));
    assert!(!a.contains(Keys::from("-v")));
    assert!(!a.contains(Keys::from(["", ""])));
}

#[test]
fn args_index_of_prefers_first_name() {
    let a = args(&["--long", "x", "-s"]);
    assert_eq!(a.index_of(Keys::from(["-s", "--long"])), Some((2, "-s")));
    assert_eq!(a.index_of(Keys::from(["-q", "--long"])), Some((0, "--long")));
    assert_eq!(a.index_of(Keys::from("-q")), None);
}

fn parse_u8(s: &str) -> Result<u8, String> {
    s.parse::<u8>().map_err(|e| e.to_string())
}

#[test]
fn args_new_impl_outcomes() {
    let mut a = args(&["-n", "12", "rest"]);
    assert_eq!(a.new_impl(Keys::from("-n"), parse_u8).unwrap(), Some(12));
    assert_eq!(a.new_impl(Keys::from("-n"), parse_u8).unwrap(), None);
    assert!(a.contains(Keys::from("rest")));

    let mut b = args(&["-n"]);
    assert!(matches!(b.new_impl(Keys::from("-n"), parse_u8), Err(Error::OptionWithoutAValue)));

    let mut c = args(&["-n", "x"]);
    assert!(matches!(
        c.new_impl(Keys::from("-n"), parse_u8),
        Err(Error::OptionValueParsingFailed)
    ));
    assert!(c.contains(Keys::from("x")));
}
