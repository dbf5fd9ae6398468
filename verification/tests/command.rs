use lince::command::{
    i32_to_le_bytes, parse_memscan_command, parse_prompt_command, parse_scan_command,
    prompt_words, CommandError, MemscanCommand, PromptCommand, ScanCommand,
};
use lince::text::{parse_i32, IntErrorKind};

fn w(line: &str) -> Vec<String> {
    prompt_words(line)
}

#[test]
fn prompt_words_drops_newlines_then_splits() {
    assert_eq!(w("find  int 5\n"), vec!["find", "int", "5"]);
    assert_eq!(w("a\nb c"), vec!["ab", "c"]);
    assert!(w("   \n").is_empty());
}

#[test]
fn parse_i32_like_std() {
    assert_eq!(parse_i32("-2147483648"), Ok(i32::MIN));
    assert_eq!(parse_i32("+17"), Ok(17));
    assert_eq!(parse_i32("-"), Err(IntErrorKind::InvalidDigit));
    assert_eq!(parse_i32(""), Err(IntErrorKind::Empty));
    assert_eq!(parse_i32("2147483648"), Err(IntErrorKind::PosOverflow));
    assert_eq!(parse_i32("-2147483649"), Err(IntErrorKind::NegOverflow));
    assert_eq!(parse_i32("-+1"), Err(IntErrorKind::InvalidDigit));
    assert_eq!(i32_to_le_bytes(-2), (-2i32).to_le_bytes().to_vec());
}

#[test]
fn memscan_commands() {
    assert_eq!(parse_memscan_command(&w("")), Ok(MemscanCommand::Empty));
    assert_eq!(parse_memscan_command(&w("find")), Ok(MemscanCommand::MissingArgs));
    assert_eq!(parse_memscan_command(&w("find int 42")), Ok(MemscanCommand::FindInt(42)));
    assert_eq!(parse_memscan_command(&w("find str abc")), Ok(MemscanCommand::FindStr));
    assert_eq!(parse_memscan_command(&w("find int")), Err(CommandError::Malformed));
    assert_eq!(parse_memscan_command(&w("find hex 1")), Ok(MemscanCommand::Ignore));
    assert_eq!(
        parse_memscan_command(&w("get 0x10 4")),
        Ok(MemscanCommand::Get { addr: 0x10, size: 4 })
    );
    assert_eq!(
        parse_memscan_command(&w("get 0x10 four")),
        Err(CommandError::BadNumber(IntErrorKind::InvalidDigit))
    );
    assert_eq!(parse_memscan_command(&w("get zz 4")), Err(CommandError::Malformed));
    assert_eq!(
        parse_memscan_command(&w("set ff -1")),
        Ok(MemscanCommand::SetValue { addr: 0xff, value: -1 })
    );
    assert_eq!(
        parse_memscan_command(&w("lock 0x8 3")),
        Ok(MemscanCommand::Lock { addr: 8, value: 3 })
    );
    assert_eq!(parse_memscan_command(&w("lock 0x8")), Err(CommandError::Malformed));
    assert_eq!(parse_memscan_command(&w("quit")), Ok(MemscanCommand::Exit));
    assert_eq!(parse_memscan_command(&w("<")), Ok(MemscanCommand::Less));
    assert_eq!(parse_memscan_command(&w("bogus")), Ok(MemscanCommand::Ignore));
}

#[test]
fn scan_commands() {
    assert_eq!(parse_scan_command(&w("f 7")), Ok(ScanCommand::Find(7)));
    assert_eq!(
        parse_scan_command(&w("f x")),
        Err(CommandError::BadNumber(IntErrorKind::InvalidDigit))
    );
    assert_eq!(parse_scan_command(&w("f")), Err(CommandError::Malformed));
    assert_eq!(
        parse_scan_command(&w("w 0x20 5")),
        Ok(ScanCommand::Write { addr: 0x20, value: 5 })
    );
    assert_eq!(parse_scan_command(&w("r 20 8")), Ok(ScanCommand::Read { addr: 0x20, size: 8 }));
    assert_eq!(parse_scan_command(&w("lock 1 2")), Ok(ScanCommand::Lock { addr: 1, value: 2 }));
    assert_eq!(parse_scan_command(&w("inj /x.so")), Ok(ScanCommand::Inject));
    assert_eq!(parse_scan_command(&w("p")), Ok(ScanCommand::Print));
}

#[test]
fn prompt_commands() {
    assert_eq!(parse_prompt_command(&w("find 3")), Ok(PromptCommand::Find(3)));
    assert_eq!(parse_prompt_command(&w("re -3")), Ok(PromptCommand::Refind(-3)));
    assert_eq!(parse_prompt_command(&w("re")), Err(CommandError::Malformed));
    assert_eq!(
        parse_prompt_command(&w("w 0x10 9")),
        Ok(PromptCommand::Write { addr: 0x10, value: 9 })
    );
    assert_eq!(parse_prompt_command(&w("r 0x10")), Ok(PromptCommand::Read { addr: 0x10 }));
    assert_eq!(parse_prompt_command(&w("len")), Ok(PromptCommand::Len));
    assert_eq!(parse_prompt_command(&w("q")), Ok(PromptCommand::Quit));
}
