use sear_stone::command::flag_of;
use sear_stone::{Flags, SSData};

fn args(parts: &[&str]) -> Vec<String> {
    parts.iter().map(|s| s.to_string()).collect()
}

#[test]
fn new_selects_nothing() {
    let d = SSData::new();
    assert_eq!(d.flags, None);
    assert!(d.file_args.is_none());
}

#[test]
fn each_flag_has_two_spellings() {
    let table = [
        ("-h", "--help", Flags::Help),
        ("-pa", "--print-all", Flags::PrintAll),
        ("-pr", "--print-random", Flags::PrintRandom),
        ("-s", "--set-meaning", Flags::AddMeaning),
        ("-aw", "--add-word", Flags::AddWord),
        ("-rw", "--remove-word", Flags::RemoveWord),
        ("-t", "--test", Flags::Test),
        ("-r", "--review", Flags::Review),
    ];
    for (short, long, f) in table {
        assert_eq!(flag_of(short), Some(f));
        assert_eq!(flag_of(long), Some(f));
    }
    assert_eq!(flag_of("-x"), None);
    assert_eq!(flag_of(""), None);
    assert_eq!(flag_of("--helpme"), None);
}

#[test]
fn last_flag_wins_and_args_are_trimmed() {
    let d = SSData::from_args(&args(&["ss", "  -h ", "book.txt", "--review\n"]));
    assert_eq!(d.flags, Some(Flags::Review));
    assert!(d.file_args.is_none());
    let d = SSData::from_args(&args(&["ss", " -pa "]));
    assert_eq!(d.flags, Some(Flags::PrintAll));
    let d = SSData::from_args(&args(&["ss", "\u{3000}-t\r\n"]));
    assert_eq!(d.flags, Some(Flags::Test));
}

#[test]
fn without_flags_the_rest_are_files() {
    let d = SSData::from_args(&args(&["ss", "a.txt", "b.txt"]));
    assert_eq!(d.flags, None);
    assert_eq!(d.file_args, Some(args(&["a.txt", "b.txt"])));
    let d = SSData::from_args(&Vec::new());
    assert_eq!(d.file_args, Some(Vec::new()));
}
