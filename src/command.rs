//! Choosing the command from the command line.

use vstd::prelude::*;
use crate::order::compare_keys;
use crate::segmenter::texts_of;
use crate::text::{trim, trimmed};

verus! {

/// The commands besides reading files, which runs when no flag is given.
#[derive(Clone, Copy, PartialEq, Eq, Debug, Structural)]
pub enum Flags {
    Help,
    PrintAll,
    PrintRandom,
    AddMeaning,
    AddWord,
    RemoveWord,
    Test,
    Review,
}

/// The command that one argument selects, once trimmed, if it is a flag.
pub open spec fn flag_of_text(a: Seq<char>) -> Option<Flags> {
    if a == "-h"@ || a == "--help"@ {
        Some(Flags::Help)
    } else if a == "-pa"@ || a == "--print-all"@ {
        Some(Flags::PrintAll)
    } else if a == "-pr"@ || a == "--print-random"@ {
        Some(Flags::PrintRandom)
    } else if a == "-s"@ || a == "--set-meaning"@ {
        Some(Flags::AddMeaning)
    } else if a == "-aw"@ || a == "--add-word"@ {
        Some(Flags::AddWord)
    } else if a == "-rw"@ || a == "--remove-word"@ {
        Some(Flags::RemoveWord)
    } else if a == "-t"@ || a == "--test"@ {
        Some(Flags::Test)
    } else if a == "-r"@ || a == "--review"@ {
        Some(Flags::Review)
    } else {
        None
    }
}

/// The command selected by the last argument that is a flag, if any.
pub open spec fn last_flag(args: Seq<Seq<char>>) -> Option<Flags>
    decreases args.len(),
{
    if args.len() == 0 {
        None
    } else {
        match flag_of_text(trimmed(args.last())) {
            Some(f) => Some(f),
            None => last_flag(args.drop_last()),
        }
    }
}

fn same_text(a: &str, b: &str) -> (r: bool)
    ensures
        r == (a@ == b@),
{
    match compare_keys(a, b) {
        std::cmp::Ordering::Equal => true,
        _ => false,
    }
}

/// The command that a trimmed argument selects, if it is a flag.
pub fn flag_of(a: &str) -> (r: Option<Flags>)
    ensures
        r == flag_of_text(a@),
{
    if same_text(a, "-h") || same_text(a, "--help") {
        Some(Flags::Help)
    } else if same_text(a, "-pa") || same_text(a, "--print-all") {
        Some(Flags::PrintAll)
    } else if same_text(a, "-pr") || same_text(a, "--print-random") {
        Some(Flags::PrintRandom)
    } else if same_text(a, "-s") || same_text(a, "--set-meaning") {
        Some(Flags::AddMeaning)
    } else if same_text(a, "-aw") || same_text(a, "--add-word") {
        Some(Flags::AddWord)
    } else if same_text(a, "-rw") || same_text(a, "--remove-word") {
        Some(Flags::RemoveWord)
    } else if same_text(a, "-t") || same_text(a, "--test") {
        Some(Flags::Test)
    } else if same_text(a, "-r") || same_text(a, "--review") {
        Some(Flags::Review)
    } else {
        None
    }
}

/// The command chosen on the command line, and the files to read when the
/// command is to read files.
pub struct SSData {
    pub flags: Option<Flags>,
    pub file_args: Option<Vec<String>>,
}

impl SSData {
    /// No command chosen and no files.
    pub fn new() -> (d: SSData)
        ensures
            d.flags is None,
            d.file_args is None,
    {
        SSData { flags: None, file_args: None }
    }

    /// Reads a command line whose first argument is the program. The last
    /// argument that is a flag, once trimmed, selects the command; with no
    /// flag, every argument after the first names a file to read.
    pub fn from_args(args: &Vec<String>) -> (d: SSData)
        ensures
            d.flags == last_flag(texts_of(args@)),
            d.flags is Some ==> d.file_args is None,
            d.flags is None ==> (d.file_args matches Some(f) && texts_of(f@) == if args@.len() == 0 {
                Seq::empty()
            } else {
                texts_of(args@).skip(1)
            }),
    {
        let mut d = SSData::new();
        let mut i: usize = 0;
        while i < args.len()
            invariant
                i <= args.len(),
                d.flags == last_flag(texts_of(args@).take(i as int)),
                d.file_args is None,
            decreases args.len() - i,
        {
            assert(texts_of(args@).take(i + 1).drop_last() =~= texts_of(args@).take(i as int));
            match flag_of(trim(args[i].as_str())) {
                Some(f) => {
                    d.flags = Some(f);
                },
                None => {},
            }
            i = i + 1;
        }
        assert(texts_of(args@).take(i as int) =~= texts_of(args@));
        if d.flags.is_none() {
            let mut files: Vec<String> = Vec::new();
            if args.len() > 0 {
                let mut j: usize = 1;
                assert(texts_of(files@) =~= texts_of(args@).subrange(1, 1));
                while j < args.len()
                    invariant
                        1 <= j <= args.len(),
                        files@.len() == j - 1,
                        texts_of(files@) == texts_of(args@).subrange(1, j as int),
                    decreases args.len() - j,
                {
                    let ghost before = files@;
                    files.push(args[j].clone());
                    assert(files@ == before.push(args@[j as int]));
                    assert forall|k: int| 0 <= k < files@.len() implies texts_of(files@)[k] == texts_of(args@).subrange(1, j + 1)[k] by {
                        if k < before.len() {
                            assert(texts_of(before)[k] == texts_of(args@).subrange(1, j as int)[k]);
                            assert(files@[k] == before[k]);
                        } else {
                            assert(files@[k] == args@[j as int]);
                        }
                    }
                    assert(texts_of(files@) =~= texts_of(args@).subrange(1, j + 1));
                    j = j + 1;
                }
                assert(texts_of(files@) =~= texts_of(args@).skip(1));
            } else {
                assert(texts_of(files@) =~= Seq::<Seq<char>>::empty());
            }
            d.file_args = Some(files);
        }
        d
    }
}

} // verus!
