//! What the statistics program takes from its command line and its data
//! directory: the number of workers and the dump files.
use vstd::prelude::*;
use crate::text::{contains_seq, parse_usize, spec_parse_usize, string_contains};

verus! {

/// Why the number of threads could not be taken from the command line.
#[derive(Debug, Clone, Copy, PartialEq, Eq, Structural)]
pub enum ThreadsArgError {
    /// No argument after the program name.
    MissingArgument,
    /// The argument is not a number of threads.
    InvalidNumber,
}

/// What the first argument after the program name (`args[0]`) says of the
/// number of threads: the number, or why there is none.
pub fn threads_argument(args: &Vec<String>) -> (r: Result<usize, ThreadsArgError>)
    ensures
        args.len() < 2 ==> r == Err::<usize, ThreadsArgError>(ThreadsArgError::MissingArgument),
        args.len() >= 2 ==> match spec_parse_usize(args@[1]@) {
            Some(n) => r == Ok::<usize, ThreadsArgError>(n),
            None => r == Err::<usize, ThreadsArgError>(ThreadsArgError::InvalidNumber),
        },
{
    if args.len() < 2 {
        return Err(ThreadsArgError::MissingArgument);
    }
    match parse_usize(args[1].as_str()) {
        Some(n) => Ok(n),
        None => Err(ThreadsArgError::InvalidNumber),
    }
}

/// The number of threads: the first argument after the program name, or 1
/// when it is missing or is not a number.
pub fn get_number_threads(args: &Vec<String>) -> (n: usize)
    ensures
        args.len() < 2 ==> n == 1,
        args.len() >= 2 ==> n == match spec_parse_usize(args@[1]@) {
            Some(v) => v,
            None => 1,
        },
{
    match threads_argument(args) {
        Ok(n) => n,
        Err(_) => 1,
    }
}

/// The pattern that marks a dump file.
pub open spec fn jsonl_mark() -> Seq<char> {
    seq!['.', 'j', 's', 'o', 'n', 'l']
}

/// The message returned when no dump file was found.
pub open spec fn no_files_message() -> Seq<char> {
    "[ERROR]: There's no files in directory"@
}

/// The paths among `file_names` that name a dump file, in order: those that
/// contain ".jsonl".
pub open spec fn jsonl_paths(file_names: Seq<Seq<char>>) -> Seq<Seq<char>> {
    file_names.filter(|f: Seq<char>| contains_seq(f, jsonl_mark()))
}

/// Keeps the paths that contain ".jsonl", in order; an error when there is
/// none.
pub fn get_vector_of_path_file(file_names: Vec<String>) -> (r: Result<Vec<String>, String>)
    ensures
        match r {
            Ok(paths) => {
                &&& paths@.map_values(|p: String| p@) == jsonl_paths(
                    file_names@.map_values(|p: String| p@),
                )
                &&& paths.len() > 0
            },
            Err(e) => {
                &&& e@ == no_files_message()
                &&& jsonl_paths(file_names@.map_values(|p: String| p@)).len() == 0
            },
        },
{
    let ghost names = file_names@.map_values(|p: String| p@);
    let mut paths_files: Vec<String> = Vec::new();
    let mut rest = file_names;
    let ghost mut t: int = 0;
    proof {
        assert(names.take(0) =~= Seq::<Seq<char>>::empty());
        assert(rest@ =~= file_names@.skip(0));
        reveal_with_fuel(Seq::filter, 1);
    }
    while rest.len() > 0
        invariant
            names == file_names@.map_values(|p: String| p@),
            0 <= t <= file_names.len(),
            rest@ == file_names@.skip(t),
            paths_files@.map_values(|p: String| p@) == jsonl_paths(names.take(t)),
        decreases rest.len(),
    {
        let file_name = rest.remove(0);
        let ghost prev = paths_files@;
        let mark = ".jsonl";
        proof {
            reveal_strlit(".jsonl");
            assert(mark@ =~= jsonl_mark());
            assert(file_name == file_names@[t]);
            assert(names.take(t + 1).drop_last() =~= names.take(t));
            assert(names.take(t + 1).last() == file_name@);
            reveal_with_fuel(Seq::filter, 1);
        }
        if string_contains(&file_name, mark) {
            paths_files.push(file_name);
            proof {
                assert(paths_files@.map_values(|p: String| p@) =~= prev.map_values(
                    |p: String| p@,
                ).push(file_name@));
            }
        }
        proof {
            assert(rest@ =~= file_names@.skip(t + 1));
            t = t + 1;
        }
    }
    proof {
        assert(names.take(t) =~= names);
    }
    if paths_files.len() == 0 {
        let msg = "[ERROR]: There's no files in directory";
        Err(msg.to_owned())
    } else {
        Ok(paths_files)
    }
}

} // verus!
