//! Argument validation shared by the publisher and exchange shells, and the
//! command words each shell offers.

use vstd::prelude::*;
use crate::errors::CliError;

pub mod exchange;
pub mod publisher;

verus! {

/// The texts of a list of strings.
pub open spec fn texts(v: Seq<String>) -> Seq<Seq<char>> {
    v.map_values(|s: String| s@)
}

/// The index of the first empty argument, if any.
pub open spec fn first_empty(args: Seq<Seq<char>>, i: int) -> bool {
    &&& 0 <= i < args.len()
    &&& args[i].len() == 0
    &&& forall|j: int| 0 <= j < i ==> args[j].len() != 0
}

/// The arguments of a shell command, checked: as many as expected, none empty.
#[derive(Debug)]
pub struct ArgsList {
    args: Vec<String>,
}

impl ArgsList {
    /// The arguments held.
    pub closed spec fn args(&self) -> Seq<Seq<char>> {
        texts(self.args@)
    }
}

/// Fails with the position of the first empty argument, if there is one.
fn check_empty_argument(args: &[String]) -> (r: Result<(), CliError>)
    ensures
        match r {
            Ok(()) => forall|j: int| 0 <= j < args@.len() ==> (#[trigger] args@[j])@.len() != 0,
            Err(CliError::EmptyArgument { arg_position }) => first_empty(
                texts(args@),
                arg_position as int,
            ),
            Err(_) => false,
        },
{
    let mut i: usize = 0;
    while i < args.len()
        invariant
            i <= args@.len(),
            forall|j: int| 0 <= j < i ==> (#[trigger] args@[j])@.len() != 0,
        decreases args@.len() - i,
    {
        if args[i].as_str().is_empty() {
            return Err(CliError::EmptyArgument { arg_position: i });
        }
        i = i + 1;
    }
    Ok(())
}

impl ArgsList {
    /// Checks that `args_list` holds exactly `arg_count` arguments and that
    /// none is empty.
    pub fn new(args_list: Vec<String>, arg_count: usize) -> (r: Result<ArgsList, CliError>)
        ensures
            match r {
                Ok(a) => args_list@.len() == arg_count && a.args() == texts(args_list@) && forall|j: int|
                    0 <= j < args_list@.len() ==> (#[trigger] args_list@[j])@.len() != 0,
                Err(CliError::UnexpectedNumberOfArguments { expected, actual }) => args_list@.len()
                    != arg_count && expected == arg_count && actual == args_list@.len(),
                Err(CliError::EmptyArgument { arg_position }) => args_list@.len() == arg_count
                    && first_empty(texts(args_list@), arg_position as int),
            },
    {
        if args_list.len() != arg_count {
            return Err(
                CliError::UnexpectedNumberOfArguments { expected: arg_count, actual: args_list.len() },
            );
        }
        match check_empty_argument(args_list.as_slice()) {
            Ok(()) => Ok(ArgsList { args: args_list }),
            Err(e) => Err(e),
        }
    }
}

/// Each text as an owned string, in order.
pub fn convert_to_string_vec(elements: Vec<&str>) -> (r: Vec<String>)
    ensures
        r@.len() == elements@.len(),
        forall|i: int| 0 <= i < r@.len() ==> (#[trigger] r@[i])@ == elements@[i]@,
{
    let mut out: Vec<String> = Vec::new();
    let mut i: usize = 0;
    while i < elements.len()
        invariant
            i <= elements@.len(),
            out@.len() == i,
            forall|j: int| 0 <= j < i ==> (#[trigger] out@[j])@ == elements@[j]@,
        decreases elements@.len() - i,
    {
        out.push(elements[i].to_owned());
        i = i + 1;
    }
    out
}

} // verus!
