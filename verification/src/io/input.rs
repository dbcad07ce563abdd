//! Selection of expressions from command-line arguments.
//!
//! Reading from standard input is the caller's business: when no arguments
//! are given, these functions answer that standard input should be read.

use vstd::prelude::*;
use vstd::string::StringExecFns;
use crate::eval::names_view;

verus! {

/// Why the arguments could not be turned into expressions.
#[derive(Debug, Clone, PartialEq)]
pub enum InputError {
    /// No arguments were given: the expressions are expected on standard
    /// input.
    StdinRequested,
    /// A different number of expressions was given than the command takes.
    WrongExpressionCount { expected: usize, got: usize },
}

/// The argument words joined with single spaces.
pub open spec fn joined(args: Seq<Seq<char>>) -> Seq<char>
    decreases args.len(),
{
    if args.len() == 0 {
        Seq::empty()
    } else if args.len() == 1 {
        args[0]
    } else {
        joined(args.drop_last()) + " "@ + args.last()
    }
}

/// Turns command-line arguments into the expressions a command works on.
pub struct InputHandler;

impl InputHandler {
    /// Joins the argument words into one expression; `None` asks the caller
    /// to read from standard input instead.
    pub fn get_single_expression(args: Vec<String>) -> (r: Option<String>)
        ensures
            args@.len() == 0 ==> r is None,
            args@.len() > 0 ==> r is Some && r->Some_0@ == joined(names_view(args@)),
    {
        if args.len() == 0 {
            return None;
        }
        let mut s: String = args[0].clone();
        let mut i: usize = 1;
        while i < args.len()
            invariant
                1 <= i <= args@.len(),
                s@ == joined(names_view(args@).take(i as int)),
            decreases args@.len() - i,
        {
            s.append(" ");
            s.append(args[i].as_str());
            proof {
                let t1 = names_view(args@).take(i as int + 1);
                assert(t1.drop_last() =~= names_view(args@).take(i as int));
                assert(t1.last() == names_view(args@)[i as int]);
            }
            i = i + 1;
        }
        proof {
            assert(names_view(args@).take(args@.len() as int) =~= names_view(args@));
        }
        Some(s)
    }

    /// Picks exactly two expressions for an equivalence check; any other
    /// argument count is refused, and no arguments at all ask for standard
    /// input.
    pub fn get_expression_pair(expressions: Vec<String>) -> (r: Result<
        (String, String),
        InputError,
    >)
        ensures
            expressions@.len() == 2 ==> r is Ok && r->Ok_0.0@ == expressions@[0]@ && r->Ok_0.1@
                == expressions@[1]@,
            expressions@.len() == 0 ==> r == Err::<(String, String), InputError>(
                InputError::StdinRequested,
            ),
            expressions@.len() != 2 && expressions@.len() != 0 ==> (r matches Err(
                InputError::WrongExpressionCount { expected, got },
            ) && expected == 2 && got == expressions@.len()),
    {
        if expressions.len() == 2 {
            let a = expressions[0].clone();
            let b = expressions[1].clone();
            Ok((a, b))
        } else if expressions.len() == 0 {
            Err(InputError::StdinRequested)
        } else {
            Err(InputError::WrongExpressionCount { expected: 2, got: expressions.len() })
        }
    }

    /// Hands the given expressions back after checking the expected count;
    /// no arguments at all ask for standard input.
    pub fn get_multiple_expressions(args: Vec<String>, expected_count: Option<usize>) -> (r:
        Result<Vec<String>, InputError>)
        ensures
            args@.len() == 0 ==> r == Err::<Vec<String>, InputError>(InputError::StdinRequested),
            args@.len() > 0 ==> match expected_count {
                Some(c) => {
                    if args@.len() == c {
                        r is Ok && r->Ok_0 == args
                    } else {
                        (r matches Err(InputError::WrongExpressionCount { expected, got })
                            && expected == c && got == args@.len())
                    }
                },
                None => r is Ok && r->Ok_0 == args,
            },
    {
        if args.len() == 0 {
            return Err(InputError::StdinRequested);
        }
        match expected_count {
            Some(count) => {
                if args.len() != count {
                    return Err(
                        InputError::WrongExpressionCount { expected: count, got: args.len() },
                    );
                }
                Ok(args)
            },
            None => Ok(args),
        }
    }
}

} // verus!
