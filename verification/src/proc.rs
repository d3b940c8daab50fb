//! How command lines are run: the strategy that the settings select, the
//! queue shared by parallel workers, and the question before each run.

pub mod par;
pub mod trace;

use vstd::prelude::*;
use crate::cli::Cli;
use crate::invoker::preview::Preview;

verus! {

/// What every strategy offers: to take one command line, and to end the
/// run when no more will come. What taking a command line does is left to
/// the strategy: it starts a process or hands the line to a worker.
pub trait Process: Sized {
    fn process(&self, preview: &Preview);

    fn finalize(self);
}

/// The strategy that runs one command line after another and waits for
/// each. It holds nothing.
#[derive(Debug, Clone, Copy, PartialEq, Eq, Structural)]
pub struct Run;

/// The strategy by which command lines are run.
#[derive(Debug, Clone, Copy, PartialEq, Eq, Structural)]
pub enum URun {
    /// One after another, each with the terminal as its input.
    Inter,
    /// One after another, each with empty input.
    Base(Run),
    /// By this many workers that share one queue.
    Parallel(u16),
}

/// What stands before each run of a command line, around a strategy.
#[derive(Debug, PartialEq, Eq)]
pub enum Log<Next> {
    /// The command line is shown first.
    Trace(Next),
    /// The user is asked first, and the command line runs only on a yes.
    Ask(Next),
    /// Nothing.
    Nop(Next),
}

impl<Next> Log<Next> {
    /// The strategy that this stands around.
    pub fn inner(&self) -> (next: &Next)
        ensures
            *next == match *self {
                Log::Trace(n) => n,
                Log::Ask(n) => n,
                Log::Nop(n) => n,
            },
    {
        match self {
            Log::Trace(n) => n,
            Log::Ask(n) => n,
            Log::Nop(n) => n,
        }
    }
}

/// The code under which the end of a command is reported: the low eight
/// bits of the code it left with, and 15 where it left with none, as one
/// that a signal ended.
pub fn exit_code(code: Option<i32>) -> (r: u8)
    ensures
        r == match code {
            Some(c) => c as int % 256,
            None => 15,
        },
{
    match code {
        Some(c) => {
            let low: i32 = c & 0xff;
            proof {
                assert(0 <= c & 0xff < 256 && (c & 0xff) as int == c as int % 256) by (bit_vector);
            }
            low as u8
        },
        None => 15,
    }
}

/// The strategy that the settings ask for: a pool of workers where more
/// than one command line may run at a time, with as many workers as were
/// asked for; else the terminal where it is asked for, else the plain one.
/// A number of zero or one asks for no pool, so no pool is ever without a
/// worker.
pub open spec fn strategy(cli: &Cli) -> URun {
    if cli.parallel_spec() {
        URun::Parallel(cli.parallel.unwrap())
    } else if cli.tty {
        URun::Inter
    } else {
        URun::Base(Run)
    }
}

/// The strategy that the settings ask for and what stands before each
/// run: asking comes before showing, and showing before nothing.
pub fn process(cli: &Cli) -> (plan: Log<URun>)
    ensures
        plan == if cli.ask {
            Log::Ask(strategy(cli))
        } else if cli.trace {
            Log::Trace(strategy(cli))
        } else {
            Log::Nop(strategy(cli))
        },
{
    let run = match cli.parallel {
        Some(p) if p > 1 => URun::Parallel(p),
        _ => if cli.tty {
            URun::Inter
        } else {
            URun::Base(Run)
        },
    };
    if cli.ask {
        Log::Ask(run)
    } else if cli.trace {
        Log::Trace(run)
    } else {
        Log::Nop(run)
    }
}

} // verus!
