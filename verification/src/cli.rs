//! The settings of a run and the rules they must meet.

use vstd::prelude::*;
use vstd::string::*;
use crate::text::same_text;
use crate::collector::Limit;

verus! {

/// The settings of one run.
#[derive(Debug)]
pub struct Cli {
    /// Records end at the null character instead of the line end.
    pub null_separated: bool,
    /// The file to read records from, in place of standard input.
    pub args: Option<String>,
    /// Join all records into a single command line.
    pub join: bool,
    /// Join this many records into each command line.
    pub lines: Option<u32>,
    /// Run this many command lines at a time. Zero and one both ask for
    /// one at a time, with no pool of workers.
    pub parallel: Option<u16>,
    /// Give each command the terminal as its input.
    pub tty: bool,
    /// Ask before each command line is run.
    pub ask: bool,
    /// Show each command line before it is run.
    pub trace: bool,
    /// The text that marks where records are put into the command.
    pub pattern: String,
    /// The command and its arguments.
    pub command: Vec<String>,
}

/// What is wrong with a set of settings.
#[derive(Debug, Clone, Copy, PartialEq, Eq, Structural)]
pub enum Fault {
    JoinWithLines,
    ZeroLines,
    ParallelTty,
    ParallelAsk,
    ParallelJoin,
    NoCommand,
    PatternFirst,
}

impl Fault {
    /// The line shown to the user for this fault.
    pub open spec fn message(&self) -> Seq<char> {
        match self {
            Fault::JoinWithLines => "arbitrary join and join on a certain number of lines may not both be specified"@,
            Fault::ZeroLines => "Lines may not be zero"@,
            Fault::ParallelTty => "parallel jobs may not be interactive"@,
            Fault::ParallelAsk => "parallel jobs may not ask before execution"@,
            Fault::ParallelJoin => "one job may not be parallel"@,
            Fault::NoCommand => "a command must be specified to execute"@,
            Fault::PatternFirst => "a command may not start with the pattern"@,
        }
    }

    /// The line shown to the user for this fault.
    pub fn text(&self) -> (s: &'static str)
        ensures
            s@ == self.message(),
    {
        match self {
            Fault::JoinWithLines => "arbitrary join and join on a certain number of lines may not both be specified",
            Fault::ZeroLines => "Lines may not be zero",
            Fault::ParallelTty => "parallel jobs may not be interactive",
            Fault::ParallelAsk => "parallel jobs may not ask before execution",
            Fault::ParallelJoin => "one job may not be parallel",
            Fault::NoCommand => "a command must be specified to execute",
            Fault::PatternFirst => "a command may not start with the pattern",
        }
    }
}

/// `num_cpus::get`: the number of processors this process may use. The
/// number depends on the machine; the function's documentation gives that
/// it is never zero, and no more is claimed here.
#[verifier::external_body]
fn cpu_count() -> (n: usize)
    ensures
        n >= 1,
{
    num_cpus::get()
}

/// A count cut down to its low sixteen bits.
pub fn low_bits(n: usize) -> (r: u16)
    ensures
        r == n % 0x1_0000,
{
    (n % 0x1_0000) as u16
}

impl Cli {
    /// More than one command line may run at a time: a number above one
    /// was asked for. Zero and one ask for none at a time beyond the first.
    pub open spec fn parallel_spec(&self) -> bool {
        match self.parallel {
            Some(n) => n > 1,
            None => false,
        }
    }

    /// The first rule that the settings break, if they break one.
    pub open spec fn fault(&self) -> Option<Fault> {
        if self.join && self.lines is Some {
            Some(Fault::JoinWithLines)
        } else if self.lines == Some(0u32) {
            Some(Fault::ZeroLines)
        } else if self.parallel_spec() && self.tty {
            Some(Fault::ParallelTty)
        } else if self.parallel_spec() && self.ask {
            Some(Fault::ParallelAsk)
        } else if self.parallel_spec() && self.join {
            Some(Fault::ParallelJoin)
        } else if self.command@.len() == 0 {
            Some(Fault::NoCommand)
        } else if self.command@[0]@ == self.pattern@ {
            Some(Fault::PatternFirst)
        } else {
            None
        }
    }

    /// Whether no number of parallel command lines was asked for and none
    /// of the settings that rule it out is on.
    pub open spec fn wants_default_parallel(&self) -> bool {
        self.parallel is None && !self.ask && !self.tty && !self.join
    }

    /// Whether more than one command line may run at a time.
    pub fn is_parallel(&self) -> (r: bool)
        ensures
            r == self.parallel_spec(),
    {
        match self.parallel {
            Some(n) => n > 1,
            None => false,
        }
    }

    /// The first rule that the settings break, if they break one.
    pub fn check(&self) -> (r: Option<Fault>)
        ensures
            r == self.fault(),
    {
        if self.join && self.lines.is_some() {
            return Some(Fault::JoinWithLines);
        }
        match self.lines {
            Some(n) => {
                if n == 0 {
                    return Some(Fault::ZeroLines);
                }
            },
            None => {},
        }
        if self.is_parallel() {
            if self.tty {
                return Some(Fault::ParallelTty);
            }
            if self.ask {
                return Some(Fault::ParallelAsk);
            }
            if self.join {
                return Some(Fault::ParallelJoin);
            }
        }
        if self.command.len() == 0 {
            return Some(Fault::NoCommand);
        }
        if same_text(self.command[0].as_str(), self.pattern.as_str()) {
            return Some(Fault::PatternFirst);
        }
        None
    }

    /// The line to show for the first rule that the settings break; none
    /// where they break no rule.
    pub fn validation_message(&self) -> (r: Option<&'static str>)
        ensures
            match r {
                Some(msg) => self.fault() is Some && msg@ == self.fault().unwrap().message(),
                None => self.fault() is None,
            },
    {
        match self.check() {
            Some(fault) => Some(fault.text()),
            None => None,
        }
    }

    /// The byte at which one input record ends and the next begins: the
    /// null character where that was asked for, else the line end.
    pub fn delimiter(&self) -> (d: u8)
        ensures
            d == if self.null_separated {
                0u8
            } else {
                10u8
            },
    {
        if self.null_separated {
            0
        } else {
            10
        }
    }

    /// How many records make up one command line: all of them where
    /// joining was asked for, else the number asked for, else as many as the
    /// command has slots. No limit stands where that number is zero.
    pub fn limit(&self, slots: u32) -> (l: Limit)
        ensures
            l.wf(),
            l == if self.join {
                Limit::Unlimited
            } else {
                let n = match self.lines {
                    Some(n) => n,
                    None => slots,
                };
                if n == 0 {
                    Limit::Unlimited
                } else {
                    Limit::Limit(n)
                }
            },
    {
        if self.join {
            return Limit::Unlimited;
        }
        match self.lines {
            Some(n) => Limit::from(n),
            None => Limit::from(slots),
        }
    }

    /// The settings with the number of parallel command lines set to
    /// `cpus`, cut to sixteen bits, where none was asked for and nothing
    /// rules it out; else the settings as they are.
    pub fn with_parallel(self, cpus: usize) -> (r: Cli)
        ensures
            r.parallel == if self.wants_default_parallel() {
                Some((cpus % 0x1_0000) as u16)
            } else {
                self.parallel
            },
            r.null_separated == self.null_separated,
            r.args == self.args,
            r.join == self.join,
            r.lines == self.lines,
            r.tty == self.tty,
            r.ask == self.ask,
            r.trace == self.trace,
            r.pattern == self.pattern,
            r.command == self.command,
    {
        let mut cli = self;
        if cli.parallel.is_none() && !cli.ask && !cli.tty && !cli.join {
            cli.parallel = Some(low_bits(cpus));
        }
        cli
    }

    /// The settings with the number of parallel command lines set to the
    /// number of processors, where none was asked for and nothing rules it
    /// out; else the settings as they are.
    pub fn fill_parallel(self) -> (r: Cli)
        ensures
            self.wants_default_parallel() ==> r.parallel is Some,
            !self.wants_default_parallel() ==> r.parallel == self.parallel,
            r.null_separated == self.null_separated,
            r.args == self.args,
            r.join == self.join,
            r.lines == self.lines,
            r.tty == self.tty,
            r.ask == self.ask,
            r.trace == self.trace,
            r.pattern == self.pattern,
            r.command == self.command,
    {
        if self.parallel.is_none() && !self.ask && !self.tty && !self.join {
            let cpus = cpu_count();
            self.with_parallel(cpus)
        } else {
            self
        }
    }
}

} // verus!
