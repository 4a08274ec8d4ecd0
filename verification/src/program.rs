//! Starting the program again: its arguments, and whether it is installed.

use crate::text::{copy_texts, texts};
use vstd::prelude::*;
use vstd::string::StringSliceAdditionalSpecFns;

verus! {

/// Which program is started.
#[derive(Debug, Clone, Copy, PartialEq, Eq, Structural)]
pub enum ProgramName {
    Carbon,
}

/// A program that is to be started, with its arguments.
#[derive(Debug)]
pub struct Program {
    pub args: Vec<String>,
}

/// Arguments without the empty ones.
pub open spec fn given(args: Seq<Seq<char>>) -> Seq<Seq<char>>
    decreases args.len(),
{
    if args.len() == 0 {
        Seq::empty()
    } else if args.last().len() == 0 {
        given(args.drop_last())
    } else {
        given(args.drop_last()).push(args.last())
    }
}

impl Program {
    pub fn new(program: ProgramName) -> (made: Program)
        ensures
            texts(made.args@) == Seq::<Seq<char>>::empty(),
    {
        let made: Program = Program { args: Vec::new() };
        proof {
            assert(texts(made.args@) =~= Seq::empty());
        }
        made
    }

    /// Adds an argument, unless it is empty.
    pub fn arg(&mut self, arg: String) -> (program: &mut Program)
        ensures
            texts(program.args@) == (if arg@.len() == 0 {
                texts(old(self).args@)
            } else {
                texts(old(self).args@).push(arg@)
            }),
            *final(self) == *final(program),
    {
        let ghost before = texts(self.args@);
        if arg.as_str().unicode_len() > 0 {
            self.args.push(arg);
            proof {
                assert(texts(self.args@) =~= before.push(arg@));
            }
        }
        self
    }

    /// Adds arguments, without the empty ones.
    pub fn args(&mut self, args: &Vec<String>) -> (program: &mut Program)
        ensures
            texts(program.args@) == texts(old(self).args@) + given(texts(args@)),
            *final(self) == *final(program),
    {
        let ghost before = texts(self.args@);
        let ghost all = texts(args@);
        let mut at: usize = 0;
        proof {
            assert(all.take(0) =~= Seq::empty());
            assert(before + given(all.take(0)) =~= before);
        }
        while at < args.len()
            invariant
                at <= args@.len(),
                all == texts(args@),
                texts(self.args@) == before + given(all.take(at as int)),
            decreases args@.len() - at,
        {
            let ghost now = texts(self.args@);
            proof {
                assert(all.take(at + 1).drop_last() =~= all.take(at as int));
                assert(all.take(at + 1).last() == args@[at as int]@);
            }
            if args[at].as_str().unicode_len() > 0 {
                self.args.push(args[at].clone());
                proof {
                    assert(texts(self.args@) =~= now.push(args@[at as int]@));
                    assert(texts(self.args@) =~= before + given(all.take(at + 1)));
                }
            }
            at = at + 1;
        }
        proof {
            assert(all.take(args@.len() as int) =~= all);
        }
        self
    }

    /// The command line of the started program: its arguments, and the mark that it
    /// was started.
    pub fn command_line(&self) -> (line: Vec<String>)
        ensures
            texts(line@) == texts(self.args@).push("--carbon-spawn"@),
    {
        let mut line: Vec<String> = copy_texts(&self.args);
        let ghost before = texts(line@);
        line.push("--carbon-spawn".to_owned());
        proof {
            assert(texts(line@) =~= before.push("--carbon-spawn"@));
        }
        line
    }
}

/// Installation is owned by the release scripts: running a development binary never
/// copies itself anywhere, so there is nothing that could be wrong with it.
pub fn verify(is_managed: bool) -> (result: Result<(), String>)
    ensures
        result is Ok,
{
    Ok(())
}

} // verus!
