//! Running other programs.

use crate::order::views;
use crate::stack::assign::{lossy, lossy_text};
use crate::text::{maybe, texts, trim, trimmed, Text};
use vstd::prelude::*;

verus! {

/// A run of a program and what came of it.
#[verifier::ext_equal]
pub struct Call {
    pub program: Text,
    pub args: Seq<Text>,
    pub repo: Text,
    pub input: Option<Text>,
    pub env: Seq<(Text, Text)>,
    pub reply: Result<Text, Text>,
}

/// The text of what came of a run.
pub open spec fn reply(r: Result<String, String>) -> Result<Text, Text> {
    match r {
        Ok(output) => Ok(output@),
        Err(error) => Err(error@),
    }
}

/// A run of a program, from what it was run with and what came of it.
pub open spec fn call_of(
    program: Text,
    args: Seq<String>,
    repo: Text,
    input: Option<String>,
    env: Seq<(String, String)>,
    r: Result<String, String>,
) -> Call {
    Call {
        program,
        args: texts(args),
        repo,
        input: maybe(input),
        env: views(env),
        reply: reply(r),
    }
}

/// What runs other programs.
pub trait CommandRunner {
    /// Whether a run leads from one state of what runs programs to the next. Each
    /// implementation says this for itself; one that says nothing allows every run.
    open spec fn ran(&self, call: Call, next: &Self) -> bool {
        true
    }

    /// Runs a program in the directory `repo`, with `input` as its standard input
    /// and `env` added to its environment, and gives its standard output, or what
    /// it said when it failed.
    fn run(
        &mut self,
        program: &str,
        args: &Vec<String>,
        repo: &str,
        input: &Option<String>,
        env: &Vec<(String, String)>,
    ) -> (r: Result<String, String>)
        ensures
            old(self).ran(call_of(program@, args@, repo@, *input, env@, r), &*final(self)),
    ;
}

/// What runs other programs, with the runs so far.
pub struct Recorded<R> {
    runner: R,
    calls: Ghost<Seq<Call>>,
}

impl<R: CommandRunner> Recorded<R> {
    /// The runs so far.
    pub closed spec fn history(&self) -> Seq<Call> {
        self.calls@
    }

    /// What runs them.
    pub closed spec fn inner(&self) -> R {
        self.runner
    }

    /// Nothing has been run yet.
    pub fn new(runner: R) -> (r: Self)
        ensures
            r.inner() == runner,
            r.history() == Seq::<Call>::empty(),
    {
        Recorded { runner, calls: Ghost(Seq::empty()) }
    }

    /// What runs them.
    pub fn runner(&self) -> (r: &R)
        ensures
            *r == self.inner(),
    {
        &self.runner
    }

    /// Runs a program, once and with just what is given, and keeps that in mind.
    pub fn run(
        &mut self,
        program: &str,
        args: &Vec<String>,
        repo: &str,
        input: &Option<String>,
        env: &Vec<(String, String)>,
    ) -> (r: Result<String, String>)
        ensures
            final(self).history() == old(self).history().push(
                call_of(program@, args@, repo@, *input, env@, r),
            ),
            old(self).inner().ran(
                call_of(program@, args@, repo@, *input, env@, r),
                &final(self).inner(),
            ),
    {
        let r = self.runner.run(program, args, repo, input, env);
        proof {
            self.calls@ = self.calls@.push(
                call_of(program@, args@, repo@, *input, env@, r),
            );
        }
        r
    }
}

/// What a run gives: its output where it succeeded, else what it said of its failure,
/// on its standard error or, where that is empty, on its standard output.
pub open spec fn outcome(success: bool, stdout: Text, stderr: Text) -> Result<Text, Text> {
    if success {
        Ok(trim(stdout))
    } else if trim(stderr).len() == 0 {
        Err(trim(stdout))
    } else {
        Err(trim(stderr))
    }
}

/// What a run that has ended gives, from the texts that it wrote.
pub fn finished(success: bool, stdout: &str, stderr: &str) -> (r: Result<String, String>)
    ensures
        reply(r) == outcome(success, stdout@, stderr@),
{
    let output = trimmed(stdout);
    if success {
        return Ok(output);
    }
    let error = trimmed(stderr);
    if error.as_str().is_empty() {
        Err(output)
    } else {
        Err(error)
    }
}

/// What a run that has ended gives, from the bytes that it wrote.
pub fn completed(success: bool, stdout: &Vec<u8>, stderr: &Vec<u8>) -> (r: Result<String, String>)
    ensures
        reply(r) == outcome(success, lossy_text(stdout@), lossy_text(stderr@)),
{
    finished(success, lossy(stdout).as_str(), lossy(stderr).as_str())
}

} // verus!
