use vstd::prelude::*;
use vstd::utf8::{decode_utf8, valid_utf8};
use crate::desc::{CommandDesc, CommandDescView};

verus! {

/// Mathematical value of an `Invocation`.
#[verifier::ext_equal]
pub struct InvocationView {
    pub command: CommandDescView,
    pub stdout: Seq<u8>,
    pub stderr: Seq<u8>,
    pub status: i32,
    pub runtime: u64,
}

/// Captured result of one subprocess execution: the originating descriptor
/// (kept for collision checking), the captured output and error bytes, the
/// exit status, and the wall-clock runtime in nanoseconds.
#[derive(Debug, PartialEq, Eq)]
pub struct Invocation {
    pub command: CommandDesc,
    pub stdout: Vec<u8>,
    pub stderr: Vec<u8>,
    pub status: i32,
    pub runtime: u64,
}

impl View for Invocation {
    type V = InvocationView;

    open spec fn view(&self) -> InvocationView {
        InvocationView {
            command: self.command@,
            stdout: self.stdout@,
            stderr: self.stderr@,
            status: self.status,
            runtime: self.runtime,
        }
    }
}

/// Clones a byte vector, element for element.
#[verifier::loop_isolation(false)]
pub(crate) fn clone_bytes(v: &Vec<u8>) -> (r: Vec<u8>)
    ensures
        r@ == v@,
{
    let mut r: Vec<u8> = Vec::new();
    for i in 0..v.len()
        invariant
            r@ =~= v@.take(i as int),
    {
        r.push(v[i]);
    }
    proof {
        assert(v@.take(v.len() as int) =~= v@);
    }
    r
}

/// Relies on String::from_utf8: returns the decoded string exactly when the
/// bytes are valid UTF-8, and nothing otherwise.
#[verifier::external_body]
fn utf8_string(v: &Vec<u8>) -> (r: Option<String>)
    ensures
        r is Some <==> valid_utf8(v@),
        r matches Some(s) ==> s@ == decode_utf8(v@),
{
    String::from_utf8(v.clone()).ok()
}

impl Invocation {
    /// Assembles a record from its parts.
    pub fn new(
        command: CommandDesc,
        stdout: Vec<u8>,
        stderr: Vec<u8>,
        status: i32,
        runtime: u64,
    ) -> (r: Invocation)
        ensures
            r@.command == command@,
            r@.stdout == stdout@,
            r@.stderr == stderr@,
            r@.status == status,
            r@.runtime == runtime,
    {
        Invocation { command, stdout, stderr, status, runtime }
    }

    /// The descriptor this record was captured for.
    pub fn command(&self) -> (r: &CommandDesc)
        ensures
            r@ == self@.command,
    {
        &self.command
    }

    /// A copy of this record, field for field.
    pub fn clone_record(&self) -> (r: Invocation)
        ensures
            r@ == self@,
    {
        let r = Invocation {
            command: self.command.clone_desc(),
            stdout: clone_bytes(&self.stdout),
            stderr: clone_bytes(&self.stderr),
            status: self.status,
            runtime: self.runtime,
        };
        proof {
            assert(r@ =~= self@);
        }
        r
    }

    /// The captured standard output as text; the caller asserts that it is
    /// valid UTF-8.
    pub fn stdout_utf8(&self) -> (r: String)
        requires
            valid_utf8(self@.stdout),
        ensures
            r@ == decode_utf8(self@.stdout),
    {
        match utf8_string(&self.stdout) {
            Some(s) => s,
            None => {
                proof {
                    assert(false);
                }
                String::new()
            },
        }
    }

    /// The captured standard error as text; the caller asserts that it is
    /// valid UTF-8.
    pub fn stderr_utf8(&self) -> (r: String)
        requires
            valid_utf8(self@.stderr),
        ensures
            r@ == decode_utf8(self@.stderr),
    {
        match utf8_string(&self.stderr) {
            Some(s) => s,
            None => {
                proof {
                    assert(false);
                }
                String::new()
            },
        }
    }

    /// The captured standard output as text, or nothing when it is not
    /// valid UTF-8.
    pub fn try_stdout_utf8(&self) -> (r: Option<String>)
        ensures
            match r {
                Some(s) => valid_utf8(self@.stdout) && s@ == decode_utf8(self@.stdout),
                None => !valid_utf8(self@.stdout),
            },
    {
        match utf8_string(&self.stdout) {
            Some(_) => Some(self.stdout_utf8()),
            None => None,
        }
    }

    /// The captured standard error as text, or nothing when it is not
    /// valid UTF-8.
    pub fn try_stderr_utf8(&self) -> (r: Option<String>)
        ensures
            match r {
                Some(s) => valid_utf8(self@.stderr) && s@ == decode_utf8(self@.stderr),
                None => !valid_utf8(self@.stderr),
            },
    {
        match utf8_string(&self.stderr) {
            Some(_) => Some(self.stderr_utf8()),
            None => None,
        }
    }
}

} // verus!
