//! Asking another server: the command to send, and how to tell the line
//! that ends its answer. The connection itself is the caller's.

use vstd::prelude::*;
use vstd::string::{StrSliceExecFns, StringSliceAdditionalSpecFns};
use crate::text::{append, LF, SPACE};

verus! {

/// Whether a character is `2` or `5`, the first digits of a success and of
/// a failure.
pub fn is_5or2(a: &char) -> (r: bool)
    ensures
        r == (*a == '2' || *a == '5'),
{
    *a == '2' || *a == '5'
}

/// One of `0` to `9`.
pub open spec fn is_digit(c: char) -> bool {
    '0' <= c <= '9'
}

/// A line ends an answer if it opens with `2` or `5` and its second and
/// fourth characters are digits.
pub open spec fn is_final_status(line: Seq<char>) -> bool {
    &&& line.len() >= 4
    &&& (line[0] == '2' || line[0] == '5')
    &&& is_digit(line[1])
    &&& is_digit(line[3])
}

/// Whether `line` ends the answer of the other server.
pub fn ends_answer(line: &str) -> (r: bool)
    ensures
        r == is_final_status(line@),
{
    if line.unicode_len() < 4 {
        return false;
    }
    let first: char = line.get_char(0);
    let second: char = line.get_char(1);
    let fourth: char = line.get_char(3);
    is_5or2(&first) && '0' <= second && second <= '9' && '0' <= fourth && fourth <= '9'
}

/// `DEFINE database word`, ended by a line feed.
pub open spec fn define_command(database: Seq<u8>, word: Seq<u8>) -> Seq<u8> {
    "DEFINE ".spec_bytes() + database + seq![SPACE] + word + seq![LF]
}

/// The command that asks the other server for `word` in its `database`.
pub fn fallback_command(database: &str, word: &[u8]) -> (r: Vec<u8>)
    ensures
        r@ == define_command(database.spec_bytes(), word@),
{
    let mut out: Vec<u8> = Vec::new();
    append(&mut out, "DEFINE ".as_bytes());
    append(&mut out, database.as_bytes());
    out.push(SPACE);
    append(&mut out, word);
    out.push(LF);
    assert(out@ =~= define_command(database.spec_bytes(), word@));
    out
}

/// What to do next while the servers that a request falls back on are
/// being asked in turn.
#[derive(Clone, Copy, Debug, PartialEq, Eq, Structural)]
pub enum FallbackStep {
    /// Ask the server at this place.
    Ask(usize),
    /// A server has answered; its lines have been passed on, and nothing
    /// more is sent.
    Answered,
    /// No server has answered and none is left: the reply is sent.
    SendReply,
}

/// One of the servers asked so far has passed lines on.
pub open spec fn some_answered(passed_on: Seq<usize>) -> bool {
    exists|i: int| 0 <= i < passed_on.len() && #[trigger] passed_on[i] > 0
}

/// The next step, given how many servers there are and how many lines each
/// of those asked so far has passed on: the first answer ends the asking;
/// without one the next server is asked; after the last the reply is sent.
pub open spec fn next_step(servers: nat, passed_on: Seq<usize>) -> FallbackStep {
    if some_answered(passed_on) {
        FallbackStep::Answered
    } else if passed_on.len() < servers {
        FallbackStep::Ask(passed_on.len() as usize)
    } else {
        FallbackStep::SendReply
    }
}

/// Decides the next step. A server that could not be reached counts as one
/// that passed no line on.
pub fn fallback_step(servers: usize, passed_on: &Vec<usize>) -> (r: FallbackStep)
    ensures
        r == next_step(servers as nat, passed_on@),
{
    let mut i: usize = 0;
    while i < passed_on.len()
        invariant
            i <= passed_on.len(),
            forall|j: int| 0 <= j < i ==> passed_on@[j] == 0,
        decreases passed_on.len() - i,
    {
        if passed_on[i] > 0 {
            return FallbackStep::Answered;
        }
        i += 1;
    }
    if passed_on.len() < servers {
        FallbackStep::Ask(passed_on.len())
    } else {
        FallbackStep::SendReply
    }
}

} // verus!
