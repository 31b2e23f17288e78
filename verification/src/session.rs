//! The per-connection state machine.
//!
//! A session greets, then answers one command line after another until a
//! reply ends it or the input does. It never reads or writes: each event
//! returns the lines to send, in order, and moves the session to its next
//! phase. Processing a line and closing are passed through within one event.

use vstd::prelude::*;
use crate::protocol::{
    farewell, greeting, parse, parse_request, reply_to, Reply, Request, RequestView,
};
use crate::registry::Dictionaries;
use crate::text::rows;

verus! {

/// Where a session stands between two events.
#[derive(Clone, Copy, Debug, PartialEq, Eq, Structural)]
pub enum Phase {
    /// Accepted, not greeted yet.
    Greet,
    /// Waiting for a command line.
    Idle,
    /// Over: the farewell has been handed out, or there was nobody to tell.
    Closed,
}

/// The greeting, once: from `Greet` to `Idle`.
pub open spec fn on_open(phase: Phase) -> (Phase, Seq<Seq<u8>>) {
    if phase == Phase::Greet {
        (Phase::Idle, seq![greeting()])
    } else {
        (phase, Seq::empty())
    }
}

/// A command line in `Idle`: its reply, and the farewell behind it if the
/// reply ends the session. In any other phase a line is ignored.
pub open spec fn on_line(phase: Phase, dicts: &Dictionaries, line: Seq<u8>) -> (
    Phase,
    Seq<Seq<u8>>,
) {
    if phase == Phase::Idle {
        let (lines, close) = reply_to(dicts, parse(line));
        if close {
            (Phase::Closed, lines.push(farewell()))
        } else {
            (Phase::Idle, lines)
        }
    } else {
        (phase, Seq::empty())
    }
}

/// End of input: the farewell if the session was in `Idle`.
pub open spec fn on_end(phase: Phase) -> (Phase, Seq<Seq<u8>>) {
    if phase == Phase::Idle {
        (Phase::Closed, seq![farewell()])
    } else {
        (Phase::Closed, Seq::empty())
    }
}

/// The client identity after a line: what `CLIENT` gave, in `Idle`; else
/// what it was.
pub open spec fn client_after(phase: Phase, client: Seq<u8>, line: Seq<u8>) -> Seq<u8> {
    if phase == Phase::Idle {
        match parse(line) {
            RequestView::Client { identity } => identity,
            _ => client,
        }
    } else {
        client
    }
}

/// The state of one connection.
pub struct Session {
    phase: Phase,
    client: Vec<u8>,
}

impl Session {
    pub closed spec fn spec_phase(&self) -> Phase {
        self.phase
    }

    /// What the client last said of itself; informational.
    pub closed spec fn spec_client(&self) -> Seq<u8> {
        self.client@
    }

    pub fn new() -> (r: Session)
        ensures
            r.spec_phase() == Phase::Greet,
            r.spec_client() == Seq::<u8>::empty(),
    {
        Session { phase: Phase::Greet, client: Vec::new() }
    }

    pub fn phase(&self) -> (r: Phase)
        ensures
            r == self.spec_phase(),
    {
        self.phase
    }

    pub fn client(&self) -> (r: &Vec<u8>)
        ensures
            r@ == self.spec_client(),
    {
        &self.client
    }

    /// The connection is open: what to send first.
    pub fn open(&mut self) -> (r: Vec<Vec<u8>>)
        ensures
            (final(self).spec_phase(), rows(r@)) == on_open(old(self).spec_phase()),
            final(self).spec_client() == old(self).spec_client(),
    {
        let mut out: Vec<Vec<u8>> = Vec::new();
        if self.phase == Phase::Greet {
            out.push(crate::protocol::greeting_line());
            self.phase = Phase::Idle;
            assert(rows(out@) =~= seq![greeting()]);
        } else {
            assert(rows(out@) =~= Seq::empty());
        }
        out
    }

    /// A line has arrived: what to send back.
    pub fn receive(&mut self, dicts: &Dictionaries, line: &[u8]) -> (r: Vec<Vec<u8>>)
        requires
            dicts.wf(),
        ensures
            (final(self).spec_phase(), rows(r@)) == on_line(old(self).spec_phase(), dicts, line@),
            final(self).spec_client() == client_after(
                old(self).spec_phase(),
                old(self).spec_client(),
                line@,
            ),
    {
        if self.phase != Phase::Idle {
            let out: Vec<Vec<u8>> = Vec::new();
            assert(rows(out@) =~= Seq::empty());
            return out;
        }
        let request: Request = parse_request(line);
        let reply: Reply = crate::protocol::answer(dicts, &request);
        match request {
            Request::Client { identity } => {
                self.client = identity;
            },
            _ => {},
        }
        let mut out: Vec<Vec<u8>> = reply.lines;
        if reply.close {
            let ghost before = rows(out@);
            out.push(crate::protocol::farewell_line());
            self.phase = Phase::Closed;
            assert(rows(out@) =~= before.push(farewell()));
        }
        out
    }

    /// The input has ended: what to send last.
    pub fn end(&mut self) -> (r: Vec<Vec<u8>>)
        ensures
            (final(self).spec_phase(), rows(r@)) == on_end(old(self).spec_phase()),
            final(self).spec_client() == old(self).spec_client(),
    {
        let mut out: Vec<Vec<u8>> = Vec::new();
        if self.phase == Phase::Idle {
            out.push(crate::protocol::farewell_line());
            assert(rows(out@) =~= seq![farewell()]);
        } else {
            assert(rows(out@) =~= Seq::empty());
        }
        self.phase = Phase::Closed;
        out
    }
}

} // verus!
