//! The verifying listener's decisions: what a received frame means for the
//! ledger and for the connection it came on.
use vstd::prelude::*;
use crate::codec::{decode_payload, parse_lines};
use crate::framing::{be_u32_value, split_frame, FrameSplit, HEADER_LEN};
use crate::ledger::{is_violation_for, run_lines, Ledger, LedgerModel, Violation};

verus! {

/// What a received frame body leads to.
pub enum FrameVerdict {
    /// Every line of the payload matched; the connection goes on.
    Verified { lines: usize },
    /// The body is not a payload: the connection is closed, nothing checked.
    Malformed,
    /// A line of the payload broke the ledger's expectations: a hard failure.
    Violated { line: usize, violation: Violation },
}

/// How a connection ended.
pub enum ConnectionEnd {
    /// The peer's bytes ran out, fell short of a frame, or did not decode:
    /// the connection is closed without an oracle violation.
    Closed { frames: usize },
    /// A reported line broke the ledger's expectations.
    Violated { frame: usize, line: usize, violation: Violation },
}

/// The ledger after a stream of frames, and whether a violation ended it.
pub open spec fn serve(m: LedgerModel, w: Seq<u8>) -> (LedgerModel, bool)
    decreases w.len(),
{
    if w.len() < HEADER_LEN || w.len() < HEADER_LEN + be_u32_value(w) {
        (m, false)
    } else {
        let n = be_u32_value(w);
        match parse_lines(w.subrange(HEADER_LEN as int, HEADER_LEN + n)) {
            None => (m, false),
            Some(ls) => {
                let (m2, fail) = run_lines(m, ls);
                if fail is Some {
                    (m2, true)
                } else {
                    serve(m2, w.skip(HEADER_LEN + n))
                }
            },
        }
    }
}

impl Ledger {
    /// Decodes a frame body and checks its lines in order. A body that does
    /// not decode leaves the ledger as it was.
    pub fn check_frame_body(&mut self, body: &[u8]) -> (r: FrameVerdict)
        requires
            old(self).wf(),
        ensures
            final(self).wf(),
            parse_lines(body@) is None ==> (r is Malformed && final(self)@ == old(self)@),
            parse_lines(body@) matches Some(ls) ==> {
                let (m2, fail) = run_lines(old(self)@, ls);
                &&& final(self)@ == m2
                &&& fail is None ==> (r matches FrameVerdict::Verified { lines } && lines == ls.len())
                &&& fail matches Some(i) ==> (r matches FrameVerdict::Violated { line, violation }
                    && line == i && i < ls.len() && is_violation_for(
                    run_lines(old(self)@, ls.take(i as int)).0,
                    ls[i as int].0,
                    ls[i as int].1,
                    violation,
                ))
            },
    {
        match decode_payload(body) {
            None => FrameVerdict::Malformed,
            Some(p) => {
                let n = p.lines.len();
                match self.verify_payload(&p) {
                    Ok(()) => FrameVerdict::Verified { lines: n },
                    Err((line, violation)) => FrameVerdict::Violated { line, violation },
                }
            },
        }
    }

    /// Serves a connection whose bytes are all at hand: frame after frame,
    /// until the bytes run out or fall short of a frame, a body does not
    /// decode, or a line breaks the ledger's expectations.
    pub fn serve_bytes(&mut self, wire: &[u8]) -> (r: ConnectionEnd)
        requires
            old(self).wf(),
        ensures
            final(self).wf(),
            final(self)@ == serve(old(self)@, wire@).0,
            r is Violated <==> serve(old(self)@, wire@).1,
    {
        let mut pos: usize = 0;
        let mut frames: usize = 0;
        let ghost m0 = self@;
        assert(wire@.skip(0) =~= wire@);
        while pos < wire.len()
            invariant
                self.wf(),
                pos <= wire@.len(),
                m0 == old(self)@,
                serve(m0, wire@) == serve(self@, wire@.skip(pos as int)),
            decreases wire@.len() - pos,
        {
            let ghost rest = wire@.skip(pos as int);
            let tail = &wire[pos..wire.len()];
            assert(tail@ =~= rest);
            match split_frame(tail) {
                FrameSplit::Incomplete => {
                    return ConnectionEnd::Closed { frames };
                },
                FrameSplit::Complete { body, consumed } => {
                    match self.check_frame_body(body.as_slice()) {
                        FrameVerdict::Verified { .. } => {
                            assert(rest.skip(consumed as int) =~= wire@.skip(pos + consumed));
                            pos = pos + consumed;
                            if frames < usize::MAX {
                                frames = frames + 1;
                            }
                        },
                        FrameVerdict::Malformed => {
                            return ConnectionEnd::Closed { frames };
                        },
                        FrameVerdict::Violated { line, violation } => {
                            return ConnectionEnd::Violated { frame: frames, line, violation };
                        },
                    }
                },
            }
        }
        assert(wire@.skip(pos as int).len() == 0);
        ConnectionEnd::Closed { frames }
    }
}

} // verus!
