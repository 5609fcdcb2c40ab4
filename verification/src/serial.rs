use vstd::prelude::*;

verus! {

/// The first serial port's I/O base.
pub const COM1: u16 = 0x3F8;

/// What goes on the wire for the byte `b`: a line feed is preceded by a
/// carriage return, anything else goes as it is.
pub open spec fn piece(b: u8) -> Seq<u8> {
    if b == 10 { seq![13u8, 10u8] } else { seq![b] }
}

/// What goes on the wire for the text `s`: each byte's piece in turn.
pub open spec fn wire_spec(s: Seq<u8>) -> Seq<u8>
    decreases s.len(),
{
    if s.len() == 0 {
        Seq::empty()
    } else {
        wire_spec(s.drop_last()) + piece(s.last())
    }
}

/// The kernel's serial console on COM1. Sending the bytes is the caller's
/// business; this says which bytes to send.
pub struct SerialPort;

impl SerialPort {
    /// The bytes to send for the byte `b`: the first `n` of `bytes`.
    pub fn encode_byte(&self, b: u8) -> (out: ([u8; 2], usize))
        ensures
            out.1 <= 2,
            out.0@.take(out.1 as int) == piece(b),
    {
        if b == 10 {
            let out = ([13u8, 10u8], 2usize);
            assert(out.0@.take(2) =~= piece(b));
            out
        } else {
            let out = ([b, 0u8], 1usize);
            assert(out.0@.take(1) =~= piece(b));
            out
        }
    }

    /// The bytes to send for the text `s`.
    pub fn wire_bytes(&self, s: &[u8]) -> (out: Vec<u8>)
        ensures out@ == wire_spec(s@),
    {
        let mut out: Vec<u8> = Vec::new();
        let mut i: usize = 0;
        while i < s.len()
            invariant
                i <= s@.len(),
                out@ == wire_spec(s@.take(i as int)),
            decreases s@.len() - i,
        {
            proof { assert(s@.take(i + 1).drop_last() =~= s@.take(i as int)); }
            let b = s[i];
            if b == 10 {
                out.push(13);
            }
            out.push(b);
            proof {
                let t = s@.take(i + 1);
                assert(t.last() == b);
            }
            i += 1;
            proof {
                assert(out@ =~= wire_spec(s@.take(i as int)));
            }
        }
        proof { assert(s@.take(s@.len() as int) =~= s@); }
        out
    }
}

} // verus!
