//! Cutting frames out of what a connection delivers, and which frames a session takes.

use crate::bytes::{push_bytes, slice_of};
use vstd::prelude::*;

verus! {

/// Largest hello.
pub const MAX_HELLO: usize = 4096;

/// Largest frame: what the 22 bits of its length can say.
pub const MAX_CMD_LEN: u32 = 0x3f_ffff;

/// What a connection has delivered and no frame has taken yet.
pub struct InBuf {
    data: Vec<u8>,
    pos: usize,
}

impl View for InBuf {
    type V = Seq<u8>;

    closed spec fn view(&self) -> Seq<u8> {
        self.data@.skip(self.pos as int)
    }
}

impl Default for InBuf {
    fn default() -> (b: InBuf)
        ensures
            b.wf(),
            b@ == Seq::<u8>::empty(),
            b.spent() == 0,
    {
        let b = InBuf { data: Vec::new(), pos: 0 };
        assert(b@ =~= Seq::empty());
        b
    }
}

impl InBuf {
    /// No more has been taken than was delivered.
    pub closed spec fn wf(&self) -> bool {
        self.pos <= self.data@.len()
    }

    /// Bytes that were taken and still hold their room.
    pub closed spec fn spent(&self) -> nat {
        self.pos as nat
    }

    /// Adds what the connection delivered.
    pub fn feed(&mut self, b: &[u8])
        requires
            old(self).wf(),
        ensures
            final(self).wf(),
            final(self)@ == old(self)@ + b@,
            final(self).spent() == old(self).spent(),
    {
        let ghost before = self@;
        push_bytes(&mut self.data, b);
        assert(self@ =~= before + b@);
    }

    /// Takes the next `n` bytes, if there are so many.
    pub fn take(&mut self, n: usize) -> (r: Option<Vec<u8>>)
        requires
            old(self).wf(),
        ensures
            final(self).wf(),
            match r {
                Some(b) => n <= old(self)@.len() && b@ == old(self)@.take(n as int) && final(self)@
                    == old(self)@.skip(n as int) && final(self).spent() == old(self).spent() + n,
                None => n > old(self)@.len() && final(self)@ == old(self)@ && final(self).spent()
                    == old(self).spent(),
            },
    {
        if self.data.len() - self.pos < n {
            return None;
        }
        let ghost before = self@;
        let b: Vec<u8> = slice_of(self.data.as_slice(), self.pos, self.pos + n);
        self.pos = self.pos + n;
        assert(b@ =~= before.take(n as int));
        assert(self@ =~= before.skip(n as int));
        Some(b)
    }

    /// Gives up the room of what was taken, once that is half of what is held. What was taken then
    /// never holds more room than what is still to be taken.
    pub fn make_room(&mut self)
        requires
            old(self).wf(),
        ensures
            final(self).wf(),
            final(self)@ == old(self)@,
            final(self).spent() == if old(self).spent() >= (old(self).spent() + old(self)@.len())
                / 2 {
                0
            } else {
                old(self).spent()
            },
            final(self).spent() <= final(self)@.len(),
    {
        if self.pos > 0 && self.pos >= self.data.len() / 2 {
            let ghost before = self@;
            self.data = slice_of(self.data.as_slice(), self.pos, self.data.len());
            self.pos = 0;
            assert(self@ =~= before);
        }
    }
}

/// What a frame carries.
#[derive(Clone, Copy, Debug, PartialEq, Eq, Structural)]
pub enum Command {
    Hello,
    Mining,
    Other(u8),
}

/// A frame's header.
#[derive(Clone, Copy, Debug, PartialEq, Eq, Structural)]
pub struct FrameHeader {
    pub len: u32,
    pub cmd: Command,
    /// The payload is sealed to a long-term key.
    pub sealed: bool,
    /// A signature trails the payload.
    pub signed: bool,
    /// The payload is encrypted for the session.
    pub channel: bool,
}

/// Why a frame ends its session.
#[derive(Clone, Copy, Debug, PartialEq, Eq, Structural)]
pub enum BadFrame {
    NotAHello,
    TooLarge,
    SealedAgain,
    PlainMining,
    SecondHello,
}

/// The words of a frame error.
pub open spec fn bad_frame_text(e: BadFrame) -> Seq<char> {
    match e {
        BadFrame::NotAHello => "first frame is not a sealed, signed hello"@,
        BadFrame::TooLarge => "frame too large"@,
        BadFrame::SealedAgain => "sealed frame after handshake"@,
        BadFrame::PlainMining => "plaintext mining frame"@,
        BadFrame::SecondHello => "second hello"@,
    }
}

impl BadFrame {
    /// The words of the error.
    pub fn text(self) -> (s: &'static str)
        ensures
            s@ == bad_frame_text(self),
    {
        match self {
            BadFrame::NotAHello => "first frame is not a sealed, signed hello",
            BadFrame::TooLarge => "frame too large",
            BadFrame::SealedAgain => "sealed frame after handshake",
            BadFrame::PlainMining => "plaintext mining frame",
            BadFrame::SecondHello => "second hello",
        }
    }
}

/// Checks the first frame of a connection, whose payload is to be read only if it passes: it is
/// not too large, and it is a hello, sealed and signed and on no channel yet.
pub fn check_hello(h: &FrameHeader) -> (r: Result<(), BadFrame>)
    ensures
        r == if h.len > MAX_HELLO {
            Err::<(), BadFrame>(BadFrame::TooLarge)
        } else if h.cmd != Command::Hello || !h.sealed || !h.signed || h.channel {
            Err(BadFrame::NotAHello)
        } else {
            Ok(())
        },
        r.is_ok() <==> h.len <= 4096 && h.cmd == Command::Hello && h.sealed && h.signed
            && !h.channel,
{
    if h.len > MAX_HELLO as u32 {
        return Err(BadFrame::TooLarge);
    }
    if h.cmd != Command::Hello || !h.sealed || !h.signed || h.channel {
        return Err(BadFrame::NotAHello);
    }
    Ok(())
}

/// Tells whether a frame's payload may be read.
pub fn check_len(h: &FrameHeader) -> (r: Result<(), BadFrame>)
    ensures
        r == if h.len > MAX_CMD_LEN {
            Err::<(), BadFrame>(BadFrame::TooLarge)
        } else {
            Ok(())
        },
        r.is_ok() <==> h.len < 0x40_0000,
{
    if h.len > MAX_CMD_LEN {
        return Err(BadFrame::TooLarge);
    }
    Ok(())
}

/// What a frame after the handshake calls for: whether it holds a mining message (or one that is
/// ignored), or why it ends the session. A sealed frame does whatever it carries; the others only
/// once their payload has been opened.
pub fn check_frame(h: &FrameHeader) -> (r: Result<bool, BadFrame>)
    ensures
        r == if h.sealed {
            Err::<bool, BadFrame>(BadFrame::SealedAgain)
        } else if h.cmd == Command::Hello {
            Err(BadFrame::SecondHello)
        } else if h.cmd == Command::Mining && !h.channel {
            Err(BadFrame::PlainMining)
        } else {
            Ok(h.cmd == Command::Mining)
        },
        r.is_ok() <==> !h.sealed && h.cmd != Command::Hello && (h.cmd == Command::Mining
            ==> h.channel),
        r matches Ok(mining) ==> (mining <==> h.cmd == Command::Mining),
{
    if h.sealed {
        return Err(BadFrame::SealedAgain);
    }
    match h.cmd {
        Command::Hello => Err(BadFrame::SecondHello),
        Command::Mining => {
            if !h.channel {
                Err(BadFrame::PlainMining)
            } else {
                Ok(true)
            }
        },
        Command::Other(_) => Ok(false),
    }
}

} // verus!
