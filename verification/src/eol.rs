//! The target line ending, and the reader adapter that normalizes a stream to it.
use crate::line_endings::{LineState, CR, LF};
use std::str::FromStr;
use vstd::prelude::*;

verus! {

/// Defines the target line ending format.
#[derive(Debug, Clone, Copy, PartialEq, Eq, Structural)]
pub enum EndOfLine {
    /// Line Feed (`\n`).
    Lf,
    /// Carriage Return + Line Feed (`\r\n`).
    Crlf,
}

impl EndOfLine {
    /// The bytes of the line ending.
    pub open spec fn bytes(self) -> Seq<u8> {
        match self {
            EndOfLine::Lf => seq![LF],
            EndOfLine::Crlf => seq![CR, LF],
        }
    }

    /// The format that `name` stands for, if any.
    pub open spec fn named(name: Seq<char>) -> Option<EndOfLine> {
        if name == "lf"@ {
            Some(EndOfLine::Lf)
        } else if name == "crlf"@ {
            Some(EndOfLine::Crlf)
        } else {
            None
        }
    }

    /// Returns the byte representation of the line ending.
    pub fn as_bytes(&self) -> (bytes: &'static [u8])
        ensures
            bytes@ == self.bytes(),
    {
        match self {
            EndOfLine::Lf => &[LF],
            EndOfLine::Crlf => &[CR, LF],
        }
    }
}

impl FromStr for EndOfLine {
    type Err = ();

    fn from_str(s: &str) -> (r: Result<Self, Self::Err>)
        ensures
            r == (match EndOfLine::named(s@) {
                Some(eol) => Ok::<EndOfLine, ()>(eol),
                None => Err::<EndOfLine, ()>(()),
            }),
    {
        let name: String = s.to_owned();
        if name == "lf".to_owned() {
            Ok(EndOfLine::Lf)
        } else if name == "crlf".to_owned() {
            Ok(EndOfLine::Crlf)
        } else {
            Err(())
        }
    }
}

/// What happens to an [`EndOfLineReadTransformer`].
pub enum ReadEvent<'a> {
    /// The transformer is asked for bytes.
    Poll,
    /// The inner reader has read these bytes, or has come to its end if there are none.
    Read(&'a [u8]),
    /// The inner reader has failed.
    Failed,
    /// The inner reader has nothing yet.
    Pending,
}

/// What an [`EndOfLineReadTransformer`] asks of the task that drives it.
#[derive(Debug, PartialEq, Eq)]
pub enum ReadAction {
    /// Poll the inner reader, and report what it did.
    ReadInner,
    /// Hand out these bytes. There are none of them at the end of the stream.
    Deliver(Vec<u8>),
    /// Hand on the error of the inner reader.
    Fail,
    /// Report that nothing is there yet.
    Pend,
}

/// The mathematical form of a [`ReadEvent`].
pub enum ReadEventView {
    Poll,
    Read(Seq<u8>),
    Failed,
    Pending,
}

/// The mathematical form of a [`ReadAction`].
pub enum ReadActionView {
    ReadInner,
    Deliver(Seq<u8>),
    Fail,
    Pend,
}

impl<'a> View for ReadEvent<'a> {
    type V = ReadEventView;

    open spec fn view(&self) -> ReadEventView {
        match self {
            ReadEvent::Poll => ReadEventView::Poll,
            ReadEvent::Read(bytes) => ReadEventView::Read(bytes@),
            ReadEvent::Failed => ReadEventView::Failed,
            ReadEvent::Pending => ReadEventView::Pending,
        }
    }
}

impl View for ReadAction {
    type V = ReadActionView;

    open spec fn view(&self) -> ReadActionView {
        match self {
            ReadAction::ReadInner => ReadActionView::ReadInner,
            ReadAction::Deliver(bytes) => ReadActionView::Deliver(bytes@),
            ReadAction::Fail => ReadActionView::Fail,
            ReadAction::Pend => ReadActionView::Pend,
        }
    }
}

/// The mathematical form of an [`EndOfLineReadTransformer`].
pub struct TransformerView {
    /// The target line ending.
    pub target: EndOfLine,
    /// What the bytes read so far mean for the next one.
    pub state: LineState,
    /// What is transformed and not yet handed out.
    pub pending: Seq<u8>,
}

impl TransformerView {
    /// Hands out as much of `pending` as `remaining` bytes can hold.
    pub open spec fn deliver(self, remaining: nat) -> (TransformerView, ReadActionView) {
        let n = if remaining < self.pending.len() {
            remaining as int
        } else {
            self.pending.len() as int
        };
        (
            TransformerView { pending: self.pending.skip(n), ..self },
            ReadActionView::Deliver(self.pending.take(n)),
        )
    }

    /// What `event` leads to, where the buffer to be filled has room for `remaining` bytes.
    ///
    /// Bytes that were transformed earlier go out first. Only then is the inner reader asked for
    /// more, and asked again where the bytes it read complete a line ending and add nothing: to
    /// hand out nothing would report the end of the stream. A read of no bytes is the end of the
    /// stream only where there was room for some.
    pub open spec fn poll_read(self, event: ReadEventView, remaining: nat) -> (
        TransformerView,
        ReadActionView,
    ) {
        match event {
            ReadEventView::Poll => if self.pending.len() > 0 {
                self.deliver(remaining)
            } else {
                (self, ReadActionView::ReadInner)
            },
            ReadEventView::Read(bytes) => if bytes.len() > 0 {
                let (state, written) = self.state.feed(bytes, self.target.bytes());
                let next = TransformerView { state, pending: written, ..self };
                if written.len() > 0 {
                    next.deliver(remaining)
                } else {
                    (next, ReadActionView::ReadInner)
                }
            } else if remaining > 0 {
                let (state, written) = self.state.finish(self.target.bytes());
                (TransformerView { state, pending: written, ..self }).deliver(remaining)
            } else {
                (self, ReadActionView::Deliver(Seq::empty()))
            },
            ReadEventView::Failed => (self, ReadActionView::Fail),
            ReadEventView::Pending => (self, ReadActionView::Pend),
        }
    }
}

/// An adapter that normalizes various line endings to a target format.
///
/// It transforms line endings such as LF (`\n`), CR (`\r`), and CRLF (`\r\n`) in the bytes of an
/// inner reader into the configured `EndOfLine` format. It correctly handles line endings that are
/// split across buffer boundaries.
///
/// The inner reader belongs to the task that drives the adapter, see [`Self::poll_read`].
#[derive(Debug)]
pub struct EndOfLineReadTransformer {
    /// The target line ending.
    target: EndOfLine,
    /// This buffer holds data that has been read from the inner reader and transformed,
    /// but not yet copied to the output buffer.
    internal_buf: Vec<u8>,
    /// The position in `internal_buf` from which the next read should start.
    pos: usize,
    /// What the bytes of the previous reads mean for the next one. This is crucial for correctly
    /// handling line endings that span across two separate reads.
    state: LineState,
}

impl View for EndOfLineReadTransformer {
    type V = TransformerView;

    closed spec fn view(&self) -> TransformerView {
        TransformerView {
            target: self.target,
            state: self.state,
            pending: self.internal_buf@.skip(self.pos as int),
        }
    }
}

/// Appends `bytes` to `buf`.
fn append_bytes(buf: &mut Vec<u8>, bytes: &[u8])
    ensures
        final(buf)@ == old(buf)@ + bytes@,
{
    let ghost before = buf@;
    buf.extend_from_slice(bytes);
    assert(buf@ =~= before + bytes@);
}

impl EndOfLineReadTransformer {
    /// The position lies within the internal buffer.
    pub closed spec fn wf(self) -> bool {
        self.pos <= self.internal_buf@.len()
    }

    /// Creates a new `EndOfLineTransformer`.
    ///
    /// # Arguments
    ///
    /// * `target` - The desired line ending format for the output.
    pub fn new(target: EndOfLine) -> (r: EndOfLineReadTransformer)
        ensures
            r.wf(),
            r@ == (TransformerView { target, state: LineState::Text, pending: Seq::empty() }),
    {
        let r = EndOfLineReadTransformer {
            target,
            internal_buf: Vec::with_capacity(1024),
            pos: 0,
            state: LineState::Text,
        };
        assert(r@.pending =~= Seq::empty());
        r
    }

    /// Takes in one byte of the inner reader.
    fn transform_byte(&mut self, byte: u8)
        requires
            old(self).wf(),
        ensures
            final(self).wf(),
            final(self).target == old(self).target,
            final(self).pos == old(self).pos,
            ({
                let (state, added) = old(self).state.step(byte, old(self).target.bytes());
                &&& final(self).state == state
                &&& final(self).internal_buf@ == old(self).internal_buf@ + added
            }),
    {
        let separator: &[u8] = self.target.as_bytes();
        let ghost target = self.target.bytes();
        let ghost before = self.internal_buf@;
        assert(before + Seq::<u8>::empty() =~= before);
        assert(Seq::<u8>::empty() + target =~= target);
        assert(Seq::<u8>::empty() + seq![byte] =~= seq![byte]);
        let completes_crlf: bool = matches!(self.state, LineState::AfterCr | LineState::AfterLfCr);
        if byte == LF && completes_crlf {
            // This is the LF of a CRLF pair, whose separator was written for the CR or for the
            // LF before it.
            self.state = LineState::Text;
        } else if byte == LF {
            append_bytes(&mut self.internal_buf, separator);
            self.state = LineState::AfterLf;
        } else if byte == CR && matches!(self.state, LineState::AfterLf) {
            self.state = LineState::AfterLfCr;
        } else {
            if matches!(self.state, LineState::AfterLfCr) {
                // The CR before this byte was a line ending of its own.
                append_bytes(&mut self.internal_buf, separator);
            }
            if byte == CR {
                append_bytes(&mut self.internal_buf, separator);
                self.state = LineState::AfterCr;
            } else {
                self.internal_buf.push(byte);
                self.state = LineState::Text;
            }
        }
    }

    /// Takes in what the inner reader has read, normalizing line endings.
    fn transform(&mut self, bytes: &[u8])
        requires
            old(self).wf(),
        ensures
            final(self).wf(),
            final(self).target == old(self).target,
            final(self).pos == old(self).pos,
            ({
                let (state, added) = old(self).state.feed(bytes@, old(self).target.bytes());
                &&& final(self).state == state
                &&& final(self).internal_buf@ == old(self).internal_buf@ + added
            }),
    {
        let ghost first = *self;
        let ghost target = self.target.bytes();
        assert(bytes@.take(0) =~= Seq::empty());
        assert(self.internal_buf@ + Seq::<u8>::empty() =~= self.internal_buf@);
        for i in 0..bytes.len()
            invariant
                target == first.target.bytes(),
                self.wf(),
                self.target == first.target,
                self.pos == first.pos,
                self.state == first.state.feed(bytes@.take(i as int), target).0,
                self.internal_buf@ == first.internal_buf@ + first.state.feed(
                    bytes@.take(i as int),
                    target,
                ).1,
        {
            assert(bytes@.take(i + 1).drop_last() =~= bytes@.take(i as int));
            self.transform_byte(bytes[i]);
            assert(self.internal_buf@ =~= first.internal_buf@ + first.state.feed(
                bytes@.take(i + 1),
                target,
            ).1);
        }
        assert(bytes@.take(bytes.len() as int) =~= bytes@);
    }

    /// Hands out as much of the processed internal buffer as `remaining` bytes can hold.
    fn deliver(&mut self, remaining: usize) -> (action: ReadAction)
        requires
            old(self).wf(),
        ensures
            final(self).wf(),
            (final(self)@, action@) == old(self)@.deliver(remaining as nat),
    {
        let ghost before = self@;
        let available: usize = self.internal_buf.len() - self.pos;
        let bytes_to_copy: usize = if remaining < available {
            remaining
        } else {
            available
        };
        let end: usize = self.pos + bytes_to_copy;
        let mut bytes: Vec<u8> = Vec::new();
        append_bytes(&mut bytes, vstd::slice::slice_subrange(self.internal_buf.as_slice(), self.pos, end));
        assert(bytes@ =~= before.pending.take(bytes_to_copy as int));
        self.pos = end;
        assert(self@.pending =~= before.pending.skip(bytes_to_copy as int));
        ReadAction::Deliver(bytes)
    }

    /// Takes in `event`, where the buffer to be filled has room for `remaining` bytes, and says
    /// what is to be done next.
    ///
    /// The task that drives the adapter starts with [`ReadEvent::Poll`]. On
    /// [`ReadAction::ReadInner`] it polls the inner reader and comes back with what it did; any
    /// other action is the result of the poll.
    pub fn poll_read(&mut self, event: ReadEvent<'_>, remaining: usize) -> (action: ReadAction)
        requires
            old(self).wf(),
            event is Read ==> old(self)@.pending.len() == 0,
        ensures
            final(self).wf(),
            (final(self)@, action@) == old(self)@.poll_read(event@, remaining as nat),
            action is Pend <==> event is Pending,
            action is Fail <==> event is Failed,
    {
        let ghost before = self@;
        match event {
            ReadEvent::Poll => {
                if self.pos >= self.internal_buf.len() {
                    // Clear the internal buffer to save memory and reset position.
                    self.internal_buf.clear();
                    self.pos = 0;
                    assert(self@.pending =~= before.pending);
                    ReadAction::ReadInner
                } else {
                    self.deliver(remaining)
                }
            },
            ReadEvent::Read(bytes) => {
                if bytes.len() > 0 {
                    self.internal_buf.clear();
                    self.pos = 0;
                    self.transform(bytes);
                    assert(self@.pending =~= before.state.feed(bytes@, before.target.bytes()).1);
                    if self.internal_buf.len() > 0 {
                        self.deliver(remaining)
                    } else {
                        ReadAction::ReadInner
                    }
                } else if remaining > 0 {
                    self.internal_buf.clear();
                    self.pos = 0;
                    if matches!(self.state, LineState::AfterLfCr) {
                        // A lone CR at the end of the stream.
                        append_bytes(&mut self.internal_buf, self.target.as_bytes());
                        self.state = LineState::AfterCr;
                    }
                    assert(self@.pending =~= before.state.finish(before.target.bytes()).1);
                    self.deliver(remaining)
                } else {
                    ReadAction::Deliver(Vec::new())
                }
            },
            ReadEvent::Failed => ReadAction::Fail,
            ReadEvent::Pending => ReadAction::Pend,
        }
    }
}

} // verus!
