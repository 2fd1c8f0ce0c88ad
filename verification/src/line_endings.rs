//! What a line ending is, what it means to normalize the line endings of a byte sequence, and the
//! automaton that normalizes a stream of bytes without looking ahead.
use vstd::prelude::*;

verus! {

/// Carriage Return (`\r`).
pub const CR: u8 = 0x0d;

/// Line Feed (`\n`).
pub const LF: u8 = 0x0a;

/// The length of the line ending that `s` starts with, or 0 if it starts with none.
///
/// The line endings are LF, CR and CRLF. A CRLF that directly follows a lone LF is part of the same
/// line ending.
pub open spec fn ending_len(s: Seq<u8>) -> int {
    if s.len() >= 2 && s[0] == CR && s[1] == LF {
        2
    } else if s.len() >= 3 && s[0] == LF && s[1] == CR && s[2] == LF {
        3
    } else if s.len() >= 1 && (s[0] == CR || s[0] == LF) {
        1
    } else {
        0
    }
}

/// `s` with each of its line endings, taken from left to right, replaced by `target`.
pub open spec fn normalize(s: Seq<u8>, target: Seq<u8>) -> Seq<u8>
    decreases s.len(),
{
    if s.len() == 0 {
        Seq::empty()
    } else if ending_len(s) == 0 {
        seq![s[0]] + normalize(s.skip(1), target)
    } else {
        target + normalize(s.skip(ending_len(s)), target)
    }
}

/// What the bytes read so far mean for the byte that comes next.
#[derive(Debug, Clone, Copy, PartialEq, Eq, Structural)]
pub enum LineState {
    /// No line ending is open: the last byte was text, or it completed a line ending.
    Text,
    /// The last byte was a CR whose separator is already written. An LF would complete a CRLF.
    AfterCr,
    /// The last byte was an LF whose separator is already written. A CRLF would belong to it.
    AfterLf,
    /// The last two bytes were an LF, whose separator is already written, and a CR, whose separator
    /// is not: an LF would complete a CRLF that belongs to the first LF, while anything else makes
    /// the CR a line ending of its own.
    AfterLfCr,
}

impl LineState {
    /// The state after `byte`, and what is written for it.
    pub open spec fn step(self, byte: u8, target: Seq<u8>) -> (LineState, Seq<u8>) {
        let held = if self is AfterLfCr {
            target
        } else {
            Seq::empty()
        };
        if byte == LF && (self is AfterCr || self is AfterLfCr) {
            (LineState::Text, Seq::empty())
        } else if byte == LF {
            (LineState::AfterLf, target)
        } else if byte == CR && self is AfterLf {
            (LineState::AfterLfCr, Seq::empty())
        } else if byte == CR {
            (LineState::AfterCr, held + target)
        } else {
            (LineState::Text, held + seq![byte])
        }
    }

    /// The state after all of `bytes`, and what is written for them.
    pub open spec fn feed(self, bytes: Seq<u8>, target: Seq<u8>) -> (LineState, Seq<u8>)
        decreases bytes.len(),
    {
        if bytes.len() == 0 {
            (self, Seq::empty())
        } else {
            let (state, written) = self.feed(bytes.drop_last(), target);
            let (next, added) = state.step(bytes.last(), target);
            (next, written + added)
        }
    }

    /// The state after the end of the stream, and what is written for it: a separator that was held
    /// back belongs to a lone CR.
    pub open spec fn finish(self, target: Seq<u8>) -> (LineState, Seq<u8>) {
        if self is AfterLfCr {
            (LineState::AfterCr, target)
        } else {
            (self, Seq::empty())
        }
    }

    /// What is still to be written when the stream goes on with `rest` and then ends.
    pub open spec fn rest_of_stream(self, rest: Seq<u8>, target: Seq<u8>) -> Seq<u8> {
        if (self is AfterCr || self is AfterLfCr) && rest.len() >= 1 && rest[0] == LF {
            normalize(rest.skip(1), target)
        } else if self is AfterLf && rest.len() >= 2 && rest[0] == CR && rest[1] == LF {
            normalize(rest.skip(2), target)
        } else if self is AfterLfCr {
            target + normalize(rest, target)
        } else {
            normalize(rest, target)
        }
    }
}

/// One byte of the automaton writes exactly what the byte adds to the normalized stream.
proof fn lemma_step(state: LineState, byte: u8, rest: Seq<u8>, target: Seq<u8>)
    ensures
        state.rest_of_stream(seq![byte] + rest, target) == state.step(byte, target).1
            + state.step(byte, target).0.rest_of_stream(rest, target),
{
    let all = seq![byte] + rest;
    assert(all.skip(1) =~= rest);
    if rest.len() >= 1 {
        assert(all.skip(2) =~= rest.skip(1));
    }
    if rest.len() >= 2 {
        assert(all.skip(3) =~= rest.skip(2));
    }
    reveal_with_fuel(normalize, 2);
    let (next, added) = state.step(byte, target);
    assert(Seq::<u8>::empty() + next.rest_of_stream(rest, target) =~= next.rest_of_stream(
        rest,
        target,
    ));
    assert(state.rest_of_stream(all, target) =~= added + next.rest_of_stream(rest, target));
}

/// Whatever the stream goes on with, the automaton has written what `bytes` add to the normalized
/// stream, and its state holds all that the rest of the stream needs to know of them.
pub proof fn law_feed_is_prefix(state: LineState, bytes: Seq<u8>, rest: Seq<u8>, target: Seq<u8>)
    ensures
        state.rest_of_stream(bytes + rest, target) == state.feed(bytes, target).1 + state.feed(
            bytes,
            target,
        ).0.rest_of_stream(rest, target),
    decreases bytes.len(),
{
    if bytes.len() == 0 {
        assert(bytes + rest =~= rest);
        assert(Seq::<u8>::empty() + state.rest_of_stream(rest, target) =~= state.rest_of_stream(
            rest,
            target,
        ));
    } else {
        let init = bytes.drop_last();
        let tail = seq![bytes.last()] + rest;
        assert(bytes + rest =~= init + tail);
        law_feed_is_prefix(state, init, tail, target);
        let (mid, written) = state.feed(init, target);
        lemma_step(mid, bytes.last(), rest, target);
        let (next, added) = mid.step(bytes.last(), target);
        assert(written + (added + next.rest_of_stream(rest, target)) =~= (written + added)
            + next.rest_of_stream(rest, target));
    }
}

/// A stream that is fed from the start and then finished is written normalized.
pub proof fn law_stream_is_normalized(bytes: Seq<u8>, target: Seq<u8>)
    ensures
        ({
            let (state, written) = LineState::Text.feed(bytes, target);
            written + state.finish(target).1 == normalize(bytes, target)
        }),
{
    law_feed_is_prefix(LineState::Text, bytes, Seq::empty(), target);
    assert(bytes + Seq::<u8>::empty() =~= bytes);
    let (state, written) = LineState::Text.feed(bytes, target);
    assert(target + Seq::<u8>::empty() =~= target);
    assert(state.rest_of_stream(Seq::empty(), target) =~= state.finish(target).1);
}

/// Where a stream is split into chunks makes no difference to what is written for it.
pub proof fn law_split_is_irrelevant(state: LineState, a: Seq<u8>, b: Seq<u8>, target: Seq<u8>)
    ensures
        ({
            let (mid, first) = state.feed(a, target);
            let (last, second) = mid.feed(b, target);
            state.feed(a + b, target) == (last, first + second)
        }),
    decreases b.len(),
{
    if b.len() == 0 {
        assert(a + b =~= a);
        let first = state.feed(a, target).1;
        assert(first + Seq::<u8>::empty() =~= first);
    } else {
        law_split_is_irrelevant(state, a, b.drop_last(), target);
        assert((a + b).drop_last() =~= a + b.drop_last());
        let (mid, first) = state.feed(a, target);
        let (before, second) = mid.feed(b.drop_last(), target);
        let added = before.step(b.last(), target).1;
        assert((first + second) + added =~= first + (second + added));
    }
}

} // verus!
