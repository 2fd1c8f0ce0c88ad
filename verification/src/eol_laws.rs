//! Laws of line ending normalization, for both target formats and for whole streams.
use crate::eol::{
    EndOfLine, ReadAction, ReadActionView, ReadEvent, ReadEventView, TransformerView,
};
use crate::line_endings::{
    ending_len, law_feed_is_prefix, law_split_is_irrelevant, law_stream_is_normalized, normalize,
    LineState, CR, LF,
};
use vstd::prelude::*;

verus! {

/// All line endings of `s` are `eol`.
pub open spec fn is_normal(s: Seq<u8>, eol: EndOfLine) -> bool {
    match eol {
        EndOfLine::Lf => forall|i: int| 0 <= i < s.len() ==> s[i] != CR,
        EndOfLine::Crlf => {
            &&& forall|i: int| #![trigger s[i]]
                0 <= i < s.len() && s[i] == CR ==> i + 1 < s.len() && s[i + 1] == LF
            &&& forall|i: int| #![trigger s[i]]
                0 <= i < s.len() && s[i] == LF ==> 0 < i && s[i - 1] == CR
        },
    }
}

/// The bytes of `s` that are in no line ending.
pub open spec fn text_of(s: Seq<u8>) -> Seq<u8> {
    s.filter(|b: u8| b != CR && b != LF)
}

/// The line endings of `s`, counted.
pub open spec fn ending_count(s: Seq<u8>) -> nat
    decreases s.len(),
{
    if s.len() == 0 {
        0
    } else if ending_len(s) == 0 {
        ending_count(s.skip(1))
    } else {
        1 + ending_count(s.skip(ending_len(s)))
    }
}

/// The length of the line ending or the byte of text that a non-empty `s` starts with.
spec fn head_len(s: Seq<u8>) -> int {
    if ending_len(s) == 0 {
        1
    } else {
        ending_len(s)
    }
}

/// What the start of a non-empty `s` is normalized to.
spec fn head_out(s: Seq<u8>, target: Seq<u8>) -> Seq<u8> {
    if ending_len(s) == 0 {
        seq![s[0]]
    } else {
        target
    }
}

/// `s` has no CR and no LF.
pub open spec fn is_text(s: Seq<u8>) -> bool {
    forall|i: int| 0 <= i < s.len() ==> s[i] != CR && s[i] != LF
}

/// A normalized sequence has line endings of the target format only.
pub proof fn law_only_target_endings(s: Seq<u8>, eol: EndOfLine)
    ensures
        is_normal(normalize(s, eol.bytes()), eol),
    decreases s.len(),
{
    if s.len() > 0 {
        let head = head_out(s, eol.bytes());
        let n = head_len(s);
        law_only_target_endings(s.skip(n), eol);
        let tail = normalize(s.skip(n), eol.bytes());
        let all = head + tail;
        assert(normalize(s, eol.bytes()) == all);
        assert forall|i: int| head.len() <= i < all.len() implies #[trigger] all[i] == tail[i
            - head.len()] by {}
        assert(is_normal(all, eol));
    }
}

/// A sequence whose line endings are all in the target format is left as it is.
pub proof fn law_normal_is_unchanged(s: Seq<u8>, eol: EndOfLine)
    requires
        is_normal(s, eol),
    ensures
        normalize(s, eol.bytes()) == s,
    decreases s.len(),
{
    if s.len() > 0 {
        let n = head_len(s);
        assert(s[0] == s[0]);
        assert(n == 2 ==> s[1] == s[1]);
        let rest = s.skip(n);
        assert forall|i: int| 0 <= i < rest.len() implies #[trigger] rest[i] == s[i + n] by {}
        assert(is_normal(rest, eol));
        law_normal_is_unchanged(rest, eol);
        assert(s =~= s.take(n) + rest);
    }
}

/// To normalize twice is to normalize once.
pub proof fn law_normalize_is_idempotent(s: Seq<u8>, eol: EndOfLine)
    ensures
        normalize(normalize(s, eol.bytes()), eol.bytes()) == normalize(s, eol.bytes()),
{
    law_only_target_endings(s, eol);
    law_normal_is_unchanged(normalize(s, eol.bytes()), eol);
}

/// A sequence without CR and LF is left as it is.
pub proof fn law_text_is_unchanged(s: Seq<u8>, eol: EndOfLine)
    requires
        is_text(s),
    ensures
        normalize(s, eol.bytes()) == s,
{
    law_normal_is_unchanged(s, eol);
}

/// What comes before a byte of text and what comes from there on are normalized on their own.
pub proof fn law_cut_before_text(a: Seq<u8>, b: Seq<u8>, eol: EndOfLine)
    requires
        b.len() > 0 ==> b[0] != CR && b[0] != LF,
    ensures
        normalize(a + b, eol.bytes()) == normalize(a, eol.bytes()) + normalize(b, eol.bytes()),
{
    let target = eol.bytes();
    law_feed_is_prefix(LineState::Text, a, b, target);
    law_stream_is_normalized(a, target);
    let (state, written) = LineState::Text.feed(a, target);
    assert(state.rest_of_stream(b, target) =~= state.finish(target).1 + normalize(b, target));
    assert(written + (state.finish(target).1 + normalize(b, target)) =~= (written + state.finish(
        target,
    ).1) + normalize(b, target));
}

/// An LF, a CR or a CRLF between text is replaced by the target.
pub proof fn law_ending_is_replaced(
    before: Seq<u8>,
    ending: Seq<u8>,
    rest: Seq<u8>,
    eol: EndOfLine,
)
    requires
        is_text(before),
        ending == seq![LF] || ending == seq![CR] || ending == seq![CR, LF],
        rest.len() > 0 ==> rest[0] != CR && rest[0] != LF,
    ensures
        normalize(before + ending + rest, eol.bytes()) == before + eol.bytes() + normalize(
            rest,
            eol.bytes(),
        ),
    decreases before.len(),
{
    let target = eol.bytes();
    let all = before + ending + rest;
    if before.len() == 0 {
        assert(all.skip(ending.len() as int) =~= rest);
        assert(before + target + normalize(rest, target) =~= target + normalize(rest, target));
    } else {
        let tail = before.skip(1);
        law_ending_is_replaced(tail, ending, rest, eol);
        assert(all.skip(1) =~= tail + ending + rest);
        assert(seq![before[0]] + (tail + target + normalize(rest, target)) =~= before + target
            + normalize(rest, target));
    }
}

/// The format of a first normalization does not show after a second one.
pub proof fn law_last_format_wins(s: Seq<u8>, first: EndOfLine, last: EndOfLine)
    ensures
        normalize(normalize(s, first.bytes()), last.bytes()) == normalize(s, last.bytes()),
    decreases s.len(),
{
    if s.len() > 0 {
        let head = head_out(s, first.bytes());
        let n = head_len(s);
        let tail = normalize(s.skip(n), first.bytes());
        let all = head + tail;
        law_last_format_wins(s.skip(n), first, last);
        law_only_target_endings(s.skip(n), first);
        if tail.len() > 0 {
            assert(tail[0] == tail[0]);
        }
        assert(all.skip(head.len() as int) =~= tail);
        assert(ending_len(all) == (if ending_len(s) == 0 {
            0
        } else {
            head.len() as int
        }));
    }
}

/// Normalization neither loses nor adds a line ending.
pub proof fn law_ending_count_is_kept(s: Seq<u8>, eol: EndOfLine)
    ensures
        ending_count(normalize(s, eol.bytes())) == ending_count(s),
    decreases s.len(),
{
    if s.len() > 0 {
        let head = head_out(s, eol.bytes());
        let n = head_len(s);
        let tail = normalize(s.skip(n), eol.bytes());
        let all = head + tail;
        law_ending_count_is_kept(s.skip(n), eol);
        law_only_target_endings(s.skip(n), eol);
        if tail.len() > 0 {
            assert(tail[0] == tail[0]);
        }
        assert(all.skip(head.len() as int) =~= tail);
        assert(ending_len(all) == (if ending_len(s) == 0 {
            0
        } else {
            head.len() as int
        }));
    }
}

/// Normalization keeps every byte that is in no line ending, in order.
pub proof fn law_text_is_kept(s: Seq<u8>, eol: EndOfLine)
    ensures
        text_of(normalize(s, eol.bytes())) == text_of(s),
    decreases s.len(),
{
    let keep = |b: u8| b != CR && b != LF;
    if s.len() > 0 {
        let head = head_out(s, eol.bytes());
        let n = head_len(s);
        let tail = normalize(s.skip(n), eol.bytes());
        law_text_is_kept(s.skip(n), eol);
        assert(s =~= s.take(n) + s.skip(n));
        Seq::filter_distributes_over_add(s.take(n), s.skip(n), keep);
        Seq::filter_distributes_over_add(head, tail, keep);
        reveal_with_fuel(Seq::filter, 4);
        assert(s.take(n).filter(keep) =~= head.filter(keep)) by {
            if ending_len(s) == 0 {
                assert(s.take(n) =~= head);
            } else {
                assert(head.filter(keep) =~= Seq::empty());
                assert(s.take(n).filter(keep) =~= Seq::empty());
            }
        }
    }
}

/// A transformer has read `read` from the start of the inner stream, has handed out `delivered`, and
/// has or has not seen the end of the inner stream.
pub open spec fn tracks(
    v: TransformerView,
    read: Seq<u8>,
    delivered: Seq<u8>,
    ended: bool,
) -> bool {
    let (state, written) = LineState::Text.feed(read, v.target.bytes());
    if ended {
        &&& delivered + v.pending == normalize(read, v.target.bytes())
        &&& v.state !is AfterLfCr
    } else {
        &&& delivered + v.pending == written
        &&& v.state == state
    }
}

/// The bytes that `event` brings from the inner reader.
pub open spec fn bytes_read(event: ReadEventView) -> Seq<u8> {
    match event {
        ReadEventView::Read(bytes) => bytes,
        _ => Seq::empty(),
    }
}

/// The bytes that `action` hands out.
pub open spec fn bytes_delivered(action: ReadActionView) -> Seq<u8> {
    match action {
        ReadActionView::Deliver(bytes) => bytes,
        _ => Seq::empty(),
    }
}

/// `event` is the end of the inner stream: a read into a buffer with room that gave nothing.
pub open spec fn is_end(event: ReadEventView, remaining: nat) -> bool {
    event is Read && bytes_read(event).len() == 0 && remaining > 0
}

/// A new transformer has read nothing and handed out nothing.
pub proof fn law_start_of_stream(target: EndOfLine)
    ensures
        tracks(
            TransformerView { target, state: LineState::Text, pending: Seq::empty() },
            Seq::empty(),
            Seq::empty(),
            false,
        ),
{
    assert(Seq::<u8>::empty() + Seq::<u8>::empty() =~= Seq::empty());
}

/// Whatever happens to a transformer, and however the inner stream is cut into reads and the output
/// into buffers: what it has handed out and what it still holds make up the normalized form of what
/// it has read.
pub proof fn law_stream_step(
    v: TransformerView,
    event: ReadEventView,
    remaining: nat,
    read: Seq<u8>,
    delivered: Seq<u8>,
    ended: bool,
)
    requires
        tracks(v, read, delivered, ended),
        event is Read ==> v.pending.len() == 0,
        ended ==> bytes_read(event).len() == 0,
    ensures
        ({
            let (next, action) = v.poll_read(event, remaining);
            tracks(
                next,
                read + bytes_read(event),
                delivered + bytes_delivered(action),
                ended || is_end(event, remaining),
            )
        }),
{
    let (next, action) = v.poll_read(event, remaining);
    let bytes = bytes_read(event);
    let target = v.target.bytes();
    let out = bytes_delivered(action);
    let empty = Seq::<u8>::empty();
    law_split_is_irrelevant(LineState::Text, read, bytes, target);
    law_stream_is_normalized(read, target);
    if bytes.len() == 0 {
        assert(read + bytes =~= read);
    }
    if event is Read {
        assert(delivered + v.pending =~= delivered);
        let added = if bytes.len() > 0 {
            v.state.feed(bytes, target).1
        } else if remaining > 0 {
            v.state.finish(target).1
        } else {
            empty
        };
        assert(out + next.pending =~= added);
        assert((delivered + out) + next.pending =~= delivered + added);
    } else {
        assert(out + next.pending =~= v.pending);
        assert((delivered + out) + next.pending =~= delivered + v.pending);
    }
}

/// A transformer that hands out nothing, though there is room, is at the end of the inner stream,
/// and has then handed out exactly the normalized form of all of it.
pub proof fn law_end_of_stream(
    v: TransformerView,
    event: ReadEventView,
    remaining: nat,
    read: Seq<u8>,
    delivered: Seq<u8>,
    ended: bool,
)
    requires
        tracks(v, read, delivered, ended),
        event is Read ==> v.pending.len() == 0,
        ended ==> bytes_read(event).len() == 0,
        remaining > 0,
        v.poll_read(event, remaining).1 == ReadActionView::Deliver(Seq::empty()),
    ensures
        is_end(event, remaining),
        delivered == normalize(read, v.target.bytes()),
{
    law_stream_step(v, event, remaining, read, delivered, ended);
    let (next, action) = v.poll_read(event, remaining);
    let target = v.target.bytes();
    assert(bytes_delivered(action).len() == 0);
    if event is Poll {
        assert(v.pending.len() > 0);
        assert(false);
    }
    if event is Read && bytes_read(event).len() > 0 {
        assert(v.state.feed(bytes_read(event), target).1.len() > 0);
        assert(false);
    }
    assert(next.pending =~= Seq::empty());
    assert(read + bytes_read(event) =~= read);
    assert(delivered + bytes_delivered(action) + next.pending =~= delivered);
}

/// What a transformer has handed out stays true however the inner stream goes on.
pub proof fn law_delivered_is_prefix(
    v: TransformerView,
    read: Seq<u8>,
    delivered: Seq<u8>,
    rest: Seq<u8>,
)
    requires
        tracks(v, read, delivered, false),
    ensures
        delivered.is_prefix_of(normalize(read + rest, v.target.bytes())),
{
    let target = v.target.bytes();
    law_feed_is_prefix(LineState::Text, read, rest, target);
    let (state, written) = LineState::Text.feed(read, target);
    assert(normalize(read + rest, target) =~= delivered + (v.pending + state.rest_of_stream(
        rest,
        target,
    )));
}

/// A transformer never hands out more than there is room for.
pub proof fn law_delivery_fits(v: TransformerView, event: ReadEventView, remaining: nat)
    ensures
        bytes_delivered(v.poll_read(event, remaining).1).len() <= remaining,
{
}

/// The target formats are the bytes 10, and 13 and 10.
pub proof fn law_target_bytes(eol: EndOfLine)
    ensures
        eol is Lf ==> eol.bytes() == seq![0x0au8],
        eol is Crlf ==> eol.bytes() == seq![0x0du8, 0x0au8],
{
}

/// A format has one name, and no other word stands for a format.
pub proof fn law_names_of_formats(name: Seq<char>)
    ensures
        EndOfLine::named(name) == Some(EndOfLine::Lf) <==> name == seq!['l', 'f'],
        EndOfLine::named(name) == Some(EndOfLine::Crlf) <==> name == seq!['c', 'r', 'l', 'f'],
{
    reveal_strlit("lf");
    reveal_strlit("crlf");
    assert("lf"@ =~= seq!['l', 'f']);
    assert("crlf"@ =~= seq!['c', 'r', 'l', 'f']);
    assert(seq!['l', 'f'].len() != seq!['c', 'r', 'l', 'f'].len());
}

/// The bytes of text before anything are kept, whatever follows them.
pub proof fn law_text_is_kept_before(text: Seq<u8>, rest: Seq<u8>, target: Seq<u8>)
    requires
        forall|i: int| 0 <= i < text.len() ==> text[i] != 0x0d && text[i] != 0x0a,
    ensures
        normalize(text + rest, target) == text + normalize(rest, target),
    decreases text.len(),
{
    let all = text + rest;
    if text.len() == 0 {
        assert(all =~= rest);
        assert(text + normalize(rest, target) =~= normalize(rest, target));
    } else {
        let tail = text.skip(1);
        law_text_is_kept_before(tail, rest, target);
        assert(all[0] == text[0]);
        assert(all.skip(1) =~= tail + rest);
        assert(seq![text[0]] + (tail + normalize(rest, target)) =~= text + normalize(rest, target));
    }
}

/// Each line ending at the start gives one target, whatever follows it: a CR that is followed by no
/// LF, an LF that is followed by no CRLF, a CRLF, and an LF with the CRLF that follows it. And
/// nothing gives nothing.
pub proof fn law_each_ending_gives_one_target(ending: Seq<u8>, rest: Seq<u8>, target: Seq<u8>)
    requires
        ({
            ||| ending == seq![0x0du8] && !(rest.len() >= 1 && rest[0] == 0x0a)
            ||| ending == seq![0x0au8] && !(rest.len() >= 2 && rest[0] == 0x0d && rest[1] == 0x0a)
            ||| ending == seq![0x0du8, 0x0au8]
            ||| ending == seq![0x0au8, 0x0du8, 0x0au8]
        }),
    ensures
        normalize(ending + rest, target) == target + normalize(rest, target),
        normalize(Seq::empty(), target) == Seq::<u8>::empty(),
{
    let all = ending + rest;
    assert(all.skip(ending.len() as int) =~= rest);
    assert(all[0] == ending[0]);
    if rest.len() >= 1 {
        assert(all[ending.len() as int] == rest[0]);
    }
    if rest.len() >= 2 {
        assert(all[ending.len() as int + 1] == rest[1]);
    }
}

/// `lines`, with one of `endings` between each and the next.
pub open spec fn joined(lines: Seq<Seq<u8>>, endings: Seq<Seq<u8>>) -> Seq<u8>
    decreases endings.len(),
{
    if endings.len() == 0 {
        lines[0]
    } else {
        lines[0] + (endings[0] + joined(lines.skip(1), endings.skip(1)))
    }
}

/// `lines` are lines of text, and `endings` are the line endings between them, no two of which run
/// together to one.
pub open spec fn are_lines(lines: Seq<Seq<u8>>, endings: Seq<Seq<u8>>) -> bool {
    &&& lines.len() == endings.len() + 1
    &&& forall|i: int, j: int|
        0 <= i < lines.len() && 0 <= j < lines[i].len() ==> #[trigger] lines[i][j] != 0x0d
            && lines[i][j] != 0x0a
    &&& forall|i: int| #![trigger endings[i]]
        0 <= i < endings.len() ==> endings[i] == seq![0x0au8] || endings[i] == seq![0x0du8]
            || endings[i] == seq![0x0du8, 0x0au8]
    &&& forall|i: int| #![trigger lines[i]]
        0 < i < endings.len() && lines[i].len() == 0 ==> {
            &&& !(endings[i - 1] == seq![0x0du8] && endings[i] == seq![0x0au8])
            &&& !(endings[i - 1] == seq![0x0au8] && endings[i] == seq![0x0du8, 0x0au8])
        }
}

/// All lines but the first, and the line endings between them, are lines too.
proof fn lemma_lines_after_first(lines: Seq<Seq<u8>>, endings: Seq<Seq<u8>>)
    requires
        are_lines(lines, endings),
        endings.len() > 0,
    ensures
        are_lines(lines.skip(1), endings.skip(1)),
{
    let l = lines.skip(1);
    let e = endings.skip(1);
    assert forall|i: int, j: int| 0 <= i < l.len() && 0 <= j < l[i].len() implies
        #[trigger] l[i][j] != 0x0d && l[i][j] != 0x0a by {
        assert(lines[i + 1][j] == l[i][j]);
    }
    assert forall|i: int| #![trigger e[i]] 0 <= i < e.len() implies e[i] == seq![0x0au8] || e[i]
        == seq![0x0du8] || e[i] == seq![0x0du8, 0x0au8] by {
        assert(e[i] == endings[i + 1]);
    }
    assert forall|i: int| #![trigger l[i]] 0 < i < e.len() && l[i].len() == 0 implies {
        &&& !(e[i - 1] == seq![0x0du8] && e[i] == seq![0x0au8])
        &&& !(e[i - 1] == seq![0x0au8] && e[i] == seq![0x0du8, 0x0au8])
    } by {
        assert(l[i] == lines[i + 1]);
    }
}

/// Normalization keeps every line, empty ones among them, and replaces every line ending between two
/// lines by the target, where no two line endings run together to one.
pub proof fn law_lines_are_kept(
    lines: Seq<Seq<u8>>,
    endings: Seq<Seq<u8>>,
    target: Seq<u8>,
    targets: Seq<Seq<u8>>,
)
    requires
        are_lines(lines, endings),
        targets.len() == endings.len(),
        forall|i: int| 0 <= i < targets.len() ==> #[trigger] targets[i] == target,
    ensures
        normalize(joined(lines, endings), target) == joined(lines, targets),
    decreases endings.len(),
{
    assert forall|j: int| 0 <= j < lines[0].len() implies lines[0][j] != 0x0d && lines[0][j]
        != 0x0a by {}
    if endings.len() == 0 {
        law_text_is_kept_before(lines[0], Seq::empty(), target);
        assert(lines[0] + Seq::<u8>::empty() =~= lines[0]);
        assert(normalize(Seq::empty(), target) =~= Seq::empty());
    } else {
        let l = lines.skip(1);
        let e = endings.skip(1);
        let t = targets.skip(1);
        let rest = joined(l, e);
        lemma_lines_after_first(lines, endings);
        assert forall|i: int| 0 <= i < t.len() implies #[trigger] t[i] == target by {
            assert(t[i] == targets[i + 1]);
        }
        law_lines_are_kept(l, e, target, t);
        lemma_start_of_joined(l, e);
        assert(l[0] == lines[1]);
        if e.len() > 0 {
            assert(e[0] == endings[1]);
            if l[0].len() > 0 {
                assert(l[0][0] != 0x0d && l[0][0] != 0x0a);
            }
        } else if l[0].len() > 0 {
            assert(l[0][0] != 0x0d && l[0][0] != 0x0a);
        }
        law_each_ending_gives_one_target(endings[0], rest, target);
        law_text_is_kept_before(lines[0], endings[0] + rest, target);
        assert(targets[0] == target);
    }
}

/// What lines that are joined start with: the first byte of text of the first line, or else the
/// first line ending, which is followed by an LF only where that begins another one.
proof fn lemma_start_of_joined(lines: Seq<Seq<u8>>, endings: Seq<Seq<u8>>)
    requires
        are_lines(lines, endings),
    ensures
        ({
            let s = joined(lines, endings);
            &&& lines[0].len() > 0 ==> s.len() > 0 && s[0] == lines[0][0]
            &&& lines[0].len() == 0 && endings.len() == 0 ==> s.len() == 0
            &&& lines[0].len() == 0 && endings.len() > 0 ==> s.len() > 0 && s[0] == endings[0][0]
            &&& lines[0].len() == 0 && endings.len() > 0 && s.len() >= 2 && s[0] == 0x0d && s[1]
                == 0x0a ==> endings[0] == seq![0x0du8, 0x0au8]
        }),
    decreases endings.len(),
{
    let s = joined(lines, endings);
    if endings.len() > 0 {
        let l = lines.skip(1);
        let e = endings.skip(1);
        lemma_lines_after_first(lines, endings);
        lemma_start_of_joined(l, e);
        let rest = joined(l, e);
        assert(s =~= lines[0] + endings[0] + rest);
        assert(l[0] == lines[1]);
        if l[0].len() > 0 {
            assert(l[0][0] != 0x0d && l[0][0] != 0x0a);
        }
        if e.len() > 0 {
            assert(e[0] == endings[1]);
        }
    }
}

/// `read` ends in a CR that directly follows a lone LF.
pub open spec fn ends_in_open_pair(read: Seq<u8>) -> bool {
    let n = read.len() as int;
    &&& n >= 2 && read[n - 2] == 0x0a && read[n - 1] == 0x0d
    &&& !(n >= 3 && read[n - 3] == 0x0d)
}

/// All that has been read is written at once, normalized, but for the separator of a CR that
/// directly follows a lone LF, which waits for the next byte.
pub proof fn law_nothing_else_is_held_back(read: Seq<u8>, target: Seq<u8>)
    ensures
        ({
            let written = LineState::Text.feed(read, target).1;
            normalize(read, target) == if ends_in_open_pair(read) {
                written + target
            } else {
                written
            }
        }),
{
    law_last_bytes_decide(read, target);
    law_stream_is_normalized(read, target);
    let (state, written) = LineState::Text.feed(read, target);
    assert(written + Seq::<u8>::empty() =~= written);
}

/// The state follows from the last three bytes that were read.
pub proof fn law_last_bytes_decide(read: Seq<u8>, target: Seq<u8>)
    ensures
        ({
            let state = LineState::Text.feed(read, target).0;
            let n = read.len() as int;
            let after_cr = n >= 2 && read[n - 2] == 0x0d;
            &&& state is AfterLfCr <==> ends_in_open_pair(read)
            &&& state is AfterCr <==> n >= 1 && read[n - 1] == 0x0d && !ends_in_open_pair(read)
            &&& state is AfterLf <==> n >= 1 && read[n - 1] == 0x0a && !after_cr
        }),
    decreases read.len(),
{
    if read.len() > 0 {
        law_last_bytes_decide(read.drop_last(), target);
    }
}

/// A transformer waits exactly where the inner reader has nothing yet, and fails exactly where the
/// inner reader has failed. Neither changes it, and nothing changes the target.
pub proof fn law_waits_and_fails_with_inner(
    v: TransformerView,
    event: ReadEventView,
    remaining: nat,
)
    ensures
        v.poll_read(event, remaining).1 is Pend <==> event is Pending,
        v.poll_read(event, remaining).1 is Fail <==> event is Failed,
        event is Pending || event is Failed ==> v.poll_read(event, remaining).0 == v,
        v.poll_read(event, remaining).0.target == v.target,
{
}

/// A poll of a transformer that holds bytes hands out as many of them as there is room for, from the
/// first on, and keeps the others. Where it holds none, the inner reader is asked, and nothing
/// changes.
pub proof fn law_poll_hands_out_what_is_held(v: TransformerView, remaining: nat)
    ensures
        ({
            let (next, action) = v.poll_read(ReadEventView::Poll, remaining);
            &&& next.state == v.state
            &&& if v.pending.len() == 0 {
                action is ReadInner && next == v
            } else {
                &&& action matches ReadActionView::Deliver(bytes)
                &&& bytes + next.pending == v.pending
                &&& bytes.len() <= remaining
                &&& next.pending.len() > 0 ==> bytes.len() == remaining
            }
        }),
{
    let (next, action) = v.poll_read(ReadEventView::Poll, remaining);
    if v.pending.len() > 0 {
        assert(action->Deliver_0 + next.pending =~= v.pending);
    }
}

/// Bytes that are read are handed out in their new form as far as there is room, and the others are
/// kept. The inner reader is asked again exactly where they add nothing.
pub proof fn law_read_hands_out_new_form(v: TransformerView, bytes: Seq<u8>, remaining: nat)
    requires
        bytes.len() > 0,
    ensures
        ({
            let (next, action) = v.poll_read(ReadEventView::Read(bytes), remaining);
            let (state, written) = v.state.feed(bytes, v.target.bytes());
            &&& next.state == state
            &&& if written.len() == 0 {
                action is ReadInner && next.pending == written
            } else {
                &&& action matches ReadActionView::Deliver(out)
                &&& out + next.pending == written
                &&& out.len() <= remaining
                &&& next.pending.len() > 0 ==> out.len() == remaining
            }
        }),
{
    let (next, action) = v.poll_read(ReadEventView::Read(bytes), remaining);
    let (state, written) = v.state.feed(bytes, v.target.bytes());
    if written.len() > 0 {
        assert(action->Deliver_0 + next.pending =~= written);
    }
}

/// At the end of the inner stream the target is handed out for a CR after a lone LF, which is then
/// like any other CR. Otherwise nothing is handed out and nothing changes, so the stream may go on.
/// A read of nothing without room is no end.
pub proof fn law_end_completes_open_pair(v: TransformerView, remaining: nat)
    requires
        v.pending.len() == 0,
    ensures
        ({
            let (next, action) = v.poll_read(ReadEventView::Read(Seq::empty()), remaining);
            &&& action matches ReadActionView::Deliver(out)
            &&& out.len() <= remaining
            &&& if remaining > 0 && v.state is AfterLfCr {
                &&& out + next.pending == v.target.bytes()
                &&& next.pending.len() > 0 ==> out.len() == remaining
                &&& next.state is AfterCr
            } else {
                out.len() == 0 && next == v
            }
        }),
{
    let (next, action) = v.poll_read(ReadEventView::Read(Seq::empty()), remaining);
    let out = action->Deliver_0;
    if remaining > 0 {
        assert(out + next.pending =~= v.state.finish(v.target.bytes()).1);
        assert(v.state !is AfterLfCr ==> next.pending =~= v.pending);
    }
}

/// Events and actions are taken for what they are.
pub proof fn law_events_and_actions(bytes: &[u8], out: Vec<u8>)
    ensures
        ReadEvent::Poll@ is Poll,
        ReadEvent::Read(bytes)@ == ReadEventView::Read(bytes@),
        ReadEvent::Failed@ is Failed,
        ReadEvent::Pending@ is Pending,
        ReadAction::ReadInner@ is ReadInner,
        ReadAction::Deliver(out)@ == ReadActionView::Deliver(out@),
        ReadAction::Fail@ is Fail,
        ReadAction::Pend@ is Pend,
{
}

} // verus!
