//! What the frame scanner guarantees of well-formed input: a stream of RESP
//! arrays of bulk strings, with any bytes other than `*` around and
//! between them, scans to exactly those arrays and reports nothing.

use vstd::prelude::*;
use vstd::utf8::valid_utf8;

use crate::utf8::utf8_error_of;
use crate::frame::{lemma_frame_at_advances, args_from, count_from, frame_at, repeat_event, scan, scan_from, ArgsSpec, CountSpec, FrameSpec, ScanEvent, ScanSpec};
use crate::resp::{CR, DOLLAR, LF, STAR, all_digits, array_frame, bulk_string, bulk_strings, decimal, digits_value, lemma_decimal};

verus! {

/// No byte is a `*`.
pub open spec fn no_star(g: Seq<u8>) -> bool {
    forall|k: int| 0 <= k < g.len() ==> #[trigger] g[k] != STAR
}

/// Every argument of every frame is valid UTF-8.
pub open spec fn all_valid_utf8(frames: Seq<Seq<Seq<u8>>>) -> bool {
    forall|f: int, a: int|
        0 <= f < frames.len() && 0 <= a < frames[f].len() ==> valid_utf8(#[trigger] frames[f][a])
}

/// Each frame encoded as an array, each preceded by its gap, then `tail`.
pub open spec fn frame_stream(
    frames: Seq<Seq<Seq<u8>>>,
    gaps: Seq<Seq<u8>>,
    tail: Seq<u8>,
) -> Seq<u8>
    decreases frames.len(),
{
    if frames.len() == 0 {
        tail
    } else {
        gaps[0] + array_frame(frames[0]) + frame_stream(
            frames.drop_first(),
            gaps.drop_first(),
            tail,
        )
    }
}

proof fn lemma_split(buf: Seq<u8>, i: int, x: Seq<u8>, y: Seq<u8>)
    requires
        0 <= i,
        i + x.len() + y.len() <= buf.len(),
        buf.subrange(i, i + x.len() + y.len()) == x + y,
    ensures
        buf.subrange(i, i + x.len()) == x,
        buf.subrange(i + x.len(), i + x.len() + y.len()) == y,
{
    let whole = buf.subrange(i, i + x.len() + y.len());
    assert forall|k: int| 0 <= k < x.len() implies buf.subrange(i, i + x.len())[k] == x[k] by {
        assert(whole[k] == (x + y)[k]);
    }
    assert forall|k: int| 0 <= k < y.len() implies buf.subrange(
        i + x.len(),
        i + x.len() + y.len(),
    )[k] == y[k] by {
        assert(whole[x.len() + k] == (x + y)[x.len() + k]);
    }
    assert(buf.subrange(i, i + x.len()) =~= x);
    assert(buf.subrange(i + x.len(), i + x.len() + y.len()) =~= y);
}

proof fn lemma_digits_prefix(d: Seq<u8>)
    requires
        all_digits(d),
        d.len() > 0,
    ensures
        digits_value(d.drop_last()) <= digits_value(d),
        all_digits(d.drop_last()),
{
    assert forall|k: int| 0 <= k < d.drop_last().len() implies 48 <= #[trigger] d.drop_last()[k]
        <= 57 by {
        assert(d.drop_last()[k] == d[k]);
    }
    assert(d[d.len() - 1] >= 48);
}

proof fn lemma_count_digits(buf: Seq<u8>, i: int, j: int, e: nat)
    requires
        0 <= i <= j <= buf.len(),
        all_digits(buf.subrange(i, j)),
        digits_value(buf.subrange(i, j)) <= usize::MAX,
    ensures
        count_from(buf, i, 0, e) == count_from(buf, j, digits_value(buf.subrange(i, j)), e),
    decreases j - i,
{
    let s = buf.subrange(i, j);
    if j == i {
        assert(s =~= Seq::<u8>::empty());
    } else {
        let s1 = buf.subrange(i, j - 1);
        assert(s.drop_last() =~= s1);
        lemma_digits_prefix(s);
        lemma_count_digits(buf, i, j - 1, e);
        assert(s[j - 1 - i] == buf[j - 1]);
        assert(48 <= buf[j - 1] <= 57);
    }
}

proof fn lemma_count_decimal(buf: Seq<u8>, i: int, v: nat, e: nat)
    requires
        0 <= i,
        i + decimal(v).len() < buf.len(),
        buf.subrange(i, i + decimal(v).len()) == decimal(v),
        buf[i + decimal(v).len()] == CR,
        v <= usize::MAX,
    ensures
        count_from(buf, i, 0, e) == (CountSpec::Found {
            value: v,
            cr: i + decimal(v).len(),
            errs: e,
        }),
{
    lemma_decimal(v);
    lemma_count_digits(buf, i, i + decimal(v).len(), e);
}

proof fn lemma_bulk_strings_len(args: Seq<Seq<u8>>)
    ensures
        bulk_strings(args).len() >= 6 * args.len(),
    decreases args.len(),
{
    if args.len() > 0 {
        lemma_decimal(args[0].len());
        lemma_bulk_strings_len(args.drop_first());
    }
}

proof fn lemma_args_bulks(
    buf: Seq<u8>,
    i: int,
    args: Seq<Seq<u8>>,
    r: nat,
    ev: Seq<ScanEvent>,
    acc: Seq<Seq<u8>>,
)
    requires
        0 <= i,
        r >= args.len(),
        buf.len() < usize::MAX,
        i + bulk_strings(args).len() <= buf.len(),
        buf.subrange(i, i + bulk_strings(args).len()) == bulk_strings(args),
        forall|k: int| 0 <= k < args.len() ==> valid_utf8(#[trigger] args[k]),
    ensures
        args_from(buf, i, r, ev, acc) == args_from(
            buf,
            i + bulk_strings(args).len(),
            (r - args.len()) as nat,
            ev,
            acc + args,
        ),
    decreases args.len(),
{
    if args.len() == 0 {
        assert(acc + args =~= acc);
    } else {
        let a = args[0];
        let rest = args.drop_first();
        let dec = decimal(a.len());
        lemma_decimal(a.len());
        let len_d = dec.len();
        let b = bulk_string(a);
        let s36 = seq![DOLLAR];
        let crlf = seq![CR, LF];
        assert(bulk_strings(args) == b + bulk_strings(rest));
        lemma_split(buf, i, b, bulk_strings(rest));
        assert(b == s36 + dec + crlf + a + crlf);
        lemma_split(buf, i, s36 + dec + crlf + a, crlf);
        lemma_split(buf, i, s36 + dec + crlf, a);
        lemma_split(buf, i, s36 + dec, crlf);
        lemma_split(buf, i, s36, dec);
        assert(buf[i] == buf.subrange(i, i + 1)[0]);
        assert(buf[i + 1 + len_d] == buf.subrange(i + 1 + len_d, i + 3 + len_d)[0]);
        assert(buf[i + 3 + len_d + a.len()] == buf.subrange(
            i + 3 + len_d + a.len(),
            i + 5 + len_d + a.len(),
        )[0]);
        lemma_count_decimal(buf, i + 1, a.len(), 0);
        let j = i + 3 + len_d;
        assert(ev + repeat_event(ScanEvent::ErrorArgLen, 0) =~= ev);
        assert(buf.subrange(j, j + a.len()) == a);
        assert forall|k: int| 0 <= k < rest.len() implies valid_utf8(#[trigger] rest[k]) by {
            assert(rest[k] == args[k + 1]);
        }
        lemma_args_bulks(buf, i + b.len(), rest, (r - 1) as nat, ev, acc.push(a));
        assert(acc.push(a) + rest =~= acc + args);
    }
}

proof fn lemma_frame_array(buf: Seq<u8>, start: int, args: Seq<Seq<u8>>)
    requires
        0 <= start,
        buf.len() < usize::MAX,
        start + array_frame(args).len() <= buf.len(),
        buf.subrange(start, start + array_frame(args).len()) == array_frame(args),
        forall|k: int| 0 <= k < args.len() ==> valid_utf8(#[trigger] args[k]),
    ensures
        frame_at(buf, start) == (FrameSpec::Resume {
            events: seq![],
            next: start + array_frame(args).len(),
            frame: seq![args],
        }),
{
    let dec = decimal(args.len());
    lemma_decimal(args.len());
    lemma_bulk_strings_len(args);
    let len_d = dec.len();
    let s42 = seq![STAR];
    let crlf = seq![CR, LF];
    assert(array_frame(args) == s42 + dec + crlf + bulk_strings(args));
    lemma_split(buf, start, s42 + dec + crlf, bulk_strings(args));
    lemma_split(buf, start, s42 + dec, crlf);
    lemma_split(buf, start, s42, dec);
    assert(buf[start + 1 + len_d] == buf.subrange(start + 1 + len_d, start + 3 + len_d)[0]);
    lemma_count_decimal(buf, start + 1, args.len(), 0);
    let base = repeat_event(ScanEvent::ErrorArgsLen, 0);
    lemma_args_bulks(buf, start + 3 + len_d, args, args.len(), base, seq![]);
    assert(seq![] + args =~= args);
    assert(base =~= seq![]);
}

proof fn lemma_scan_skip(
    buf: Seq<u8>,
    i: int,
    j: int,
    ev: Seq<ScanEvent>,
    fr: Seq<Seq<Seq<u8>>>,
)
    requires
        0 <= i <= j <= buf.len(),
        forall|k: int| i <= k < j ==> #[trigger] buf[k] != STAR,
    ensures
        scan_from(buf, i, ev, fr) == scan_from(buf, j, ev, fr),
    decreases j - i,
{
    if i < j {
        lemma_scan_skip(buf, i + 1, j, ev, fr);
    }
}

proof fn lemma_scan_stream_at(
    buf: Seq<u8>,
    p: int,
    frames: Seq<Seq<Seq<u8>>>,
    gaps: Seq<Seq<u8>>,
    tail: Seq<u8>,
    ev: Seq<ScanEvent>,
    fr: Seq<Seq<Seq<u8>>>,
)
    requires
        0 <= p,
        p + frame_stream(frames, gaps, tail).len() <= buf.len(),
        buf.len() < usize::MAX,
        buf.subrange(p, p + frame_stream(frames, gaps, tail).len()) == frame_stream(
            frames,
            gaps,
            tail,
        ),
        gaps.len() == frames.len(),
        forall|k: int| 0 <= k < gaps.len() ==> no_star(#[trigger] gaps[k]),
        no_star(tail),
        all_valid_utf8(frames),
    ensures
        scan_from(buf, p, ev, fr) == scan_from(
            buf,
            p + frame_stream(frames, gaps, tail).len(),
            ev,
            fr + frames,
        ),
    decreases frames.len(),
{
    let e = p + frame_stream(frames, gaps, tail).len();
    if frames.len() == 0 {
        assert forall|k: int| p <= k < e implies #[trigger] buf[k] != STAR by {
            assert(buf[k] == buf.subrange(p, e)[k - p]);
        }
        lemma_scan_skip(buf, p, e, ev, fr);
        assert(fr + frames =~= fr);
    } else {
        let g = gaps[0];
        let f = array_frame(frames[0]);
        let rest = frame_stream(frames.drop_first(), gaps.drop_first(), tail);
        assert(buf.subrange(p, e) == g + f + rest);
        lemma_split(buf, p, g + f, rest);
        lemma_split(buf, p, g, f);
        let q = p + g.len();
        assert(no_star(g));
        assert forall|k: int| p <= k < q implies #[trigger] buf[k] != STAR by {
            assert(buf[k] == buf.subrange(p, q)[k - p]);
        }
        lemma_scan_skip(buf, p, q, ev, fr);
        assert(buf[q] == buf.subrange(q, q + f.len())[0]);
        assert forall|k: int| 0 <= k < frames[0].len() implies valid_utf8(
            #[trigger] frames[0][k],
        ) by {
            assert(valid_utf8(frames[0][k]));
        }
        lemma_frame_array(buf, q, frames[0]);
        assert(ev + seq![] =~= ev);
        let fd = frames.drop_first();
        assert forall|x: int, a: int| 0 <= x < fd.len() && 0 <= a < fd[x].len() implies valid_utf8(
            #[trigger] fd[x][a],
        ) by {
            assert(fd[x] == frames[x + 1]);
        }
        assert forall|k: int| 0 <= k < gaps.drop_first().len() implies no_star(
            #[trigger] gaps.drop_first()[k],
        ) by {
            assert(gaps.drop_first()[k] == gaps[k + 1]);
        }
        lemma_scan_stream_at(buf, q + f.len(), fd, gaps.drop_first(), tail, ev, fr + seq![frames[0]]);
        assert(fr + seq![frames[0]] + fd =~= fr + frames);
    }
}

/// A stream of well-formed RESP arrays of bulk strings, each preceded by a
/// gap of bytes other than `*` and followed by a tail of such bytes, scans
/// to exactly those arrays, in order, with nothing reported; so a received
/// buffer of well-formed commands yields each command's words unchanged.
pub proof fn law_scan_well_formed_stream(
    frames: Seq<Seq<Seq<u8>>>,
    gaps: Seq<Seq<u8>>,
    tail: Seq<u8>,
)
    requires
        gaps.len() == frames.len(),
        forall|k: int| 0 <= k < gaps.len() ==> no_star(#[trigger] gaps[k]),
        no_star(tail),
        all_valid_utf8(frames),
        frame_stream(frames, gaps, tail).len() < usize::MAX,
    ensures
        scan(frame_stream(frames, gaps, tail)) == (ScanSpec::Done {
            events: seq![],
            frames,
        }),
{
    let buf = frame_stream(frames, gaps, tail);
    assert(buf.subrange(0, buf.len() as int) =~= buf);
    lemma_scan_stream_at(buf, 0, frames, gaps, tail, seq![], seq![]);
    assert(Seq::<Seq<Seq<u8>>>::empty() + frames =~= frames);
}

/// `whole` starts with `part`.
pub open spec fn starts_with(whole: Seq<Seq<Seq<u8>>>, part: Seq<Seq<Seq<u8>>>) -> bool {
    part.len() <= whole.len() && whole.subrange(0, part.len() as int) == part
}

proof fn lemma_scan_frames_grow(
    buf: Seq<u8>,
    i: int,
    events: Seq<ScanEvent>,
    frames: Seq<Seq<Seq<u8>>>,
)
    ensures
        scan_from(buf, i, events, frames) matches ScanSpec::Done { frames: all, .. }
            ==> starts_with(all, frames),
    decreases buf.len() + 2 - i,
{
    if 0 <= i < buf.len() {
        if buf[i] != STAR {
            lemma_scan_frames_grow(buf, i + 1, events, frames);
        } else {
            lemma_frame_at_advances(buf, i);
            match frame_at(buf, i) {
                FrameSpec::Resume { events: ev, next, frame } => {
                    lemma_scan_frames_grow(buf, next, events + ev, frames + frame);
                    if let ScanSpec::Done { frames: all, .. } = scan_from(
                        buf,
                        next,
                        events + ev,
                        frames + frame,
                    ) {
                        assert(all.subrange(0, frames.len() as int) =~= (frames + frame).subrange(
                            0,
                            frames.len() as int,
                        ));
                        assert((frames + frame).subrange(0, frames.len() as int) =~= frames);
                    }
                },
                _ => {
                    assert(frames.subrange(0, frames.len() as int) =~= frames);
                },
            }
        }
    } else {
        assert(frames.subrange(0, frames.len() as int) =~= frames);
    }
}

/// Frames already read are never lost: whatever bytes follow a
/// well-formed stream of arrays (even bytes that stop the scan, or a cut
/// off command), the frames the scan returns begin with that stream's
/// arrays, in order.
pub proof fn law_scan_keeps_frames_read(
    frames: Seq<Seq<Seq<u8>>>,
    gaps: Seq<Seq<u8>>,
    tail: Seq<u8>,
    rest: Seq<u8>,
)
    requires
        gaps.len() == frames.len(),
        forall|k: int| 0 <= k < gaps.len() ==> no_star(#[trigger] gaps[k]),
        no_star(tail),
        all_valid_utf8(frames),
        frame_stream(frames, gaps, tail).len() + rest.len() < usize::MAX,
    ensures
        scan(frame_stream(frames, gaps, tail) + rest) matches ScanSpec::Done { frames: all, .. }
            ==> starts_with(all, frames),
{
    let st = frame_stream(frames, gaps, tail);
    let buf = st + rest;
    assert(buf.subrange(0, st.len() as int) =~= st);
    lemma_scan_stream_at(buf, 0, frames, gaps, tail, seq![], seq![]);
    assert(Seq::<Seq<Seq<u8>>>::empty() + frames =~= frames);
    lemma_scan_frames_grow(buf, st.len() as int, seq![], frames);
}

/// An array header announcing `count` elements followed by only the
/// bulk strings `args`.
pub open spec fn truncated_frame(count: nat, args: Seq<Seq<u8>>) -> Seq<u8> {
    seq![STAR] + decimal(count) + seq![CR, LF] + bulk_strings(args)
}

/// A frame cut short (its header announces more elements than follow) is
/// abandoned at the first byte that does not start an element, and that
/// byte is read again: when a well-formed stream starting with an array
/// follows, the scan reports the missing element once and returns exactly
/// the stream's arrays.
pub proof fn law_truncated_frame_recovers(
    count: nat,
    args: Seq<Seq<u8>>,
    frames: Seq<Seq<Seq<u8>>>,
    gaps: Seq<Seq<u8>>,
    tail: Seq<u8>,
)
    requires
        args.len() < count <= usize::MAX,
        forall|k: int| 0 <= k < args.len() ==> valid_utf8(#[trigger] args[k]),
        frames.len() > 0,
        gaps.len() == frames.len(),
        gaps[0].len() == 0,
        forall|k: int| 0 <= k < gaps.len() ==> no_star(#[trigger] gaps[k]),
        no_star(tail),
        all_valid_utf8(frames),
        truncated_frame(count, args).len() + frame_stream(frames, gaps, tail).len() < usize::MAX,
    ensures
        scan(truncated_frame(count, args) + frame_stream(frames, gaps, tail)) == (ScanSpec::Done {
            events: seq![ScanEvent::ErrorArgStart],
            frames,
        }),
{
    let t = truncated_frame(count, args);
    let st = frame_stream(frames, gaps, tail);
    let buf = t + st;
    let dec = decimal(count);
    lemma_decimal(count);
    let len_d: int = dec.len() as int;
    let s42 = seq![STAR];
    let crlf = seq![CR, LF];
    assert(buf.subrange(0, t.len() as int) =~= t);
    assert(buf.subrange(t.len() as int, buf.len() as int) =~= st);
    lemma_split(buf, 0, s42 + dec + crlf, bulk_strings(args));
    lemma_split(buf, 0, s42 + dec, crlf);
    lemma_split(buf, 0, s42, dec);
    assert(buf[1 + len_d] == buf.subrange(1 + len_d, 3 + len_d)[0]);
    lemma_count_decimal(buf, 1, count, 0);
    let base = repeat_event(ScanEvent::ErrorArgsLen, 0);
    assert(base =~= seq![]);
    lemma_args_bulks(buf, 3 + len_d, args, count, base, seq![]);
    // The stream begins with its first array, whose first byte is `*`.
    assert(st == gaps[0] + array_frame(frames[0]) + frame_stream(
        frames.drop_first(),
        gaps.drop_first(),
        tail,
    ));
    assert(st[0] == array_frame(frames[0])[0]);
    assert(buf[t.len() as int] == st[0]);
    lemma_scan_stream_at(buf, t.len() as int, frames, gaps, tail, seq![ScanEvent::ErrorArgStart], seq![]);
    assert(Seq::<Seq<Seq<u8>>>::empty() + frames =~= frames);
    assert(base.push(ScanEvent::ErrorArgStart) =~= seq![ScanEvent::ErrorArgStart]);
    assert(Seq::<ScanEvent>::empty() + seq![ScanEvent::ErrorArgStart] =~= seq![ScanEvent::ErrorArgStart]);
    assert(Seq::<Seq<Seq<u8>>>::empty() + Seq::<Seq<Seq<u8>>>::empty() =~= Seq::<Seq<Seq<u8>>>::empty());
}

/// No event is the buffer-accounting complaint.
pub open spec fn no_buffer_end(events: Seq<ScanEvent>) -> bool {
    forall|k: int| 0 <= k < events.len() ==> !(#[trigger] events[k] is ErrorBufferEnd)
}

proof fn lemma_no_buffer_end_concat(a: Seq<ScanEvent>, b: Seq<ScanEvent>)
    requires
        no_buffer_end(a),
        no_buffer_end(b),
    ensures
        no_buffer_end(a + b),
{
    assert forall|k: int| 0 <= k < (a + b).len() implies !(#[trigger] (a + b)[k] is ErrorBufferEnd) by {
        if k < a.len() {
            assert((a + b)[k] == a[k]);
        } else {
            assert((a + b)[k] == b[k - a.len()]);
        }
    }
}

proof fn lemma_args_no_buffer_end(
    buf: Seq<u8>,
    i: int,
    remaining: nat,
    events: Seq<ScanEvent>,
    args: Seq<Seq<u8>>,
)
    requires
        no_buffer_end(events),
    ensures
        match args_from(buf, i, remaining, events, args) {
            ArgsSpec::Overflow => true,
            ArgsSpec::Stop { events } => no_buffer_end(events),
            ArgsSpec::Resume { events, .. } => no_buffer_end(events),
            ArgsSpec::Done { events, .. } => no_buffer_end(events),
        },
    decreases remaining,
{
    if remaining > 0 && i < buf.len() && buf[i] == DOLLAR {
        match count_from(buf, i + 1, 0, 0) {
            CountSpec::Overflow => {},
            CountSpec::Alone { errs } => {
                lemma_no_buffer_end_concat(events, repeat_event(ScanEvent::ErrorArgLen, errs));
                lemma_no_buffer_end_concat(
                    events + repeat_event(ScanEvent::ErrorArgLen, errs),
                    seq![ScanEvent::AloneDollar],
                );
            },
            CountSpec::Found { value, cr, errs } => {
                let j = cr + 2;
                let ev = events + repeat_event(ScanEvent::ErrorArgLen, errs);
                lemma_no_buffer_end_concat(events, repeat_event(ScanEvent::ErrorArgLen, errs));
                if j + value <= usize::MAX {
                    let bytes = buf.subrange(j, j + value);
                    if j + value >= buf.len() {
                        lemma_no_buffer_end_concat(ev, seq![ScanEvent::ArgLenTooMuch]);
                    } else if valid_utf8(bytes) {
                        lemma_args_no_buffer_end(
                            buf,
                            j + value + 2,
                            (remaining - 1) as nat,
                            ev,
                            args.push(bytes),
                        );
                    } else {
                        let bad = ScanEvent::InvalidUtf8(utf8_error_of(bytes));
                        lemma_no_buffer_end_concat(ev, seq![bad]);
                        assert(ev.push(bad) =~= ev + seq![bad]);
                        lemma_args_no_buffer_end(
                            buf,
                            j + value + 2,
                            (remaining - 1) as nat,
                            ev.push(bad),
                            args,
                        );
                    }
                }
            },
        }
    } else if remaining > 0 {
        lemma_no_buffer_end_concat(events, seq![ScanEvent::ArgsTooMuch]);
        lemma_no_buffer_end_concat(events, seq![ScanEvent::ErrorArgStart]);
    }
}

proof fn lemma_scan_no_buffer_end(
    buf: Seq<u8>,
    i: int,
    events: Seq<ScanEvent>,
    frames: Seq<Seq<Seq<u8>>>,
)
    requires
        no_buffer_end(events),
    ensures
        scan_from(buf, i, events, frames) matches ScanSpec::Done { events, .. } ==> no_buffer_end(
            events,
        ),
    decreases buf.len() + 2 - i,
{
    if 0 <= i < buf.len() {
        if buf[i] != STAR {
            lemma_scan_no_buffer_end(buf, i + 1, events, frames);
        } else {
            lemma_frame_at_advances(buf, i);
            match count_from(buf, i + 1, 0, 0) {
                CountSpec::Overflow => {},
                CountSpec::Alone { errs } => {
                    let ev = repeat_event(ScanEvent::ErrorArgsLen, errs);
                    lemma_no_buffer_end_concat(ev, seq![ScanEvent::AloneStar]);
                    lemma_no_buffer_end_concat(events, ev.push(ScanEvent::AloneStar));
                },
                CountSpec::Found { value, cr, errs } => {
                    let base = repeat_event(ScanEvent::ErrorArgsLen, errs);
                    lemma_args_no_buffer_end(buf, cr + 2, value, base, seq![]);
                    match args_from(buf, cr + 2, value, base, seq![]) {
                        ArgsSpec::Overflow => {},
                        ArgsSpec::Stop { events: ev } => {
                            lemma_no_buffer_end_concat(events, ev);
                        },
                        ArgsSpec::Resume { events: ev, next } => {
                            lemma_no_buffer_end_concat(events, ev);
                            lemma_scan_no_buffer_end(buf, next, events + ev, frames);
                        },
                        ArgsSpec::Done { events: ev, next, args } => {
                            lemma_no_buffer_end_concat(ev, seq![ScanEvent::ArgsLenMismatch]);
                            lemma_no_buffer_end_concat(events, ev);
                            lemma_no_buffer_end_concat(events, ev.push(ScanEvent::ArgsLenMismatch));
                            if args.len() != value {
                                lemma_scan_no_buffer_end(
                                    buf,
                                    next,
                                    events + ev.push(ScanEvent::ArgsLenMismatch),
                                    frames,
                                );
                            } else {
                                lemma_scan_no_buffer_end(
                                    buf,
                                    next,
                                    events + ev,
                                    frames + seq![args],
                                );
                            }
                        },
                    }
                },
            }
        }
    }
}

/// The bytes a frame consumes always equal the sizes read from it, so the
/// scanner never reports "error buffer end", whatever the buffer holds.
pub proof fn law_no_buffer_end_event(buf: Seq<u8>)
    ensures
        scan(buf) matches ScanSpec::Done { events, .. } ==> no_buffer_end(events),
{
    lemma_scan_no_buffer_end(buf, 0, seq![], seq![]);
}

} // verus!
