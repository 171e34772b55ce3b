//! Splitting a received byte buffer into RESP array frames.
//!
//! A frame is `*<count>\r\n` followed by `count` arguments, each written
//! `$<length>\r\n<bytes>\r\n`. Bytes before a `*` are skipped. The scanner
//! reports, in order, every irregularity it meets, and collects the frames
//! whose arguments all decoded.

use vstd::prelude::*;
use vstd::slice::slice_subrange;
use vstd::string::StringSliceAdditionalSpecFns;
use vstd::utf8::valid_utf8;
use core::str::Utf8Error;

use crate::resp::{CR, DOLLAR, STAR, ZERO};
use crate::utf8::utf8_error_of;

verus! {

/// What the scanner reports while it walks the buffer.
#[derive(Debug, Clone, Copy, PartialEq, Eq)]
pub enum ScanEvent {
    /// A `*` with nothing but its count after it ("alone *").
    AloneStar,
    /// A byte below `'0'` inside the argument count ("error args len").
    ErrorArgsLen,
    /// The buffer ended before all announced arguments ("args too much").
    ArgsTooMuch,
    /// An argument does not start with `$` ("error arg start").
    ErrorArgStart,
    /// A `$` with nothing but its length after it ("alone $").
    AloneDollar,
    /// A byte below `'0'` inside an argument length ("error arg len").
    ErrorArgLen,
    /// An argument runs up to or past the end of the buffer ("arg len too much").
    ArgLenTooMuch,
    /// An argument is not valid UTF-8; the decoder's error.
    InvalidUtf8(Utf8Error),
    /// Fewer arguments decoded than the frame announced ("args len not the real len").
    ArgsLenMismatch,
    /// The bytes consumed disagree with the sizes read ("error buffer end").
    ErrorBufferEnd,
}

/// The result of scanning a buffer: the events met, in order, and the
/// frames accepted, in order.
pub struct FrameScan<'a> {
    pub events: Vec<ScanEvent>,
    pub frames: Vec<Vec<&'a str>>,
}

/// `count` copies of one event.
pub open spec fn repeat_event(ev: ScanEvent, count: nat) -> Seq<ScanEvent> {
    Seq::new(count, |_k: int| ev)
}

/// The bytes of each word of each frame.
pub open spec fn frames_bytes(frames: Seq<Vec<&str>>) -> Seq<Seq<Seq<u8>>> {
    frames.map_values(|f: Vec<&str>| f@.map_values(|s: &str| s.spec_bytes()))
}

/// The outcome of reading a count (after a `*`) or a length (after a `$`).
pub enum CountSpec {
    /// The buffer ended before a `\r`; `errs` bytes below `'0'` were met.
    Alone { errs: nat },
    /// A `\r` at position `cr` ended the number `value`; `errs` bytes below
    /// `'0'` were met and skipped.
    Found { value: nat, cr: int, errs: nat },
    /// The number does not fit in a `usize`.
    Overflow,
}

/// Reads a number from position `i` on, with `acc` read so far: every byte
/// from `'0'` up adds `byte - '0'` as a decimal digit (bytes above `'9'`
/// included), a byte below `'0'` is counted as an error and skipped, and
/// `\r` ends the number.
pub open spec fn count_from(buf: Seq<u8>, i: int, acc: nat, errs: nat) -> CountSpec
    decreases buf.len() - i,
{
    if i < 0 || i >= buf.len() {
        CountSpec::Alone { errs }
    } else if buf[i] == CR {
        CountSpec::Found { value: acc, cr: i, errs }
    } else if buf[i] < ZERO {
        count_from(buf, i + 1, acc, errs + 1)
    } else if acc * 10 + (buf[i] - ZERO) > usize::MAX {
        CountSpec::Overflow
    } else {
        count_from(buf, i + 1, (acc * 10 + (buf[i] - ZERO)) as nat, errs)
    }
}

/// The outcome of reading the arguments of one frame.
pub enum ArgsSpec {
    /// A number overflowed.
    Overflow,
    /// The buffer ended: scanning stops after `events`.
    Stop { events: Seq<ScanEvent> },
    /// The frame is abandoned; scanning resumes at `next`.
    Resume { events: Seq<ScanEvent>, next: int },
    /// All announced arguments were read; `args` are those that decoded.
    Done { events: Seq<ScanEvent>, next: int, args: Seq<Seq<u8>> },
}

/// Reads `remaining` more arguments from position `i`, with the frame's
/// events and decoded arguments so far.
pub open spec fn args_from(
    buf: Seq<u8>,
    i: int,
    remaining: nat,
    events: Seq<ScanEvent>,
    args: Seq<Seq<u8>>,
) -> ArgsSpec
    decreases remaining,
{
    if remaining == 0 {
        ArgsSpec::Done { events, next: i, args }
    } else if i >= buf.len() {
        ArgsSpec::Stop { events: events.push(ScanEvent::ArgsTooMuch) }
    } else if buf[i] != DOLLAR {
        ArgsSpec::Resume { events: events.push(ScanEvent::ErrorArgStart), next: i }
    } else {
        match count_from(buf, i + 1, 0, 0) {
            CountSpec::Overflow => ArgsSpec::Overflow,
            CountSpec::Alone { errs } => ArgsSpec::Stop {
                events: (events + repeat_event(ScanEvent::ErrorArgLen, errs)).push(
                    ScanEvent::AloneDollar,
                ),
            },
            CountSpec::Found { value, cr, errs } => {
                let j = cr + 2;
                let ev = events + repeat_event(ScanEvent::ErrorArgLen, errs);
                if j + value > usize::MAX {
                    ArgsSpec::Overflow
                } else if j + value >= buf.len() {
                    ArgsSpec::Resume { events: ev.push(ScanEvent::ArgLenTooMuch), next: j }
                } else {
                    let bytes = buf.subrange(j, j + value);
                    if valid_utf8(bytes) {
                        args_from(buf, j + value + 2, (remaining - 1) as nat, ev, args.push(bytes))
                    } else {
                        args_from(
                            buf,
                            j + value + 2,
                            (remaining - 1) as nat,
                            ev.push(ScanEvent::InvalidUtf8(utf8_error_of(bytes))),
                            args,
                        )
                    }
                }
            },
        }
    }
}

/// The outcome of one frame that starts with the `*` at `start`.
pub enum FrameSpec {
    Overflow,
    Stop { events: Seq<ScanEvent> },
    Resume { events: Seq<ScanEvent>, next: int, frame: Seq<Seq<Seq<u8>>> },
}

/// One frame: its count, then its arguments; the frame is accepted (as a
/// one-element `frame`) only when every announced argument decoded.
pub open spec fn frame_at(buf: Seq<u8>, start: int) -> FrameSpec {
    match count_from(buf, start + 1, 0, 0) {
        CountSpec::Overflow => FrameSpec::Overflow,
        CountSpec::Alone { errs } => FrameSpec::Stop {
            events: repeat_event(ScanEvent::ErrorArgsLen, errs).push(ScanEvent::AloneStar),
        },
        CountSpec::Found { value, cr, errs } => match args_from(
            buf,
            cr + 2,
            value,
            repeat_event(ScanEvent::ErrorArgsLen, errs),
            seq![],
        ) {
            ArgsSpec::Overflow => FrameSpec::Overflow,
            ArgsSpec::Stop { events } => FrameSpec::Stop { events },
            ArgsSpec::Resume { events, next } => FrameSpec::Resume { events, next, frame: seq![] },
            ArgsSpec::Done { events, next, args } => if args.len() != value {
                FrameSpec::Resume {
                    events: events.push(ScanEvent::ArgsLenMismatch),
                    next,
                    frame: seq![],
                }
            } else {
                FrameSpec::Resume { events, next, frame: seq![args] }
            },
        },
    }
}

/// The outcome of scanning a whole buffer.
pub enum ScanSpec {
    /// A number overflowed a `usize`.
    Overflow,
    /// The events met and the frames accepted.
    Done { events: Seq<ScanEvent>, frames: Seq<Seq<Seq<u8>>> },
}

/// A number that is found ends at a `\r` at or after where reading began.
pub proof fn lemma_count_from_after(buf: Seq<u8>, i: int, acc: nat, errs: nat)
    requires
        0 <= i,
    ensures
        count_from(buf, i, acc, errs) matches CountSpec::Found { cr, .. } ==> i <= cr < buf.len()
            && buf[cr] == CR,
    decreases buf.len() - i,
{
    if i < buf.len() && buf[i] != CR {
        if buf[i] < ZERO {
            lemma_count_from_after(buf, i + 1, acc, errs + 1);
        } else if acc * 10 + (buf[i] - ZERO) <= usize::MAX {
            lemma_count_from_after(buf, i + 1, (acc * 10 + (buf[i] - ZERO)) as nat, errs);
        }
    }
}

/// Reading arguments resumes no earlier than it began and at most one
/// byte past the buffer's end.
pub proof fn lemma_args_from_after(
    buf: Seq<u8>,
    i: int,
    remaining: nat,
    events: Seq<ScanEvent>,
    args: Seq<Seq<u8>>,
)
    requires
        0 <= i <= buf.len() + 1,
    ensures
        args_from(buf, i, remaining, events, args) matches ArgsSpec::Resume { next, .. } ==> i
            <= next <= buf.len() + 1,
        args_from(buf, i, remaining, events, args) matches ArgsSpec::Done { next, .. } ==> i
            <= next <= buf.len() + 1,
    decreases remaining,
{
    if remaining > 0 && i < buf.len() && buf[i] == DOLLAR {
        lemma_count_from_after(buf, i + 1, 0, 0);
        if let CountSpec::Found { value, cr, errs } = count_from(buf, i + 1, 0, 0) {
            let j = cr + 2;
            let ev = events + repeat_event(ScanEvent::ErrorArgLen, errs);
            if j + value <= usize::MAX && j + value < buf.len() {
                let bytes = buf.subrange(j, j + value);
                if valid_utf8(bytes) {
                    lemma_args_from_after(
                        buf,
                        j + value + 2,
                        (remaining - 1) as nat,
                        ev,
                        args.push(bytes),
                    );
                } else {
                    lemma_args_from_after(
                        buf,
                        j + value + 2,
                        (remaining - 1) as nat,
                        ev.push(ScanEvent::InvalidUtf8(utf8_error_of(bytes))),
                        args,
                    );
                }
            }
        }
    }
}

/// A frame that resumes scanning does so past its own `*`.
pub proof fn lemma_frame_at_advances(buf: Seq<u8>, start: int)
    requires
        0 <= start < buf.len(),
    ensures
        frame_at(buf, start) matches FrameSpec::Resume { next, .. } ==> start < next <= buf.len()
            + 1,
{
    lemma_count_from_after(buf, start + 1, 0, 0);
    if let CountSpec::Found { value, cr, errs } = count_from(buf, start + 1, 0, 0) {
        lemma_args_from_after(
            buf,
            cr + 2,
            value,
            repeat_event(ScanEvent::ErrorArgsLen, errs),
            seq![],
        );
    }
}

/// Scans from position `i` on, with the events and frames so far: bytes
/// other than `*` are skipped, a `*` starts a frame.
pub open spec fn scan_from(
    buf: Seq<u8>,
    i: int,
    events: Seq<ScanEvent>,
    frames: Seq<Seq<Seq<u8>>>,
) -> ScanSpec
    decreases buf.len() + 2 - i,
{
    if i < 0 || i >= buf.len() {
        ScanSpec::Done { events, frames }
    } else if buf[i] != STAR {
        scan_from(buf, i + 1, events, frames)
    } else {
        match frame_at(buf, i) {
            FrameSpec::Overflow => ScanSpec::Overflow,
            FrameSpec::Stop { events: ev } => ScanSpec::Done { events: events + ev, frames },
            FrameSpec::Resume { events: ev, next, frame } => {
                proof {
                    lemma_frame_at_advances(buf, i);
                }
                scan_from(buf, next, events + ev, frames + frame)
            },
        }
    }
}

/// The scan of a whole buffer.
pub open spec fn scan(buf: Seq<u8>) -> ScanSpec {
    scan_from(buf, 0, seq![], seq![])
}

/// The bytes of each word of a list of words.
pub open spec fn words_bytes(args: Seq<&str>) -> Seq<Seq<u8>> {
    args.map_values(|s: &str| s.spec_bytes())
}

/// The frames a scan step contributes: none, or one.
pub open spec fn step_frames(frame: Option<Vec<&str>>) -> Seq<Seq<Seq<u8>>> {
    match frame {
        Some(f) => seq![words_bytes(f@)],
        None => seq![],
    }
}

/// A number read after a `*` or a `$`.
enum Count {
    Alone,
    Found { value: usize, cr: usize },
}

/// What scanning one frame tells the caller.
enum Step<'a> {
    Stop,
    Resume { next: usize, frame: Option<Vec<&'a str>> },
}

/// Reads the number after the marker at `marker`, pushing `bad` for every
/// byte below `'0'`; `None` when the number overflows a `usize`.
fn read_count(buffer: &[u8], marker: usize, bad: ScanEvent, events: &mut Vec<ScanEvent>) -> (res:
    Option<Count>)
    requires
        marker < buffer@.len() < usize::MAX,
    ensures
        match count_from(buffer@, marker + 1, 0, 0) {
            CountSpec::Overflow => res is None,
            CountSpec::Alone { errs } => res matches Some(Count::Alone) && final(events)@ == old(
                events,
            )@ + repeat_event(bad, errs),
            CountSpec::Found { value, cr, errs } => res matches Some(
                Count::Found { value: v, cr: c },
            ) && v == value && c == cr && final(events)@ == old(events)@ + repeat_event(bad, errs),
        },
{
    let n = buffer.len();
    let mut i = marker;
    let mut acc: usize = 0;
    let ghost mut errs: nat = 0;
    loop
        invariant
            marker <= i < n,
            n == buffer@.len(),
            n < usize::MAX,
            count_from(buffer@, i + 1, acc as nat, errs) == count_from(buffer@, marker + 1, 0, 0),
            events@ == old(events)@ + repeat_event(bad, errs),
        decreases n - i,
    {
        i += 1;
        if i >= n {
            return Some(Count::Alone);
        }
        let b = buffer[i];
        if b == CR {
            return Some(Count::Found { value: acc, cr: i });
        }
        match b.checked_sub(ZERO) {
            Some(d) => {
                let d = d as usize;
                let m = match acc.checked_mul(10) {
                    Some(m) => m,
                    None => {
                        return None;
                    },
                };
                acc = match m.checked_add(d) {
                    Some(a) => a,
                    None => {
                        return None;
                    },
                };
            },
            None => {
                events.push(bad);
                proof {
                    assert(repeat_event(bad, errs).push(bad) =~= repeat_event(bad, errs + 1));
                    errs = errs + 1;
                }
            },
        }
    }
}

/// Scans the frame whose `*` is at `start`, pushing its events.
fn scan_frame<'a>(buffer: &'a [u8], start: usize, events: &mut Vec<ScanEvent>) -> (res: Option<
    Step<'a>,
>)
    requires
        start < buffer@.len() < usize::MAX,
    ensures
        match frame_at(buffer@, start as int) {
            FrameSpec::Overflow => res is None,
            FrameSpec::Stop { events: ev } => res matches Some(Step::Stop) && final(events)@ == old(
                events,
            )@ + ev,
            FrameSpec::Resume { events: ev, next, frame } => res matches Some(
                Step::Resume { next: nx, frame: f },
            ) && nx == next && step_frames(f) == frame && final(events)@ == old(events)@ + ev,
        },
{
    let n = buffer.len();
    let mut arg_buffer_size: usize = 0;
    let mut args: Vec<&'a str> = Vec::new();
    let (args_len, cr) = match read_count(buffer, start, ScanEvent::ErrorArgsLen, events) {
        None => {
            return None;
        },
        Some(Count::Alone) => {
            events.push(ScanEvent::AloneStar);
            return Some(Step::Stop);
        },
        Some(Count::Found { value, cr }) => (value, cr),
    };
    let ghost errs0: nat = match count_from(buffer@, start + 1, 0, 0) {
        CountSpec::Found { errs, .. } => errs,
        _ => 0,
    };
    let ghost target = args_from(
        buffer@,
        cr + 2,
        args_len as nat,
        repeat_event(ScanEvent::ErrorArgsLen, errs0),
        seq![],
    );
    let ghost mut local: Seq<ScanEvent> = repeat_event(ScanEvent::ErrorArgsLen, errs0);
    proof {
        lemma_count_from_after(buffer@, start + 1, 0, 0);
        assert(words_bytes(args@) =~= seq![]);
    }
    arg_buffer_size = arg_buffer_size + (cr - start + 2);
    let mut i = cr + 2;
    let mut k: usize = 0;
    while k < args_len
        invariant
            n == buffer@.len(),
            n < usize::MAX,
            start < i <= n + 1,
            k <= args_len,
            arg_buffer_size == i - start,
            args_from(buffer@, i as int, (args_len - k) as nat, local, words_bytes(args@))
                == target,
            events@ == old(events)@ + local,
            count_from(buffer@, start + 1, 0, 0) == (CountSpec::Found {
                value: args_len as nat,
                cr: cr as int,
                errs: errs0,
            }),
            target == args_from(
                buffer@,
                cr + 2,
                args_len as nat,
                repeat_event(ScanEvent::ErrorArgsLen, errs0),
                seq![],
            ),
        decreases args_len - k,
    {
        if i >= n {
            events.push(ScanEvent::ArgsTooMuch);
            return Some(Step::Stop);
        }
        if buffer[i] != DOLLAR {
            events.push(ScanEvent::ErrorArgStart);
            return Some(Step::Resume { next: i, frame: None });
        }
        let arg_start = i;
        let (str_len, arg_cr) = match read_count(buffer, i, ScanEvent::ErrorArgLen, events) {
            None => {
                return None;
            },
            Some(Count::Alone) => {
                events.push(ScanEvent::AloneDollar);
                return Some(Step::Stop);
            },
            Some(Count::Found { value, cr }) => (value, cr),
        };
        let ghost errs1: nat = match count_from(buffer@, i + 1, 0, 0) {
            CountSpec::Found { errs, .. } => errs,
            _ => 0,
        };
        proof {
            lemma_count_from_after(buffer@, i + 1, 0, 0);
            local = local + repeat_event(ScanEvent::ErrorArgLen, errs1);
        }
        arg_buffer_size = arg_buffer_size + (arg_cr - arg_start + 2);
        i = arg_cr + 2;
        let arg_end = match i.checked_add(str_len) {
            Some(e) => e,
            None => {
                return None;
            },
        };
        if arg_end >= n {
            events.push(ScanEvent::ArgLenTooMuch);
            return Some(Step::Resume { next: i, frame: None });
        }
        let str_buf = slice_subrange(buffer, i, i + str_len);
        match core::str::from_utf8(str_buf) {
            Ok(s) => {
                let ghost args_before = args@;
                args.push(s);
                proof {
                    assert(words_bytes(args@) =~= words_bytes(args_before).push(s.spec_bytes()));
                }
            },
            Err(e) => {
                events.push(ScanEvent::InvalidUtf8(e));
                proof {
                    local = local.push(ScanEvent::InvalidUtf8(e));
                }
            },
        }
        arg_buffer_size = arg_buffer_size + (str_len + 2);
        i = i + str_len + 2;
        k = k + 1;
    }
    if args.len() != args_len {
        events.push(ScanEvent::ArgsLenMismatch);
        return Some(Step::Resume { next: i, frame: None });
    } else if i - start != arg_buffer_size {
        events.push(ScanEvent::ErrorBufferEnd);
        return Some(Step::Resume { next: i, frame: None });
    }
    Some(Step::Resume { next: i, frame: Some(args) })
}

/// Splits a received buffer into frames. `None` exactly when a count, a
/// length, or the position where an argument ends overflows a `usize`;
/// otherwise the events and frames of [`scan`], each word of each frame a
/// string with the frame's bytes.
pub fn scan_frames<'a>(buffer: &'a [u8]) -> (res: Option<FrameScan<'a>>)
    requires
        buffer@.len() < usize::MAX,
    ensures
        match scan(buffer@) {
            ScanSpec::Overflow => res is None,
            ScanSpec::Done { events, frames } => res matches Some(r) && r.events@ == events
                && frames_bytes(r.frames@) == frames,
        },
{
    let n = buffer.len();
    let mut i: usize = 0;
    let mut events: Vec<ScanEvent> = Vec::new();
    let mut frames: Vec<Vec<&'a str>> = Vec::new();
    proof {
        assert(frames_bytes(frames@) =~= seq![]);
    }
    while i < n
        invariant
            n == buffer@.len(),
            n < usize::MAX,
            i <= n + 1,
            scan_from(buffer@, i as int, events@, frames_bytes(frames@)) == scan(buffer@),
        decreases n + 2 - i,
    {
        if buffer[i] != STAR {
            i += 1;
            continue;
        }
        match scan_frame(buffer, i, &mut events) {
            None => {
                return None;
            },
            Some(Step::Stop) => {
                return Some(FrameScan { events, frames });
            },
            Some(Step::Resume { next, frame }) => {
                proof {
                    lemma_frame_at_advances(buffer@, i as int);
                }
                let ghost frames_before = frames@;
                match frame {
                    Some(f) => {
                        frames.push(f);
                        proof {
                            assert(frames_bytes(frames@) =~= frames_bytes(frames_before)
                                + step_frames(Some(f)));
                        }
                    },
                    None => {
                        proof {
                            assert(frames_bytes(frames@) =~= frames_bytes(frames_before)
                                + step_frames(None));
                        }
                    },
                }
                i = next;
            },
        }
    }
    Some(FrameScan { events, frames })
}

} // verus!
