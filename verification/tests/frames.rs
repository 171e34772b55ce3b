use rudis::frame::{scan_frames, FrameScan, ScanEvent};

fn scan(input: &[u8]) -> FrameScan<'_> {
    scan_frames(input).expect("no number in these inputs overflows")
}

#[test]
fn get_frame_scans_to_its_words() {
    let s = scan(b"*2\r\n$3\r\nGET\r\n$2\r\nme\r\n");
    assert!(s.events.is_empty());
    assert_eq!(s.frames, vec![vec!["GET", "me"]]);
}

#[test]
fn set_frame_with_options_scans_to_its_words() {
    let s = scan(b"*5\r\n$3\r\nSET\r\n$2\r\nme\r\n$5\r\nrudis\r\n$2\r\nPX\r\n$1\r\n2\r\n");
    assert!(s.events.is_empty());
    assert_eq!(s.frames, vec![vec!["SET", "me", "rudis", "PX", "2"]]);
}

#[test]
fn words_beyond_the_count_are_skipped() {
    let s = scan(b"*3\r\n$3\r\nSET\r\n$2\r\nme\r\n$5\r\nrudis\r\n$2\r\nXX\r\n");
    assert!(s.events.is_empty());
    assert_eq!(s.frames, vec![vec!["SET", "me", "rudis"]]);
}

#[test]
fn bytes_before_and_after_a_frame_are_skipped() {
    let s = scan(b"asdw2*3\r\n$3\r\nSET\r\n$5\r\nerror\r\n$2\r\n02\r\nssss");
    assert!(s.events.is_empty());
    assert_eq!(s.frames, vec![vec!["SET", "error", "02"]]);
}

#[test]
fn stream_of_frames_scans_in_order() {
    let s = scan(b"xx*1\r\n$4\r\nPING\r\n-*2\r\n$3\r\nGET\r\n$1\r\nk\r\nzz");
    assert!(s.events.is_empty());
    assert_eq!(s.frames, vec![vec!["PING"], vec!["GET", "k"]]);
}

#[test]
fn empty_array_is_a_frame() {
    let s = scan(b"*0\r\n");
    assert!(s.events.is_empty());
    assert_eq!(s.frames, vec![Vec::<&str>::new()]);
}

#[test]
fn length_line_with_stray_byte_loses_the_next_argument_start() {
    let s = scan(b"*3\r\n$3\r\nSET\r\n$5\rs\nerror\r\n$2\r\n03\r\n");
    assert_eq!(s.events, vec![ScanEvent::ErrorArgStart]);
    assert!(s.frames.is_empty());
}

#[test]
fn wrong_length_loses_the_next_argument_start() {
    let s = scan(b"*3\r\n$3\r\nSET\r\n$5\r\nerro\r\n$2\r\n05\r\n");
    assert_eq!(s.events, vec![ScanEvent::ErrorArgStart]);
    assert!(s.frames.is_empty());
}

#[test]
fn missing_newline_in_a_length_line() {
    // `$5\rerror`: the `\r` ends the length, the byte after it is skipped,
    // and the argument is read from `rror\r`.
    let s = scan(b"*3\r\n$3\r\nSET\r\n$5\rerror\r\n$2\r\n06\r\n");
    assert_eq!(s.events, vec![ScanEvent::ErrorArgStart]);
    assert!(s.frames.is_empty());
}

#[test]
fn byte_below_zero_in_a_length_is_reported() {
    let s = scan(b"*1\r\n$ 2\r\nhi\r\n");
    assert_eq!(s.events, vec![ScanEvent::ErrorArgLen]);
    assert_eq!(s.frames, vec![vec!["hi"]]);
}

#[test]
fn byte_below_zero_in_a_count_is_reported() {
    let s = scan(b"*-1\r\n");
    assert_eq!(s.events, vec![ScanEvent::ErrorArgsLen, ScanEvent::ArgsTooMuch]);
    assert!(s.frames.is_empty());
}

#[test]
fn lone_star_stops_the_scan() {
    let s = scan(b"*3");
    assert_eq!(s.events, vec![ScanEvent::AloneStar]);
    assert!(s.frames.is_empty());
    let s = scan(b"*vas");
    assert_eq!(s.events, vec![ScanEvent::AloneStar]);
}

#[test]
fn lone_dollar_stops_the_scan() {
    let s = scan(b"*3\r\n$3\r\nSET\r\n$2\r\n");
    assert_eq!(s.events, vec![ScanEvent::ArgLenTooMuch]);
    let s = scan(b"*1\r\n$3");
    assert_eq!(s.events, vec![ScanEvent::AloneDollar]);
    assert!(s.frames.is_empty());
}

#[test]
fn truncated_argument_is_too_long() {
    let s = scan(b"*1\r\n$5\r\nhi\r\n");
    assert_eq!(s.events, vec![ScanEvent::ArgLenTooMuch]);
    assert!(s.frames.is_empty());
}

#[test]
fn argument_ending_at_the_buffer_end_is_too_long() {
    let s = scan(b"*1\r\n$2\r\nhi");
    assert_eq!(s.events, vec![ScanEvent::ArgLenTooMuch]);
    assert!(s.frames.is_empty());
}

#[test]
fn invalid_utf8_argument_drops_the_frame() {
    let input: &[u8] = b"*1\r\n$1\r\n\xff\r\n";
    let s = scan(input);
    assert_eq!(s.events.len(), 2);
    match s.events[0] {
        ScanEvent::InvalidUtf8(e) => {
            assert_eq!(e.valid_up_to(), 0);
            assert_eq!(e, std::str::from_utf8(&input[8..9]).unwrap_err());
        }
        other => panic!("unexpected event {:?}", other),
    }
    assert_eq!(s.events[1], ScanEvent::ArgsLenMismatch);
    assert!(s.frames.is_empty());
}

#[test]
fn multibyte_argument_keeps_its_bytes() {
    let s = scan("*1\r\n$6\r\nhéllo\r\n".as_bytes());
    assert!(s.events.is_empty());
    assert_eq!(s.frames, vec![vec!["héllo"]]);
}

#[test]
fn input_without_star_yields_nothing() {
    let s = scan(b"asdassddfsdf");
    assert!(s.events.is_empty());
    assert!(s.frames.is_empty());
    let s = scan(b"");
    assert!(s.events.is_empty());
    assert!(s.frames.is_empty());
}

#[test]
fn overflowing_count_is_refused() {
    assert!(scan_frames(b"*99999999999999999999999\r\n").is_none());
}

#[test]
fn overflowing_length_is_refused() {
    assert!(scan_frames(b"*1\r\n$99999999999999999999999\r\nx\r\n").is_none());
}

#[test]
fn no_buffer_end_event_on_malformed_input() {
    let inputs: [&[u8]; 6] = [
        b"*3\r\n$3\r\nSET\r\n$5\nerror\r\n$2\r\n07\r\n",
        b"*4\r\n$3\r\nSET\r\n$5\r\nerror\r\n$2\r\n08\r\n",
        b"*3\r\n$3\r\nSET\r\n$5\r\nerr",
        b"*2\r\n$1\r\na\r\n*1\r\n$1\r\nb\r\n",
        b"**$$\r\r\n\n*",
        b"*1\r\n$0\r\n\r\n",
    ];
    for input in inputs {
        let s = scan(input);
        assert!(!s.events.contains(&ScanEvent::ErrorBufferEnd));
    }
}

#[test]
fn too_many_announced_arguments_stop_the_scan() {
    let s = scan(b"*4\r\n$3\r\nSET\r\n$5\r\nerror\r\n$2\r\n08\r\n");
    assert_eq!(s.events, vec![ScanEvent::ArgsTooMuch]);
    assert!(s.frames.is_empty());
}
