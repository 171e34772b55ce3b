use rudis::echo::{CommandType, EchoCommand};
use rudis::frame::scan_frames;
use rudis::resp::{bulk_string_bytes, push_decimal};

#[test]
fn echo_replies_with_its_message_as_a_bulk_string() {
    let echo = EchoCommand {};
    let fragments = ["*2", "$4", "ECHO", "$9", "helloword"];
    assert!(echo.parse(&fragments).is_ok());
    assert_eq!(echo.execute(&fragments), b"$9\r\nhelloword\r\n".to_vec());
    assert_eq!(echo.command_type(), CommandType::Read);
}

#[test]
fn bulk_string_length_counts_bytes() {
    assert_eq!(bulk_string_bytes("héllo"), "$6\r\nhéllo\r\n".as_bytes().to_vec());
    assert_eq!(bulk_string_bytes(""), b"$0\r\n\r\n".to_vec());
}

#[test]
fn decimal_bytes() {
    let mut out = vec![b'>'];
    push_decimal(&mut out, 1024);
    assert_eq!(out, b">1024".to_vec());
    let mut out = Vec::new();
    push_decimal(&mut out, 0);
    assert_eq!(out, b"0".to_vec());
}

#[test]
fn echo_reply_reads_back_through_the_scanner() {
    let echo = EchoCommand {};
    let fragments = ["*2", "$4", "ECHO", "$5", "héllo"];
    let mut input = b"*1\r\n".to_vec();
    input.extend(echo.execute(&fragments));
    let s = scan_frames(&input).unwrap();
    assert!(s.events.is_empty());
    assert_eq!(s.frames, vec![vec!["héllo"]]);
}
