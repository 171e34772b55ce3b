//! The `ECHO` command: replies with its argument as a bulk string.

use vstd::prelude::*;
use vstd::string::StringSliceAdditionalSpecFns;

use vstd::utf8::valid_utf8;

use crate::frame::{scan, ScanSpec};
use crate::frame_laws::{all_valid_utf8, frame_stream, law_scan_well_formed_stream, no_star};
use crate::resp::{CR, LF, STAR, array_frame, bulk_string, bulk_string_bytes, bulk_strings, decimal};

verus! {

/// Whether a command reads or writes the store.
#[derive(Debug, Clone, Copy, PartialEq, Eq, Structural)]
pub enum CommandType {
    Read,
    Write,
}

/// Why a command strategy refused its fragments.
#[derive(Debug)]
pub struct ParseError {
    pub message: String,
}

/// `ECHO <message>`: the reply is the message.
pub struct EchoCommand {}

impl EchoCommand {
    /// `ECHO` accepts any fragments.
    pub fn parse(&self, _fragments: &[&str]) -> (res: Result<(), ParseError>)
        ensures
            res is Ok,
    {
        Ok(())
    }

    /// The reply to `ECHO`: the message fragment (the fifth, after the
    /// array header, the command's length line, the command and the
    /// message's length line) as a bulk string.
    pub fn execute(&self, fragments: &[&str]) -> (reply: Vec<u8>)
        requires
            fragments@.len() > 4,
        ensures
            reply@ == bulk_string(fragments@[4].spec_bytes()),
    {
        let keyword = fragments[4].to_string();
        bulk_string_bytes(keyword.as_str())
    }

    /// `ECHO` only reads.
    pub fn command_type(&self) -> (res: CommandType)
        ensures
            res == CommandType::Read,
    {
        CommandType::Read
    }
}

/// The `ECHO` reply is the bulk string the frame scanner reads back: a
/// one-element array (`*1\r\n`) followed by the reply to a message scans
/// to exactly one frame holding exactly that message, with nothing
/// reported.
pub proof fn law_echo_reply_reads_back(message: Seq<u8>)
    requires
        valid_utf8(message),
        4 + bulk_string(message).len() < usize::MAX,
    ensures
        scan(seq![STAR, 49u8, CR, LF] + bulk_string(message)) == (ScanSpec::Done {
            events: seq![],
            frames: seq![seq![message]],
        }),
{
    let frames = seq![seq![message]];
    let gaps = seq![Seq::<u8>::empty()];
    let tail = Seq::<u8>::empty();
    reveal_with_fuel(decimal, 2);
    assert(decimal(1) =~= seq![49u8]);
    assert(bulk_strings(seq![message]) =~= bulk_string(message) + bulk_strings(
        seq![message].drop_first(),
    ));
    assert(seq![message].drop_first() =~= Seq::<Seq<u8>>::empty());
    assert(frame_stream(frames, gaps, tail) == gaps[0] + array_frame(frames[0]) + frame_stream(
        frames.drop_first(),
        gaps.drop_first(),
        tail,
    ));
    assert(frames.drop_first() =~= Seq::<Seq<Seq<u8>>>::empty());
    assert(frame_stream(frames, gaps, tail) =~= seq![STAR, 49u8, CR, LF] + bulk_string(
        message,
    ));
    crate::resp::lemma_decimal(message.len());
    assert(forall|k: int| 0 <= k < gaps.len() ==> no_star(#[trigger] gaps[k]));
    assert(all_valid_utf8(frames));
    law_scan_well_formed_stream(frames, gaps, tail);
}

} // verus!
