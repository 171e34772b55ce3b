//! Turning a frame (a list of words) into a `GET` or `SET` command.

use vstd::prelude::*;

use vstd::string::StringExecFns;
use vstd::utf8::encode_utf8;

use crate::error::{err_view, CommandParseError, ParseErrorView};
use crate::text::{
    decimal_text, int_error_message, int_error_text, law_decimal_reads_back,
    lemma_decimal_text_bytes, parse_u64, push_decimal_text, str_eq, u64_from_bytes, IntErrorKind,
};

verus! {

/// The character sequences of a list of words.
pub open spec fn words(args: Seq<&str>) -> Seq<Seq<char>> {
    args.map_values(|s: &str| s@)
}

/// The outcome of [`check_name_and_len`]: the word count is checked
/// against the lower bound, then the upper bound, and only then is the
/// first word compared with the command's name.
pub open spec fn name_and_len_outcome(
    args: Seq<Seq<char>>,
    name: Seq<char>,
    min_len: nat,
    max_len: Option<usize>,
) -> Result<(), ParseErrorView> {
    if args.len() < min_len {
        Err(ParseErrorView::TooLessArg)
    } else if max_len matches Some(m) && args.len() > m {
        Err(ParseErrorView::TooMuchArg)
    } else if args[0] != name {
        Err(ParseErrorView::WrongCommand)
    } else {
        Ok(())
    }
}

/// Checks that a frame has between `min_len` and `max_len` words (no upper
/// bound when `max_len` is `None`) and that its first word is `name`.
pub fn check_name_and_len(
    value: &[&str],
    name: &str,
    min_len: usize,
    max_len: Option<usize>,
) -> (res: Result<(), CommandParseError>)
    requires
        value@.len() > 0,
    ensures
        err_view(res) == name_and_len_outcome(
            words(value@),
            name@,
            min_len as nat,
            max_len,
        ),
{
    let first = value[0];
    let len = value.len();
    if len < min_len {
        return Err(CommandParseError::TooLessArg);
    }
    if let Some(max_len) = max_len {
        if len > max_len {
            return Err(CommandParseError::TooMuchArg);
        };
    }
    if !str_eq(first, name) {
        return Err(CommandParseError::WrongCommand);
    }
    Ok(())
}

/// A `GET` command: read `key`.
#[derive(Debug, PartialEq, Eq)]
pub struct GetCommand {
    pub key: String,
}

/// A command whose name is neither `GET` nor `SET`.
#[derive(Debug, PartialEq, Eq)]
pub struct UnKnowCommand {}

/// `SET`'s existence condition.
#[derive(Debug, Clone, Copy, PartialEq, Eq, Structural)]
pub enum SetExist {
    /// Only set when the key is absent.
    NX,
    /// Only set when the key is present.
    XX,
}

/// `SET`'s expiry option.
#[allow(non_camel_case_types)]
#[derive(Debug, Clone, Copy, PartialEq, Eq, Structural)]
pub enum SetExpire {
    /// Expire after this many seconds.
    EX(u64),
    /// Expire after this many milliseconds.
    PX(u64),
    /// Expire at this Unix time in seconds.
    EXAT(u64),
    /// Expire at this Unix time in milliseconds.
    PXAT(u64),
    /// Keep the key's current time to live.
    KEEPTTL,
}

/// A `SET` command: store `value` under `key`, with its options.
#[derive(Debug, PartialEq, Eq)]
pub struct SetCommand {
    pub key: String,
    pub value: String,
    pub exist: Option<SetExist>,
    pub get: bool,
    pub expire: Option<SetExpire>,
}

/// The mathematical value of a [`SetCommand`].
pub struct SetCommandView {
    pub key: Seq<char>,
    pub value: Seq<char>,
    pub exist: Option<SetExist>,
    pub get: bool,
    pub expire: Option<SetExpire>,
}

impl View for SetCommand {
    type V = SetCommandView;

    open spec fn view(&self) -> SetCommandView {
        SetCommandView {
            key: self.key@,
            value: self.value@,
            exist: self.exist,
            get: self.get,
            expire: self.expire,
        }
    }
}

impl Default for SetCommand {
    /// An empty key and value, with no options.
    fn default() -> (res: SetCommand)
        ensures
            res@ == plain_set(Seq::empty(), Seq::empty()),
    {
        SetCommand {
            key: String::new(),
            value: String::new(),
            exist: None,
            get: false,
            expire: None,
        }
    }
}

/// `SET` with `key` and `value` and no options.
pub open spec fn plain_set(key: Seq<char>, value: Seq<char>) -> SetCommandView {
    SetCommandView { key, value, exist: None, get: false, expire: None }
}

/// The outcome of [`SetCommand::set_exist`]: a second existence condition
/// is refused; `NX` and `XX` set it; any other word leaves the command as
/// it is.
pub open spec fn set_exist_outcome(cmd: SetCommandView, name: Seq<char>) -> Result<
    SetCommandView,
    ParseErrorView,
> {
    if cmd.exist is Some {
        Err(ParseErrorView::SyntaxError("Too much exist arg"@))
    } else if name == "NX"@ {
        Ok(SetCommandView { exist: Some(SetExist::NX), ..cmd })
    } else if name == "XX"@ {
        Ok(SetCommandView { exist: Some(SetExist::XX), ..cmd })
    } else {
        Ok(cmd)
    }
}

/// The outcome of [`SetCommand::set_expire`]: a second expiry is refused;
/// without an argument only `KEEPTTL` is accepted; with one, the argument
/// must read as a `u64` and `EX`, `PX`, `EXAT` or `PXAT` take it (any other
/// word, `KEEPTTL` included, leaves the expiry unset).
pub open spec fn set_expire_outcome(
    cmd: SetCommandView,
    name: Seq<char>,
    arg: Option<Seq<char>>,
) -> Result<SetCommandView, ParseErrorView> {
    if cmd.expire is Some {
        Err(ParseErrorView::SyntaxError("Too much expire arg"@))
    } else {
        match arg {
            None => if name == "KEEPTTL"@ {
                Ok(SetCommandView { expire: Some(SetExpire::KEEPTTL), ..cmd })
            } else {
                Err(ParseErrorView::SyntaxError(name + " need one arg"@))
            },
            Some(a) => match u64_from_bytes(encode_utf8(a)) {
                Ok(n) => if name == "EX"@ {
                    Ok(SetCommandView { expire: Some(SetExpire::EX(n)), ..cmd })
                } else if name == "PX"@ {
                    Ok(SetCommandView { expire: Some(SetExpire::PX(n)), ..cmd })
                } else if name == "EXAT"@ {
                    Ok(SetCommandView { expire: Some(SetExpire::EXAT(n)), ..cmd })
                } else if name == "PXAT"@ {
                    Ok(SetCommandView { expire: Some(SetExpire::PXAT(n)), ..cmd })
                } else {
                    Ok(cmd)
                },
                Err(kind) => Err(
                    ParseErrorView::TypeParse(
                        "Parse "@ + name + " arg Error: "@ + int_error_message(kind),
                    ),
                ),
            },
        }
    }
}

/// The text of an optional word.
pub open spec fn opt_word(arg: Option<&&str>) -> Option<Seq<char>> {
    match arg {
        Some(a) => Some(a@),
        None => None,
    }
}

/// A `SET` command after [`SetCommand::set_exist`] or
/// [`SetCommand::set_expire`]: the new value on success, the old on error.
pub open spec fn updated(
    old: SetCommandView,
    new: SetCommandView,
    res: Result<(), CommandParseError>,
    outcome: Result<SetCommandView, ParseErrorView>,
) -> bool {
    match outcome {
        Ok(c) => res is Ok && new == c,
        Err(e) => res matches Err(x) && x@ == e && new == old,
    }
}

impl SetCommand {
    /// Records the existence condition `name` (`NX` or `XX`; other words
    /// are ignored); refused when one is already recorded.
    pub fn set_exist(&mut self, name: &str) -> (res: Result<(), CommandParseError>)
        ensures
            updated(old(self)@, final(self)@, res, set_exist_outcome(old(self)@, name@)),
    {
        if self.exist.is_some() {
            return Err(CommandParseError::SyntaxError("Too much exist arg".to_string()));
        };
        if str_eq(name, "NX") {
            self.exist = Some(SetExist::NX);
        } else if str_eq(name, "XX") {
            self.exist = Some(SetExist::XX);
        }
        Ok(())
    }

    /// Records the expiry option `name` with its argument `arg`, read as a
    /// `u64`; `KEEPTTL` takes no argument, the others need one. Refused
    /// when an expiry is already recorded.
    pub fn set_expire(&mut self, name: &str, arg: Option<&&str>) -> (res: Result<
        (),
        CommandParseError,
    >)
        ensures
            updated(
                old(self)@,
                final(self)@,
                res,
                set_expire_outcome(old(self)@, name@, opt_word(arg)),
            ),
    {
        if self.expire.is_some() {
            return Err(CommandParseError::SyntaxError("Too much expire arg".to_string()));
        };
        match arg {
            None => {
                if str_eq(name, "KEEPTTL") {
                    self.expire = Some(SetExpire::KEEPTTL);
                    return Ok(());
                } else {
                    let mut message = String::new();
                    message.append(name);
                    message.append(" need one arg");
                    return Err(CommandParseError::SyntaxError(message));
                }
            },
            Some(a) => {
                match parse_u64(*a) {
                    Ok(n) => {
                        if str_eq(name, "EX") {
                            self.expire = Some(SetExpire::EX(n));
                        } else if str_eq(name, "PX") {
                            self.expire = Some(SetExpire::PX(n));
                        } else if str_eq(name, "EXAT") {
                            self.expire = Some(SetExpire::EXAT(n));
                        } else if str_eq(name, "PXAT") {
                            self.expire = Some(SetExpire::PXAT(n));
                        }
                    },
                    Err(kind) => {
                        let mut message = String::new();
                        message.append("Parse ");
                        message.append(name);
                        message.append(" arg Error: ");
                        message.append(int_error_text(kind));
                        return Err(CommandParseError::TypeParse(message));
                    },
                }
            },
        }
        Ok(())
    }
}

/// `NX` or `XX`.
pub open spec fn is_exist_name(v: Seq<char>) -> bool {
    v == "NX"@ || v == "XX"@
}

/// `EX`, `PX`, `EXAT`, `PXAT` or `KEEPTTL`.
pub open spec fn is_expire_name(v: Seq<char>) -> bool {
    v == "EX"@ || v == "PX"@ || v == "EXAT"@ || v == "PXAT"@ || v == "KEEPTTL"@
}

/// The command with `GET` requested when the word is `GET`.
pub open spec fn with_get(cmd: SetCommandView, v: Seq<char>) -> SetCommandView {
    if v == "GET"@ {
        SetCommandView { get: true, ..cmd }
    } else {
        cmd
    }
}

/// Applies `SET`'s option words from left to right: an existence word is
/// recorded, an expiry word is recorded with the next word (if any) as its
/// argument, which is then skipped, `GET` requests the old value, and
/// other words are ignored; the first refusal ends it.
pub open spec fn apply_options(cmd: SetCommandView, rest: Seq<Seq<char>>) -> Result<
    SetCommandView,
    ParseErrorView,
>
    decreases rest.len(),
{
    if rest.len() == 0 {
        Ok(cmd)
    } else {
        let v = rest[0];
        let tail = rest.drop_first();
        match (if is_exist_name(v) {
            set_exist_outcome(cmd, v)
        } else {
            Ok(cmd)
        }) {
            Err(e) => Err(e),
            Ok(c1) => if is_expire_name(v) {
                let arg = if tail.len() > 0 {
                    Some(tail[0])
                } else {
                    None
                };
                match set_expire_outcome(c1, v, arg) {
                    Err(e) => Err(e),
                    Ok(c2) => apply_options(
                        with_get(c2, v),
                        if tail.len() > 0 {
                            tail.drop_first()
                        } else {
                            tail
                        },
                    ),
                }
            } else {
                apply_options(with_get(c1, v), tail)
            },
        }
    }
}

/// A `SET` frame: three to seven words, the first `SET`, then the key,
/// the value and the options.
pub open spec fn set_from_words(args: Seq<Seq<char>>) -> Result<SetCommandView, ParseErrorView> {
    match name_and_len_outcome(args, "SET"@, 3, Some(7usize)) {
        Err(e) => Err(e),
        Ok(_) => apply_options(plain_set(args[1], args[2]), args.subrange(3, args.len() as int)),
    }
}

/// A `GET` frame: exactly two words, the first `GET`; the key.
pub open spec fn get_from_words(args: Seq<Seq<char>>) -> Result<Seq<char>, ParseErrorView> {
    match name_and_len_outcome(args, "GET"@, 2, Some(2usize)) {
        Err(e) => Err(e),
        Ok(_) => Ok(args[1]),
    }
}

proof fn lemma_options_keep_key_and_value(cmd: SetCommandView, rest: Seq<Seq<char>>)
    ensures
        apply_options(cmd, rest) matches Ok(c) ==> c.key == cmd.key && c.value == cmd.value,
    decreases rest.len(),
{
    if rest.len() > 0 {
        let v = rest[0];
        let tail = rest.drop_first();
        let r1 = if is_exist_name(v) {
            set_exist_outcome(cmd, v)
        } else {
            Ok(cmd)
        };
        if let Ok(c1) = r1 {
            if is_expire_name(v) {
                let arg = if tail.len() > 0 {
                    Some(tail[0])
                } else {
                    None
                };
                if let Ok(c2) = set_expire_outcome(c1, v, arg) {
                    lemma_options_keep_key_and_value(
                        with_get(c2, v),
                        if tail.len() > 0 {
                            tail.drop_first()
                        } else {
                            tail
                        },
                    );
                }
            } else {
                lemma_options_keep_key_and_value(with_get(c1, v), tail);
            }
        }
    }
}

/// Options never touch the key or the value: an accepted `SET` frame's
/// key is its second word and its value its third, whatever options
/// follow.
pub proof fn law_set_keeps_key_and_value(args: Seq<Seq<char>>)
    ensures
        set_from_words(args) matches Ok(c) ==> c.key == args[1] && c.value == args[2],
{
    lemma_options_keep_key_and_value(plain_set(args[1], args[2]), args.subrange(3, args.len() as int));
}

impl SetCommand {
    /// Builds a `SET` command from a frame.
    pub fn try_from(value: Vec<&str>) -> (res: Result<SetCommand, CommandParseError>)
        requires
            value@.len() > 0,
        ensures
            match set_from_words(words(value@)) {
                Ok(c) => res matches Ok(cmd) && cmd@ == c,
                Err(e) => res matches Err(x) && x@ == e,
            },
    {
        match check_name_and_len(value.as_slice(), "SET", 3, Some(7)) {
            Err(e) => {
                return Err(e);
            },
            Ok(()) => {},
        }
        let mut command = SetCommand {
            key: value[1].to_string(),
            value: value[2].to_string(),
            exist: None,
            get: false,
            expire: None,
        };
        let n = value.len();
        let ghost all = words(value@);
        let ghost target = apply_options(plain_set(all[1], all[2]), all.subrange(3, n as int));
        let mut j: usize = 3;
        while j < n
            invariant
                n == value@.len(),
                all == words(value@),
                3 <= j <= n,
                apply_options(command@, all.subrange(j as int, n as int)) == target,
                set_from_words(all) == target,
            decreases n - j,
        {
            let ghost rest = all.subrange(j as int, n as int);
            let v = value[j];
            j = j + 1;
            assert(rest[0] == v@);
            assert(rest.drop_first() =~= all.subrange(j as int, n as int));
            if str_eq(v, "NX") || str_eq(v, "XX") {
                match command.set_exist(v) {
                    Err(e) => {
                        return Err(e);
                    },
                    Ok(()) => {},
                }
            }
            if str_eq(v, "EX") || str_eq(v, "PX") || str_eq(v, "EXAT") || str_eq(v, "PXAT")
                || str_eq(v, "KEEPTTL") {
                let arg = if j < n {
                    let a = &value[j];
                    assert(all.subrange(j as int, n as int)[0] == a@);
                    assert(all.subrange(j as int, n as int).drop_first() =~= all.subrange(
                        j + 1,
                        n as int,
                    ));
                    j = j + 1;
                    Some(a)
                } else {
                    None
                };
                match command.set_expire(v, arg) {
                    Err(e) => {
                        return Err(e);
                    },
                    Ok(()) => {},
                }
            }
            if str_eq(v, "GET") {
                command.get = true;
            }
        }
        assert(all.subrange(n as int, n as int) =~= Seq::<Seq<char>>::empty());
        Ok(command)
    }
}

impl GetCommand {
    /// Builds a `GET` command from a frame.
    pub fn try_from(value: Vec<&str>) -> (res: Result<GetCommand, CommandParseError>)
        requires
            value@.len() > 0,
        ensures
            match get_from_words(words(value@)) {
                Ok(k) => res matches Ok(cmd) && cmd.key@ == k,
                Err(e) => res matches Err(x) && x@ == e,
            },
    {
        match check_name_and_len(value.as_slice(), "GET", 2, Some(2)) {
            Err(e) => {
                return Err(e);
            },
            Ok(()) => {},
        }
        let key = value[1].to_string();
        Ok(GetCommand { key })
    }
}

impl UnKnowCommand {
    /// An unknown command is never built from a frame.
    pub fn try_from(_value: Vec<&str>) -> (res: Result<UnKnowCommand, CommandParseError>)
        ensures
            res matches Err(CommandParseError::WrongCommand),
    {
        Err(CommandParseError::WrongCommand)
    }
}

/// A command built from a frame.
#[derive(Debug, PartialEq, Eq)]
pub enum ParsedCommand {
    SetCommand(SetCommand),
    GetCommand(GetCommand),
    UnKnowCommand(UnKnowCommand),
}

/// The mathematical value of a [`ParsedCommand`].
pub enum CommandView {
    SetCommand(SetCommandView),
    GetCommand(Seq<char>),
    UnKnowCommand,
}

impl View for ParsedCommand {
    type V = CommandView;

    open spec fn view(&self) -> CommandView {
        match self {
            ParsedCommand::SetCommand(c) => CommandView::SetCommand(c@),
            ParsedCommand::GetCommand(c) => CommandView::GetCommand(c.key@),
            ParsedCommand::UnKnowCommand(_) => CommandView::UnKnowCommand,
        }
    }
}

/// A frame as a command: by its first word, a `SET`, a `GET`, or (for any
/// other word) an unknown command.
pub open spec fn parse_outcome(args: Seq<Seq<char>>) -> Result<CommandView, ParseErrorView> {
    if args[0] == "SET"@ {
        match set_from_words(args) {
            Ok(c) => Ok(CommandView::SetCommand(c)),
            Err(e) => Err(e),
        }
    } else if args[0] == "GET"@ {
        match get_from_words(args) {
            Ok(k) => Ok(CommandView::GetCommand(k)),
            Err(e) => Err(e),
        }
    } else {
        Ok(CommandView::UnKnowCommand)
    }
}

/// Builds the command a non-empty frame asks for.
pub fn parse(args: Vec<&str>) -> (res: Result<ParsedCommand, CommandParseError>)
    requires
        args@.len() > 0,
    ensures
        match parse_outcome(words(args@)) {
            Ok(c) => res matches Ok(cmd) && cmd@ == c,
            Err(e) => res matches Err(x) && x@ == e,
        },
{
    let first = args[0];
    if str_eq(first, "SET") {
        match SetCommand::try_from(args) {
            Ok(c) => Ok(ParsedCommand::SetCommand(c)),
            Err(e) => Err(e),
        }
    } else if str_eq(first, "GET") {
        match GetCommand::try_from(args) {
            Ok(c) => Ok(ParsedCommand::GetCommand(c)),
            Err(e) => Err(e),
        }
    } else {
        Ok(ParsedCommand::UnKnowCommand(UnKnowCommand {}))
    }
}

/// How `{:?}` shows an existence condition.
pub open spec fn exist_debug(e: Option<SetExist>) -> Seq<char> {
    match e {
        None => "None"@,
        Some(SetExist::NX) => "Some(NX)"@,
        Some(SetExist::XX) => "Some(XX)"@,
    }
}

/// How `{:?}` shows an expiry.
pub open spec fn expire_debug(e: Option<SetExpire>) -> Seq<char> {
    match e {
        None => "None"@,
        Some(SetExpire::EX(n)) => "Some(EX("@ + decimal_text(n as nat) + "))"@,
        Some(SetExpire::PX(n)) => "Some(PX("@ + decimal_text(n as nat) + "))"@,
        Some(SetExpire::EXAT(n)) => "Some(EXAT("@ + decimal_text(n as nat) + "))"@,
        Some(SetExpire::PXAT(n)) => "Some(PXAT("@ + decimal_text(n as nat) + "))"@,
        Some(SetExpire::KEEPTTL) => "Some(KEEPTTL)"@,
    }
}

/// How `{:?}` shows a flag.
pub open spec fn bool_debug(b: bool) -> Seq<char> {
    if b {
        "true"@
    } else {
        "false"@
    }
}

/// The reply to a `SET`: its key and value, then its options as `{:?}`
/// shows them, separated by spaces.
pub open spec fn set_reply(c: SetCommandView) -> Seq<char> {
    "SET "@ + c.key + " "@ + c.value + " "@ + exist_debug(c.exist) + " "@ + bool_debug(c.get) + " "@
        + expire_debug(c.expire)
}

/// The reply to a command.
pub open spec fn reply(c: CommandView) -> Seq<char> {
    match c {
        CommandView::SetCommand(s) => set_reply(s),
        CommandView::GetCommand(k) => "GET "@ + k,
        CommandView::UnKnowCommand => "UnKnowCommand"@,
    }
}

/// Appends how `{:?}` shows an existence condition.
fn push_exist_debug(out: &mut String, e: Option<SetExist>)
    ensures
        final(out)@ == old(out)@ + exist_debug(e),
{
    match e {
        None => out.append("None"),
        Some(SetExist::NX) => out.append("Some(NX)"),
        Some(SetExist::XX) => out.append("Some(XX)"),
    }
}

/// Appends how `{:?}` shows an expiry.
fn push_expire_debug(out: &mut String, e: Option<SetExpire>)
    ensures
        final(out)@ == old(out)@ + expire_debug(e),
{
    match e {
        None => out.append("None"),
        Some(SetExpire::KEEPTTL) => out.append("Some(KEEPTTL)"),
        Some(SetExpire::EX(n)) => {
            out.append("Some(EX(");
            push_decimal_text(out, n);
            out.append("))");
        },
        Some(SetExpire::PX(n)) => {
            out.append("Some(PX(");
            push_decimal_text(out, n);
            out.append("))");
        },
        Some(SetExpire::EXAT(n)) => {
            out.append("Some(EXAT(");
            push_decimal_text(out, n);
            out.append("))");
        },
        Some(SetExpire::PXAT(n)) => {
            out.append("Some(PXAT(");
            push_decimal_text(out, n);
            out.append("))");
        },
    }
    assert(final(out)@ =~= old(out)@ + expire_debug(e));
}

impl SetCommand {
    /// The reply to this command.
    pub fn execute(&self) -> (res: String)
        ensures
            res@ == set_reply(self@),
    {
        let mut out = String::new();
        out.append("SET ");
        out.append(self.key.as_str());
        out.append(" ");
        out.append(self.value.as_str());
        out.append(" ");
        push_exist_debug(&mut out, self.exist);
        out.append(" ");
        if self.get {
            out.append("true");
        } else {
            out.append("false");
        }
        out.append(" ");
        push_expire_debug(&mut out, self.expire);
        assert(out@ =~= set_reply(self@));
        out
    }
}

impl GetCommand {
    /// The reply to this command.
    pub fn execute(&self) -> (res: String)
        ensures
            res@ == "GET "@ + self.key@,
    {
        let mut out = String::new();
        out.append("GET ");
        out.append(self.key.as_str());
        assert(out@ =~= "GET "@ + self.key@);
        out
    }
}

impl UnKnowCommand {
    /// The reply to this command.
    pub fn execute(&self) -> (res: String)
        ensures
            res@ == "UnKnowCommand"@,
    {
        "UnKnowCommand".to_string()
    }
}

impl ParsedCommand {
    /// The reply to this command.
    pub fn execute(&self) -> (res: String)
        ensures
            res@ == reply(self@),
    {
        match self {
            ParsedCommand::SetCommand(c) => c.execute(),
            ParsedCommand::GetCommand(c) => c.execute(),
            ParsedCommand::UnKnowCommand(c) => c.execute(),
        }
    }
}


/// The command with the `GET` flag raised.
pub open spec fn flagged(c: SetCommandView) -> SetCommandView {
    SetCommandView { get: true, ..c }
}

/// Distinct option words.
proof fn lemma_option_words_distinct()
    ensures
        "GET"@ != "NX"@,
        "GET"@ != "XX"@,
        "GET"@ != "EX"@,
        "GET"@ != "PX"@,
        "GET"@ != "EXAT"@,
        "GET"@ != "PXAT"@,
        "GET"@ != "KEEPTTL"@,
        "GET"@ != "SET"@,
{
    reveal_strlit("GET");
    reveal_strlit("NX");
    reveal_strlit("XX");
    reveal_strlit("EX");
    reveal_strlit("PX");
    reveal_strlit("EXAT");
    reveal_strlit("PXAT");
    reveal_strlit("KEEPTTL");
    reveal_strlit("SET");
    assert("GET"@[0] != "SET"@[0]);
}

proof fn lemma_options_flagged(cmd: SetCommandView, rest: Seq<Seq<char>>)
    ensures
        apply_options(flagged(cmd), rest) == match apply_options(cmd, rest) {
            Ok(c) => Ok(flagged(c)),
            Err(e) => Err(e),
        },
    decreases rest.len(),
{
    if rest.len() > 0 {
        let v = rest[0];
        let tail = rest.drop_first();
        let r1 = if is_exist_name(v) {
            set_exist_outcome(cmd, v)
        } else {
            Ok(cmd)
        };
        if let Ok(c1) = r1 {
            if is_expire_name(v) {
                let arg = if tail.len() > 0 {
                    Some(tail[0])
                } else {
                    None
                };
                if let Ok(c2) = set_expire_outcome(c1, v, arg) {
                    lemma_options_flagged(
                        with_get(c2, v),
                        if tail.len() > 0 {
                            tail.drop_first()
                        } else {
                            tail
                        },
                    );
                }
            } else {
                lemma_options_flagged(with_get(c1, v), tail);
            }
        }
    }
}

proof fn lemma_options_no_get(cmd: SetCommandView, rest: Seq<Seq<char>>)
    requires
        !cmd.get,
        forall|k: int| 0 <= k < rest.len() ==> rest[k] != "GET"@,
    ensures
        apply_options(cmd, rest) matches Ok(c) ==> !c.get,
    decreases rest.len(),
{
    if rest.len() > 0 {
        let v = rest[0];
        let tail = rest.drop_first();
        assert forall|k: int| 0 <= k < tail.len() implies tail[k] != "GET"@ by {
            assert(tail[k] == rest[k + 1]);
        }
        let r1 = if is_exist_name(v) {
            set_exist_outcome(cmd, v)
        } else {
            Ok(cmd)
        };
        if let Ok(c1) = r1 {
            if is_expire_name(v) {
                let arg = if tail.len() > 0 {
                    Some(tail[0])
                } else {
                    None
                };
                if let Ok(c2) = set_expire_outcome(c1, v, arg) {
                    if tail.len() > 0 {
                        let t2 = tail.drop_first();
                        assert forall|k: int| 0 <= k < t2.len() implies t2[k] != "GET"@ by {
                            assert(t2[k] == tail[k + 1]);
                        }
                        lemma_options_no_get(with_get(c2, v), t2);
                    } else {
                        lemma_options_no_get(with_get(c2, v), tail);
                    }
                }
            } else {
                lemma_options_no_get(with_get(c1, v), tail);
            }
        }
    }
}

/// A `GET` word right after the value raises the flag and changes nothing
/// else: inserting it into any frame of at most six words gives the same
/// outcome, with `get` set when the frame is accepted.
pub proof fn law_set_get_word_raises_flag(args: Seq<Seq<char>>)
    requires
        3 <= args.len() <= 6,
    ensures
        set_from_words(args.insert(3, "GET"@)) == match set_from_words(args) {
            Ok(c) => Ok(flagged(c)),
            Err(e) => Err(e),
        },
{
    lemma_option_words_distinct();
    let longer = args.insert(3, "GET"@);
    let opts = args.subrange(3, args.len() as int);
    assert(longer[0] == args[0]);
    assert(longer[1] == args[1]);
    assert(longer[2] == args[2]);
    let lopts = longer.subrange(3, longer.len() as int);
    assert(lopts[0] == "GET"@);
    assert(lopts.drop_first() =~= opts);
    let base = plain_set(args[1], args[2]);
    assert(with_get(base, "GET"@) == flagged(base));
    lemma_options_flagged(base, opts);
}

/// The `GET` flag is only ever raised by a `GET` word among the options.
pub proof fn law_set_get_flag_needs_get_word(args: Seq<Seq<char>>)
    ensures
        (set_from_words(args) matches Ok(c) && c.get) ==> exists|k: int|
            3 <= k < args.len() && #[trigger] args[k] == "GET"@,
{
    if !(exists|k: int| 3 <= k < args.len() && #[trigger] args[k] == "GET"@) {
        if args.len() >= 3 {
            let opts = args.subrange(3, args.len() as int);
            assert forall|k: int| 0 <= k < opts.len() implies opts[k] != "GET"@ by {
                assert(opts[k] == args[k + 3]);
            }
            lemma_options_no_get(plain_set(args[1], args[2]), opts);
        }
    }
}

/// A frame is an unknown command only when its first word is neither
/// `SET` nor `GET`.
pub proof fn law_parse_unknown_only_for_other_names(args: Seq<Seq<char>>)
    requires
        args.len() > 0,
    ensures
        parse_outcome(args) == Ok::<CommandView, ParseErrorView>(CommandView::UnKnowCommand)
            ==> args[0] != "SET"@ && args[0] != "GET"@,
{
}

/// A `SET` or `GET` frame with the wrong number of words is refused with
/// the matching error, never taken as another command.
pub proof fn law_parse_word_count_refusals(args: Seq<Seq<char>>)
    requires
        args.len() > 0,
    ensures
        args[0] == "SET"@ && args.len() < 3 ==> parse_outcome(args) == Err::<
            CommandView,
            ParseErrorView,
        >(ParseErrorView::TooLessArg),
        args[0] == "SET"@ && args.len() > 7 ==> parse_outcome(args) == Err::<
            CommandView,
            ParseErrorView,
        >(ParseErrorView::TooMuchArg),
        args[0] == "GET"@ && args.len() < 2 ==> parse_outcome(args) == Err::<
            CommandView,
            ParseErrorView,
        >(ParseErrorView::TooLessArg),
        args[0] == "GET"@ && args.len() > 2 ==> parse_outcome(args) == Err::<
            CommandView,
            ParseErrorView,
        >(ParseErrorView::TooMuchArg),
{
    lemma_option_words_distinct();
}

/// `s` ends with `x`.
pub open spec fn ends_with(s: Seq<char>, x: Seq<char>) -> bool {
    x.len() <= s.len() && s.subrange(s.len() - x.len(), s.len() as int) == x
}

proof fn lemma_ends_with_concat(p: Seq<char>, x: Seq<char>)
    ensures
        ends_with(p + x, x),
{
    assert((p + x).subrange(p.len() as int, (p + x).len() as int) =~= x);
}

/// The number of an expiry that has one.
pub open spec fn expiry_number(e: SetExpire) -> Option<u64> {
    match e {
        SetExpire::EX(n) => Some(n),
        SetExpire::PX(n) => Some(n),
        SetExpire::EXAT(n) => Some(n),
        SetExpire::PXAT(n) => Some(n),
        SetExpire::KEEPTTL => None,
    }
}

/// How `{:?}` opens an expiry that has a number.
pub open spec fn expiry_opening(e: SetExpire) -> Seq<char> {
    match e {
        SetExpire::EX(_) => "Some(EX("@,
        SetExpire::PX(_) => "Some(PX("@,
        SetExpire::EXAT(_) => "Some(EXAT("@,
        SetExpire::PXAT(_) => "Some(PXAT("@,
        SetExpire::KEEPTTL => "Some(KEEPTTL)"@,
    }
}

/// The reply to a `SET` ends with its expiry's number in full: the text
/// between the expiry's opening and the closing `))` reads back as that
/// very number.
pub proof fn law_set_reply_shows_expiry_number(c: SetCommandView)
    ensures
        c.expire matches Some(e) ==> (expiry_number(e) matches Some(n) ==> exists|t: Seq<char>|
            ends_with(set_reply(c), expiry_opening(e) + t + "))"@) && u64_from_bytes(
                encode_utf8(t),
            ) == Ok::<u64, IntErrorKind>(n)),
{
    if let Some(e) = c.expire {
        if let Some(n) = expiry_number(e) {
            let t = decimal_text(n as nat);
            lemma_decimal_text_bytes(n as nat);
            law_decimal_reads_back(n);
            let x = expiry_opening(e) + t + "))"@;
            assert(expire_debug(c.expire) == x);
            let p = "SET "@ + c.key + " "@ + c.value + " "@ + exist_debug(c.exist) + " "@
                + bool_debug(c.get) + " "@;
            assert(set_reply(c) =~= p + x);
            lemma_ends_with_concat(p, x);
            assert(ends_with(set_reply(c), expiry_opening(e) + t + "))"@));
            assert(u64_from_bytes(encode_utf8(t)) == Ok::<u64, IntErrorKind>(n));
        }
    }
}

} // verus!
