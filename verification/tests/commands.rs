use rudis::command::{
    check_name_and_len, parse, GetCommand, ParsedCommand, SetCommand, SetExist, SetExpire,
    UnKnowCommand,
};
use rudis::error::CommandParseError;

fn set(words: &[&str]) -> Result<SetCommand, CommandParseError> {
    SetCommand::try_from(words.to_vec())
}

fn plain(key: &str, value: &str) -> SetCommand {
    SetCommand {
        key: key.to_string(),
        value: value.to_string(),
        exist: None,
        get: false,
        expire: None,
    }
}

#[test]
fn name_and_len_checks_count_before_name() {
    assert_eq!(check_name_and_len(&["GET"], "GET", 2, Some(2)), Err(CommandParseError::TooLessArg));
    assert_eq!(
        check_name_and_len(&["GET", "a", "b"], "GET", 2, Some(2)),
        Err(CommandParseError::TooMuchArg)
    );
    assert_eq!(check_name_and_len(&["PUT", "a"], "GET", 2, Some(2)), Err(CommandParseError::WrongCommand));
    assert_eq!(check_name_and_len(&["X"], "GET", 2, Some(2)), Err(CommandParseError::TooLessArg));
    assert_eq!(check_name_and_len(&["GET", "a"], "GET", 2, Some(2)), Ok(()));
    assert_eq!(check_name_and_len(&["GET", "a", "b", "c"], "GET", 1, None), Ok(()));
}

#[test]
fn get_takes_exactly_a_key() {
    assert_eq!(GetCommand::try_from(vec!["GET", "me"]), Ok(GetCommand { key: "me".to_string() }));
    assert_eq!(GetCommand::try_from(vec!["GET"]), Err(CommandParseError::TooLessArg));
    assert_eq!(GetCommand::try_from(vec!["GET", "a", "b"]), Err(CommandParseError::TooMuchArg));
    assert_eq!(GetCommand::try_from(vec!["get", "a"]), Err(CommandParseError::WrongCommand));
}

#[test]
fn unknown_command_is_never_built_from_a_frame() {
    assert_eq!(UnKnowCommand::try_from(vec!["RUDIS", "me"]), Err(CommandParseError::WrongCommand));
}

#[test]
fn plain_set() {
    assert_eq!(set(&["SET", "me", "rudis"]), Ok(plain("me", "rudis")));
}

#[test]
fn set_word_count_bounds() {
    assert_eq!(set(&["SET", "me"]), Err(CommandParseError::TooLessArg));
    assert_eq!(
        set(&["SET", "k", "v", "a", "b", "c", "d", "e"]),
        Err(CommandParseError::TooMuchArg)
    );
    assert_eq!(set(&["PUT", "k", "v"]), Err(CommandParseError::WrongCommand));
}

#[test]
fn set_existence_conditions() {
    let mut nx = plain("me", "rudis");
    nx.exist = Some(SetExist::NX);
    assert_eq!(set(&["SET", "me", "rudis", "NX"]), Ok(nx));
    let mut xx = plain("me", "rudis");
    xx.exist = Some(SetExist::XX);
    assert_eq!(set(&["SET", "me", "rudis", "XX"]), Ok(xx));
    assert_eq!(
        set(&["SET", "me", "rudis", "NX", "XX"]),
        Err(CommandParseError::SyntaxError("Too much exist arg".to_string()))
    );
}

#[test]
fn set_expiry_options() {
    let cases: [(&str, SetExpire); 4] = [
        ("EX", SetExpire::EX(10)),
        ("PX", SetExpire::PX(10)),
        ("EXAT", SetExpire::EXAT(10)),
        ("PXAT", SetExpire::PXAT(10)),
    ];
    for (name, expire) in cases {
        let mut want = plain("k", "v");
        want.expire = Some(expire);
        assert_eq!(set(&["SET", "k", "v", name, "10"]), Ok(want));
    }
    let mut keep = plain("k", "v");
    keep.expire = Some(SetExpire::KEEPTTL);
    assert_eq!(set(&["SET", "k", "v", "KEEPTTL"]), Ok(keep));
}

#[test]
fn keepttl_with_a_number_after_it_consumes_the_number() {
    assert_eq!(set(&["SET", "k", "v", "KEEPTTL", "5"]), Ok(plain("k", "v")));
    assert_eq!(
        set(&["SET", "k", "v", "KEEPTTL", "x"]),
        Err(CommandParseError::TypeParse(
            "Parse KEEPTTL arg Error: invalid digit found in string".to_string()
        ))
    );
}

#[test]
fn expiry_argument_must_be_an_unsigned_integer() {
    assert_eq!(
        set(&["SET", "k", "v", "EX", "1x"]),
        Err(CommandParseError::TypeParse("Parse EX arg Error: invalid digit found in string".to_string()))
    );
    assert_eq!(
        set(&["SET", "k", "v", "PX", ""]),
        Err(CommandParseError::TypeParse(
            "Parse PX arg Error: cannot parse integer from empty string".to_string()
        ))
    );
    assert_eq!(
        set(&["SET", "k", "v", "EX", "18446744073709551616"]),
        Err(CommandParseError::TypeParse(
            "Parse EX arg Error: number too large to fit in target type".to_string()
        ))
    );
    assert_eq!(
        set(&["SET", "k", "v", "EX", "-5"]),
        Err(CommandParseError::TypeParse("Parse EX arg Error: invalid digit found in string".to_string()))
    );
    assert_eq!(
        set(&["SET", "k", "v", "EX", "+"]),
        Err(CommandParseError::TypeParse("Parse EX arg Error: invalid digit found in string".to_string()))
    );
    let mut plus = plain("k", "v");
    plus.expire = Some(SetExpire::EX(5));
    assert_eq!(set(&["SET", "k", "v", "EX", "+5"]), Ok(plus));
    let mut max = plain("k", "v");
    max.expire = Some(SetExpire::PX(u64::MAX));
    assert_eq!(set(&["SET", "k", "v", "PX", "18446744073709551615"]), Ok(max));
}

#[test]
fn expiry_without_argument_is_refused() {
    assert_eq!(
        set(&["SET", "me", "rudis", "PX"]),
        Err(CommandParseError::SyntaxError("PX need one arg".to_string()))
    );
}

#[test]
fn second_expiry_is_refused() {
    assert_eq!(
        set(&["SET", "k", "v", "EX", "1", "PX", "2"]),
        Err(CommandParseError::SyntaxError("Too much expire arg".to_string()))
    );
}

#[test]
fn get_flag_and_unknown_words() {
    let mut want = plain("k", "v");
    want.get = true;
    want.exist = Some(SetExist::NX);
    assert_eq!(set(&["SET", "k", "v", "whatever", "GET", "NX"]), Ok(want));
}

#[test]
fn expiry_argument_is_not_read_as_an_option() {
    // `GET` here is EX's argument, not the flag.
    assert_eq!(
        set(&["SET", "k", "v", "EX", "GET"]),
        Err(CommandParseError::TypeParse("Parse EX arg Error: invalid digit found in string".to_string()))
    );
}

#[test]
fn set_exist_directly() {
    let mut c = plain("k", "v");
    assert_eq!(c.set_exist("OTHER"), Ok(()));
    assert_eq!(c, plain("k", "v"));
    assert_eq!(c.set_exist("XX"), Ok(()));
    assert_eq!(c.exist, Some(SetExist::XX));
    assert_eq!(
        c.set_exist("NX"),
        Err(CommandParseError::SyntaxError("Too much exist arg".to_string()))
    );
    assert_eq!(c.exist, Some(SetExist::XX));
}

#[test]
fn set_expire_directly() {
    let mut c = plain("k", "v");
    assert_eq!(
        c.set_expire("EX", None),
        Err(CommandParseError::SyntaxError("EX need one arg".to_string()))
    );
    assert_eq!(c.expire, None);
    assert_eq!(c.set_expire("EXAT", Some(&"42")), Ok(()));
    assert_eq!(c.expire, Some(SetExpire::EXAT(42)));
    assert_eq!(
        c.set_expire("KEEPTTL", None),
        Err(CommandParseError::SyntaxError("Too much expire arg".to_string()))
    );
}

#[test]
fn parse_picks_the_command_by_first_word() {
    assert_eq!(
        parse(vec!["GET", "me"]),
        Ok(ParsedCommand::GetCommand(GetCommand { key: "me".to_string() }))
    );
    assert_eq!(parse(vec!["SET", "me", "rudis"]), Ok(ParsedCommand::SetCommand(plain("me", "rudis"))));
    assert_eq!(parse(vec!["RUDIS", "me"]), Ok(ParsedCommand::UnKnowCommand(UnKnowCommand {})));
    assert_eq!(parse(vec!["GET"]), Err(CommandParseError::TooLessArg));
    assert_eq!(
        parse(vec!["SET", "me", "rudis", "PX"]),
        Err(CommandParseError::SyntaxError("PX need one arg".to_string()))
    );
}

#[test]
fn replies() {
    assert_eq!(parse(vec!["GET", "me"]).unwrap().execute(), "GET me");
    assert_eq!(parse(vec!["RUDIS", "me"]).unwrap().execute(), "UnKnowCommand");
    assert_eq!(parse(vec!["SET", "me", "rudis"]).unwrap().execute(), "SET me rudis None false None");
    assert_eq!(
        parse(vec!["SET", "me", "rudis", "XX"]).unwrap().execute(),
        "SET me rudis Some(XX) false None"
    );
    assert_eq!(
        parse(vec!["SET", "me", "rudis", "PX", "2"]).unwrap().execute(),
        "SET me rudis None false Some(PX(2))"
    );
    assert_eq!(
        parse(vec!["SET", "k", "v", "NX", "GET", "EXAT", "1700000000"]).unwrap().execute(),
        "SET k v Some(NX) true Some(EXAT(1700000000))"
    );
    assert_eq!(
        parse(vec!["SET", "k", "v", "KEEPTTL"]).unwrap().execute(),
        "SET k v None false Some(KEEPTTL)"
    );
    assert_eq!(
        parse(vec!["SET", "k", "v", "EX", "0"]).unwrap().execute(),
        "SET k v None false Some(EX(0))"
    );
    assert_eq!(
        parse(vec!["SET", "k", "v", "PXAT", "18446744073709551615"]).unwrap().execute(),
        "SET k v None false Some(PXAT(18446744073709551615))"
    );
}

#[test]
fn replies_match_debug_formatting() {
    let mut c = plain("key", "value");
    c.exist = Some(SetExist::NX);
    c.get = true;
    c.expire = Some(SetExpire::PX(1234));
    let want = format!("SET {} {} {:?} {:?} {:?}", c.key, c.value, c.exist, c.get, c.expire);
    assert_eq!(c.execute(), want);
}

#[test]
fn default_set_is_empty() {
    assert_eq!(SetCommand::default(), plain("", ""));
}

#[test]
fn options_never_change_key_or_value() {
    let c = set(&["SET", "NX", "GET", "EX", "5", "GET", "XX"]).unwrap();
    assert_eq!(c.key, "NX");
    assert_eq!(c.value, "GET");
    assert_eq!(c.expire, Some(SetExpire::EX(5)));
    assert_eq!(c.exist, Some(SetExist::XX));
    assert!(c.get);
}
