use orlice::eu4_save_parser::{
    parse_array, parse_recursive, parse_savegame, parse_savegame_checked, parse_savegame_text,
    skip_whitespace, SaveGameParsingError, SaveValue,
};

fn chars(s: &str) -> Vec<char> {
    s.chars().collect()
}

fn parse_ok(text: &str) -> Vec<Box<SaveValue>> {
    match parse_savegame_checked(text.as_bytes()) {
        Some(Ok(v)) => v,
        Some(Err(e)) => panic!("unexpected error: {e:?}"),
        None => panic!("the parse ran past the end of the text"),
    }
}

fn object<'a>(v: &'a SaveValue, key: &str) -> &'a SaveValue {
    match v {
        SaveValue::SaveObject(k, inner) => {
            assert_eq!(k, key);
            inner
        }
        other => panic!("expected an object {key}, got {other:?}"),
    }
}

fn array(v: &SaveValue) -> &Vec<Box<SaveValue>> {
    match v {
        SaveValue::SaveArray(items) => items,
        other => panic!("expected an array, got {other:?}"),
    }
}

fn file_parsing_message(e: &SaveGameParsingError) -> String {
    match e {
        SaveGameParsingError::FileParsing(m) => m.clone(),
        other => panic!("expected a file parsing error, got {other:?}"),
    }
}

#[test]
fn skip_whitespace_skips_spaces_tabs_and_newlines() {
    let v = chars(" \t\nab");
    assert_eq!(skip_whitespace(&v, 0).unwrap(), 3);
    assert_eq!(skip_whitespace(&v, 3).unwrap(), 3);
    assert_eq!(skip_whitespace(&v, 4).unwrap(), 4);
}

#[test]
fn skip_whitespace_stops_at_the_end() {
    let v = chars("a   ");
    assert_eq!(skip_whitespace(&v, 1).unwrap(), 4);
    assert_eq!(skip_whitespace(&v, 4).unwrap(), 4);
    assert_eq!(skip_whitespace(&v, 10).unwrap(), 10);
    assert_eq!(skip_whitespace(&Vec::new(), 0).unwrap(), 0);
}

#[test]
fn skip_whitespace_does_not_skip_other_white_space() {
    let v = chars("\r x");
    assert_eq!(skip_whitespace(&v, 0).unwrap(), 0);
}

#[test]
fn parses_scalar_values() {
    let sv = parse_ok("EU4txt\ndate=1444.11.11\nplayer=\"BOH\"\nsaved=yes\nironman=no\nspeed=3\nratio=0.5\ndelta=-12\n");
    assert_eq!(sv.len(), 7);
    match object(&sv[0], "date") {
        SaveValue::SaveDate(d) => assert_eq!(d, "1444.11.11"),
        other => panic!("{other:?}"),
    }
    match object(&sv[1], "player") {
        SaveValue::SaveString(s) => assert_eq!(s, "BOH"),
        other => panic!("{other:?}"),
    }
    assert!(matches!(object(&sv[2], "saved"), SaveValue::SaveBool(true)));
    assert!(matches!(object(&sv[3], "ironman"), SaveValue::SaveBool(false)));
    assert!(matches!(object(&sv[4], "speed"), SaveValue::SaveNumber(3)));
    match object(&sv[5], "ratio") {
        SaveValue::SaveFloat(t) => assert_eq!(t, "0.5"),
        other => panic!("{other:?}"),
    }
    assert!(matches!(object(&sv[6], "delta"), SaveValue::SaveNumber(-12)));
}

#[test]
fn numbers_that_do_not_read_become_999() {
    let sv = parse_ok("EU4txt\na=99999999999\nb=-\nc=1-2\n");
    assert!(matches!(object(&sv[0], "a"), SaveValue::SaveNumber(999)));
    assert!(matches!(object(&sv[1], "b"), SaveValue::SaveNumber(999)));
    assert!(matches!(object(&sv[2], "c"), SaveValue::SaveNumber(999)));
}

#[test]
fn parses_nested_arrays_with_a_trailing_null() {
    let sv = parse_ok("EU4txt\ncountries={\n\tBOH={\n\t\tgovernment_rank=2\n\t}\n}\n");
    assert_eq!(sv.len(), 2);
    let countries = array(object(&sv[0], "countries"));
    assert_eq!(countries.len(), 1);
    let boh = array(object(&countries[0], "BOH"));
    assert_eq!(boh.len(), 1);
    assert!(matches!(object(&boh[0], "government_rank"), SaveValue::SaveNumber(2)));
    assert!(matches!(*sv[1], SaveValue::SaveNull));
}

#[test]
fn parses_keys_that_are_numbers_words_or_empty() {
    let sv = parse_ok("EU4txt\n1=yes\nmap_area{\n a=1\n}\n=5\nplain word\n");
    assert!(matches!(object(&sv[0], "1"), SaveValue::SaveBool(true)));
    let area = array(object(&sv[1], "map_area"));
    assert!(matches!(object(&area[0], "a"), SaveValue::SaveNumber(1)));
    assert!(matches!(object(&sv[2], ""), SaveValue::SaveNumber(5)));
    match &*sv[3] {
        SaveValue::SaveString(s) => assert_eq!(s, "plain"),
        other => panic!("{other:?}"),
    }
    match &*sv[4] {
        SaveValue::SaveString(s) => assert_eq!(s, "word"),
        other => panic!("{other:?}"),
    }
}

#[test]
fn a_quoted_key_is_a_string_followed_by_an_empty_key() {
    let sv = parse_ok("EU4txt\n\"key\"=5\n");
    assert_eq!(sv.len(), 2);
    match &*sv[0] {
        SaveValue::SaveString(s) => assert_eq!(s, "key"),
        other => panic!("{other:?}"),
    }
    assert!(matches!(object(&sv[1], ""), SaveValue::SaveNumber(5)));
}

#[test]
fn repeated_header_lines_are_all_skipped() {
    let sv = parse_ok("EU4txt\nEU4txt\nfoo=1\n");
    assert_eq!(sv.len(), 1);
    assert!(matches!(object(&sv[0], "foo"), SaveValue::SaveNumber(1)));
}

#[test]
fn header_only_gives_no_values() {
    assert_eq!(parse_ok("EU4txt\n").len(), 0);
}

#[test]
fn missing_header_is_refused() {
    let r = parse_savegame(b"countries={ }\n");
    let e = r.unwrap_err();
    assert_eq!(file_parsing_message(&e), "Invalid file format. The file must start with 'EU4txt'!");
}

#[test]
fn nul_character_is_an_unexpected_eof() {
    let r = parse_savegame(b"EU4txt\na=1\n\0");
    let e = r.unwrap_err();
    assert_eq!(file_parsing_message(&e), "Unexpected EOF at index: 4!");
}

#[test]
fn nul_character_inside_an_object() {
    let r = parse_savegame(b"EU4txt\nabc=\0");
    let e = r.unwrap_err();
    assert_eq!(file_parsing_message(&e), "Unexpected EOF at index: 4!");
}

#[test]
fn reading_past_the_end_is_reported_by_the_checked_parse() {
    assert!(parse_savegame_checked(b"EU4txt\nfoo=1").is_none());
    assert!(parse_savegame_checked(b"EU4txt\n\"open").is_none());
    assert!(parse_savegame_checked(b"EU4txt\nlist={ 1 2").is_none());
}

#[test]
fn an_array_without_its_closing_brace_ends_at_the_end_of_the_text() {
    let sv = parse_ok("EU4txt\nlist={ 1 2 ");
    assert_eq!(sv.len(), 1);
    let items = array(object(&sv[0], "list"));
    assert_eq!(items.len(), 2);
    assert!(matches!(*items[1], SaveValue::SaveNumber(2)));
}

#[test]
fn invalid_utf8_is_decoded_lossily() {
    let sv = parse_ok("EU4txt\nname=\"x\"\n");
    assert_eq!(sv.len(), 2);
    assert!(matches!(*sv[1], SaveValue::SaveNull));
    let bytes: Vec<u8> = b"EU4txt\nname=\"M\xfcnchen\"\n".to_vec();
    let sv = match parse_savegame_checked(&bytes) {
        Some(Ok(v)) => v,
        other => panic!("{other:?}"),
    };
    match object(&sv[0], "name") {
        SaveValue::SaveString(s) => assert_eq!(s, "M\u{FFFD}nchen"),
        other => panic!("{other:?}"),
    }
}

#[test]
fn parse_savegame_text_reads_decoded_text() {
    let text = chars("EU4txt\nspeed=3\n");
    let sv = parse_savegame_text(&text).unwrap();
    assert_eq!(sv.len(), 1);
    assert!(matches!(object(&sv[0], "speed"), SaveValue::SaveNumber(3)));
}

#[test]
fn parse_recursive_returns_the_next_index() {
    let v = chars("abc=1\nrest");
    let (value, next) = parse_recursive(&v, 0).unwrap();
    assert_eq!(next, 6);
    assert!(matches!(object(&value, "abc"), SaveValue::SaveNumber(1)));
}

#[test]
fn parse_recursive_at_the_end_is_null() {
    let v = chars("ab \n");
    let (value, next) = parse_recursive(&v, 3).unwrap();
    assert!(matches!(*value, SaveValue::SaveNull));
    assert_eq!(next, 4);
    let (value, next) = parse_recursive(&v, 9).unwrap();
    assert!(matches!(*value, SaveValue::SaveNull));
    assert_eq!(next, 9);
}

#[test]
fn parse_array_reads_to_the_closing_brace() {
    let v = chars("1 2 }\n");
    let (value, next) = parse_array(&v, 0).unwrap();
    assert_eq!(next, 5);
    let items = array(&value);
    assert_eq!(items.len(), 2);
    assert!(matches!(*items[0], SaveValue::SaveNumber(1)));
    assert!(matches!(*items[1], SaveValue::SaveNumber(2)));
}

#[test]
fn parse_array_empty() {
    let v = chars("  }\n");
    let (value, next) = parse_array(&v, 0).unwrap();
    assert_eq!(next, 3);
    assert_eq!(array(&value).len(), 0);
}

#[test]
fn parse_array_running_to_the_end_of_the_text() {
    let v = chars("1 2}\n");
    let (value, next) = parse_array(&v, 0).unwrap();
    assert_eq!(next, 6);
    let items = array(&value);
    assert_eq!(items.len(), 2);
    assert!(matches!(*items[0], SaveValue::SaveNumber(1)));
    assert!(matches!(*items[1], SaveValue::SaveNumber(999)));
}

#[test]
fn parse_savegame_reads_value_after_value() {
    let text = "EU4txt\nEU4txt\na=1\nlist={ x y }\n\"s\" b=yes\n";
    let whole = parse_ok(text);
    let rest = chars("a=1\nlist={ x y }\n\"s\" b=yes\n");
    let mut i = 0;
    let mut n = 0;
    while i < rest.len() {
        let (v, next) = parse_recursive(&rest, i).unwrap();
        assert_eq!(format!("{v:?}"), format!("{:?}", whole[n]));
        assert!(next > i);
        i = next;
        n += 1;
    }
    assert_eq!(n, whole.len());
}
