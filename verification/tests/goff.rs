use goff::error::Error;
use goff::serialize::{Deserializer, FieldSpec};

fn fields_of(names: &[&str]) -> FieldSpec {
    let owned: Vec<String> = names.iter().map(|n| (*n).to_string()).collect();
    FieldSpec::from_names(owned).expect("field names must be distinct")
}

#[test]
fn simple() {
    let simple_str = "
string    = 'foobar'
int       = 1
neg-int   = -1
bool      = no
newline   = 'foo\\nbar'
escapes   = 'foo\\\'bar'
multiline = '
foo
bar'
    ";

    let fields = fields_of(&["string", "int", "neg_int", "bool", "newline", "escapes", "multiline"]);
    let mut seen = vec![false; 7];
    let mut d = Deserializer::from_str(simple_str);

    let mut string_v: Option<String> = None;
    let mut int_v: Option<u8> = None;
    let mut neg_int_v: Option<i8> = None;
    let mut bool_v: Option<bool> = None;
    let mut newline_v: Option<String> = None;
    let mut escapes_v: Option<String> = None;
    let mut multiline_v: Option<String> = None;

    loop {
        match d.struct_next_key(&fields, &mut seen, false) {
            Ok(None) => break,
            Ok(Some(i)) => {
                match i {
                    0 => string_v = Some(d.parse_string().unwrap()),
                    1 => int_v = Some(d.parse_u8().unwrap()),
                    2 => neg_int_v = Some(d.parse_i8().unwrap()),
                    3 => bool_v = Some(d.parse_bool().unwrap()),
                    4 => newline_v = Some(d.parse_string().unwrap()),
                    5 => escapes_v = Some(d.parse_string().unwrap()),
                    6 => multiline_v = Some(d.parse_string().unwrap()),
                    _ => panic!("index out of range"),
                }
                d.struct_after_value(false).unwrap();
            },
            Err(e) => panic!("decode failed: {:?}", e),
        }
    }
    assert!(seen.iter().all(|s| *s));

    assert_eq!(string_v.unwrap(), "foobar".to_owned());
    assert_eq!(int_v.unwrap(), 1u8);
    assert_eq!(neg_int_v.unwrap(), -1i8);
    assert_eq!(bool_v.unwrap(), false);
    assert_eq!(newline_v.unwrap(), "foo\nbar".to_owned());
    assert_eq!(escapes_v.unwrap(), "foo'bar".to_owned());
    assert_eq!(multiline_v.unwrap(), "\nfoo\nbar".to_owned());
}

#[test]
fn boolean_tokens() {
    let mut d = Deserializer::from_str("yes");
    assert_eq!(d.parse_bool(), Ok(true));
    let mut d = Deserializer::from_str("no");
    assert_eq!(d.parse_bool(), Ok(false));
    let mut d = Deserializer::from_str("maybe");
    assert_eq!(d.parse_bool(), Err(Error::ExpectedBoolean));
    let mut d = Deserializer::from_str("");
    assert_eq!(d.parse_bool(), Err(Error::ExpectedBoolean));
    let mut d = Deserializer::from_str("Yes");
    assert_eq!(d.parse_bool(), Err(Error::ExpectedBoolean));
}

#[test]
fn unsigned_ranges() {
    let mut d = Deserializer::from_str("255");
    assert_eq!(d.parse_u8(), Ok(255u8));
    let mut d = Deserializer::from_str("256");
    assert_eq!(d.parse_u8(), Err(Error::IntegerOverflow));
    let mut d = Deserializer::from_str("65535");
    assert_eq!(d.parse_u16(), Ok(65535u16));
    let mut d = Deserializer::from_str("65536");
    assert_eq!(d.parse_u16(), Err(Error::IntegerOverflow));
    let mut d = Deserializer::from_str("4294967295");
    assert_eq!(d.parse_u32(), Ok(4294967295u32));
    let mut d = Deserializer::from_str("4294967296");
    assert_eq!(d.parse_u32(), Err(Error::IntegerOverflow));
    let mut d = Deserializer::from_str("18446744073709551615");
    assert_eq!(d.parse_u64(), Ok(u64::MAX));
    let mut d = Deserializer::from_str("18446744073709551616");
    assert_eq!(d.parse_u64(), Err(Error::IntegerOverflow));
}

#[test]
fn signed_ranges() {
    let mut d = Deserializer::from_str("-128");
    assert_eq!(d.parse_i8(), Ok(-128i8));
    let mut d = Deserializer::from_str("-129");
    assert_eq!(d.parse_i8(), Err(Error::IntegerOverflow));
    let mut d = Deserializer::from_str("127");
    assert_eq!(d.parse_i8(), Ok(127i8));
    let mut d = Deserializer::from_str("128");
    assert_eq!(d.parse_i8(), Err(Error::IntegerOverflow));
    let mut d = Deserializer::from_str("-9223372036854775808");
    assert_eq!(d.parse_i64(), Ok(i64::MIN));
    let mut d = Deserializer::from_str("9223372036854775807");
    assert_eq!(d.parse_i64(), Ok(i64::MAX));
    let mut d = Deserializer::from_str("-32768");
    assert_eq!(d.parse_i16(), Ok(i16::MIN));
    let mut d = Deserializer::from_str("2147483648");
    assert_eq!(d.parse_i32(), Err(Error::IntegerOverflow));
}

#[test]
fn integer_round_trip() {
    for v in [0u64, 1, 9, 10, 99, 12345, 8000000000, u64::MAX] {
        let text = format!("{}", v);
        let mut d = Deserializer::from_str(&text);
        assert_eq!(d.parse_u64(), Ok(v));
    }
    for v in [0i64, -1, 42, -12345, i64::MIN, i64::MAX] {
        let text = format!("{}", v);
        let mut d = Deserializer::from_str(&text);
        assert_eq!(d.parse_i64(), Ok(v));
    }
}

#[test]
fn integer_syntax_errors() {
    let mut d = Deserializer::from_str("");
    assert_eq!(d.parse_u8(), Err(Error::Eof));
    let mut d = Deserializer::from_str("abc");
    assert_eq!(d.parse_u8(), Err(Error::ExpectedInteger));
    let mut d = Deserializer::from_str("+5");
    assert_eq!(d.parse_i8(), Err(Error::ExpectedSign));
    let mut d = Deserializer::from_str("-x");
    assert_eq!(d.parse_i8(), Err(Error::ExpectedInteger));
    let mut d = Deserializer::from_str("-");
    assert_eq!(d.parse_i8(), Err(Error::Eof));
}

fn escape_text(content: &str) -> String {
    let mut out = String::new();
    for c in content.chars() {
        match c {
            '\\' => out.push_str("\\\\"),
            '\'' => out.push_str("\\'"),
            '\n' => out.push_str("\\n"),
            '\r' => out.push_str("\\r"),
            '\t' => out.push_str("\\t"),
            other => out.push(other),
        }
    }
    out
}

#[test]
fn string_escapes() {
    let mut d = Deserializer::from_str("'foo\\nbar'");
    assert_eq!(d.parse_string(), Ok("foo\nbar".to_owned()));
    let mut d = Deserializer::from_str("'foo\\'bar'");
    assert_eq!(d.parse_string(), Ok("foo'bar".to_owned()));
    let mut d = Deserializer::from_str("'foo\nbar'");
    assert_eq!(d.parse_string(), Ok("foo\nbar".to_owned()));
    let mut d = Deserializer::from_str("'a\\\\b'");
    assert_eq!(d.parse_string(), Ok("a\\b".to_owned()));
    let mut d = Deserializer::from_str("'tab\\there'");
    assert_eq!(d.parse_string(), Ok("tab\there".to_owned()));
    // an unrecognized escape passes the character through, backslash dropped
    let mut d = Deserializer::from_str("'a\\qb'");
    assert_eq!(d.parse_string(), Ok("aqb".to_owned()));
    let mut d = Deserializer::from_str("''");
    assert_eq!(d.parse_string(), Ok(String::new()));
}

#[test]
fn string_round_trip() {
    for content in ["", "plain", "with 'quotes' and \\slashes\\", "line\nbreaks\tand\rmore", "unicode \u{e9}\u{4e16}"] {
        let text = format!("'{}'", escape_text(content));
        let mut d = Deserializer::from_str(&text);
        assert_eq!(d.parse_string(), Ok(content.to_owned()));
    }
}

#[test]
fn string_errors() {
    let mut d = Deserializer::from_str("'unterminated");
    assert_eq!(d.parse_string(), Err(Error::NoEndQuote));
    let mut d = Deserializer::from_str("'trailing\\");
    assert_eq!(d.parse_string(), Err(Error::NoEndQuote));
    let mut d = Deserializer::from_str("x");
    assert_eq!(d.parse_string(), Err(Error::ExpectedString));
    let mut d = Deserializer::from_str("");
    assert_eq!(d.parse_string(), Err(Error::Eof));
}

#[test]
fn escape_char_decoding() {
    let mut d = Deserializer::from_str("n");
    assert_eq!(d.parse_escape(), Ok('\n'));
    let mut d = Deserializer::from_str("r");
    assert_eq!(d.parse_escape(), Ok('\r'));
    let mut d = Deserializer::from_str("t");
    assert_eq!(d.parse_escape(), Ok('\t'));
    let mut d = Deserializer::from_str("'");
    assert_eq!(d.parse_escape(), Ok('\''));
    let mut d = Deserializer::from_str("z");
    assert_eq!(d.parse_escape(), Ok('z'));
    let mut d = Deserializer::from_str("");
    assert_eq!(d.parse_escape(), Err(Error::Eof));
}

fn decode_two_fields(text: &str) -> (i64, String) {
    let fields = fields_of(&["a", "b"]);
    let mut seen = vec![false; 2];
    let mut d = Deserializer::from_str(text);
    d.struct_begin().unwrap();
    let mut a: Option<i64> = None;
    let mut b: Option<String> = None;
    loop {
        match d.struct_next_key(&fields, &mut seen, true).unwrap() {
            None => break,
            Some(0) => {
                a = Some(d.parse_i64().unwrap());
                d.struct_after_value(true).unwrap();
            },
            Some(1) => {
                b = Some(d.parse_string().unwrap());
                d.struct_after_value(true).unwrap();
            },
            Some(_) => panic!("index out of range"),
        }
    }
    d.expect_end().unwrap();
    (a.unwrap(), b.unwrap())
}

#[test]
fn structure_field_order_is_irrelevant() {
    assert_eq!(decode_two_fields("(a = 1, b = 'x')"), (1, "x".to_owned()));
    assert_eq!(decode_two_fields("(b = 'x', a = 1)"), (1, "x".to_owned()));
}

#[test]
fn structure_errors() {
    let fields = fields_of(&["a"]);
    let mut seen = vec![false; 1];
    let mut d = Deserializer::from_str("(x = 1)");
    d.struct_begin().unwrap();
    assert_eq!(
        d.struct_next_key(&fields, &mut seen, true),
        Err(Error::UnknownField("x".to_owned()))
    );

    let mut seen = vec![false; 1];
    let mut d = Deserializer::from_str("(a = 1, a = 2)");
    d.struct_begin().unwrap();
    assert_eq!(d.struct_next_key(&fields, &mut seen, true), Ok(Some(0)));
    assert_eq!(d.parse_i64(), Ok(1));
    d.struct_after_value(true).unwrap();
    assert_eq!(
        d.struct_next_key(&fields, &mut seen, true),
        Err(Error::DuplicateField("a".to_owned()))
    );

    let mut d = Deserializer::from_str("x = 1");
    assert_eq!(d.struct_begin(), Err(Error::ExpectedStruct));

    // hyphens in a key fold to underscores before matching
    let fields = fields_of(&["neg_int"]);
    let mut seen = vec![false; 1];
    let mut d = Deserializer::from_str("(neg-int = -3)");
    d.struct_begin().unwrap();
    assert_eq!(d.struct_next_key(&fields, &mut seen, true), Ok(Some(0)));
    assert_eq!(d.parse_i64(), Ok(-3));
}

#[test]
fn structure_missing_field() {
    let fields = fields_of(&["a", "b"]);
    let mut seen = vec![false; 2];
    let mut d = Deserializer::from_str("(a = 1)");
    d.struct_begin().unwrap();
    assert_eq!(d.struct_next_key(&fields, &mut seen, true), Ok(Some(0)));
    assert_eq!(d.parse_i64(), Ok(1));
    d.struct_after_value(true).unwrap();
    assert_eq!(d.struct_next_key(&fields, &mut seen, true), Ok(None));
    let missing = fields.first_missing(&seen);
    assert_eq!(missing, Some(1));
    let err = Error::MissingField(fields.name_at(1).clone());
    assert_eq!(err, Error::MissingField("b".to_owned()));
}

fn decode_i64_seq(text: &str) -> Result<Vec<i64>, Error> {
    let mut d = Deserializer::from_str(text);
    d.seq_begin()?;
    let mut out: Vec<i64> = Vec::new();
    let mut first = true;
    loop {
        if !d.seq_next(first)? {
            break;
        }
        out.push(d.parse_i64()?);
        first = false;
    }
    d.expect_end()?;
    Ok(out)
}

#[test]
fn sequences() {
    assert_eq!(decode_i64_seq("[1, 2, 3]"), Ok(vec![1, 2, 3]));
    assert_eq!(decode_i64_seq("[]"), Ok(vec![]));
    assert_eq!(decode_i64_seq("[1, 2,]"), Ok(vec![1, 2]));
    assert_eq!(decode_i64_seq("[ 7 ]"), Ok(vec![7]));
}

#[test]
fn whole_integer_sequences() {
    let mut d = Deserializer::from_str("[1, 2, 3]");
    assert_eq!(d.parse_u64_seq(), Ok(vec![1, 2, 3]));
    let mut d = Deserializer::from_str("[]");
    assert_eq!(d.parse_u64_seq(), Ok(vec![]));
    let mut d = Deserializer::from_str("[1, 2,]");
    assert_eq!(d.parse_u64_seq(), Ok(vec![1, 2]));
    let mut d = Deserializer::from_str("1, 2]");
    assert_eq!(d.parse_u64_seq(), Err(Error::ExpectedSeq));
    let mut d = Deserializer::from_str("[1 2]");
    assert_eq!(d.parse_u64_seq(), Err(Error::ExpectedSeq));
    let mut d = Deserializer::from_str("[18446744073709551616]");
    assert_eq!(d.parse_u64_seq(), Err(Error::IntegerOverflow));
    let mut d = Deserializer::from_str("[1,");
    assert_eq!(d.parse_u64_seq(), Err(Error::Eof));
}

#[test]
fn sequence_errors() {
    assert_eq!(decode_i64_seq("1, 2]"), Err(Error::ExpectedSeq));
    assert_eq!(decode_i64_seq("[1 2]"), Err(Error::ExpectedSeq));
    assert_eq!(decode_i64_seq("[1, 2"), Err(Error::Eof));
    assert_eq!(decode_i64_seq("[1,"), Err(Error::Eof));
    assert_eq!(decode_i64_seq(""), Err(Error::Eof));
}

fn decode_option_u32(text: &str) -> Result<Option<u32>, Error> {
    let mut d = Deserializer::from_str(text);
    if d.parse_nothing() {
        return Ok(None);
    }
    match d.parse_u32() {
        Ok(v) => Ok(Some(v)),
        Err(e) => Err(d.option_error(e)),
    }
}

#[test]
fn optional_values() {
    assert_eq!(decode_option_u32("nothing"), Ok(None));
    assert_eq!(decode_option_u32("5"), Ok(Some(5)));
    // a token that looks like a misspelt marker reports ExpectedNothing
    assert_eq!(decode_option_u32("nil"), Err(Error::ExpectedNothing));
    // anything else surfaces the underlying grammar's own error
    assert_eq!(decode_option_u32("x"), Err(Error::ExpectedInteger));
}

#[test]
fn ignored_values_stay_in_step() {
    let mut d = Deserializer::from_str("(x = 1, y = [1, 2, 'z'], w = (inner = 'v')) yes");
    assert_eq!(d.parse_ignored_any(16), Ok(()));
    d.skip_ws();
    assert_eq!(d.parse_bool(), Ok(true));
    let mut d = Deserializer::from_str("'skip me' 42");
    assert_eq!(d.parse_ignored_any(16), Ok(()));
    d.skip_ws();
    assert_eq!(d.parse_u8(), Ok(42));
    let mut d = Deserializer::from_str("-17]");
    assert_eq!(d.parse_ignored_any(16), Ok(()));
    let mut d = Deserializer::from_str("nothing");
    assert_eq!(d.parse_ignored_any(16), Ok(()));
}

#[test]
fn nesting_limit() {
    let mut d = Deserializer::from_str("[[[1]]]");
    assert_eq!(d.parse_ignored_any(2), Err(Error::NestingTooDeep));
    let mut d = Deserializer::from_str("[[[1]]]");
    assert_eq!(d.parse_ignored_any(3), Ok(()));
}

#[test]
fn trailing_content() {
    let mut d = Deserializer::from_str("yes yes");
    assert_eq!(d.parse_bool(), Ok(true));
    assert_eq!(d.expect_end(), Err(Error::UnexpectedEnd));
    let mut d = Deserializer::from_str("yes   \n");
    assert_eq!(d.parse_bool(), Ok(true));
    assert_eq!(d.expect_end(), Ok(()));
}

#[test]
fn cursor_primitives() {
    let mut d = Deserializer::from_str("ab");
    assert_eq!(d.peek_char(), Ok('a'));
    assert_eq!(d.next_char(), Ok('a'));
    assert_eq!(d.next_char(), Ok('b'));
    assert_eq!(d.next_char(), Err(Error::Eof));
    // the cursor steps over whole characters, never single bytes
    let mut d = Deserializer::from_str("\u{e9}x");
    assert_eq!(d.next_char(), Ok('\u{e9}'));
    assert_eq!(d.next_char(), Ok('x'));
    let mut d = Deserializer::from_str("yes!");
    assert!(d.match_literal("yes"));
    assert!(!d.match_literal("no"));
    assert_eq!(d.next_char(), Ok('!'));
}

#[test]
fn field_spec_rejects_duplicates() {
    let names: Vec<String> = vec!["a".to_string(), "b".to_string(), "a".to_string()];
    assert!(FieldSpec::from_names(names).is_none());
    let fields = fields_of(&["a", "b"]);
    assert_eq!(fields.field_count(), 2);
    assert_eq!(fields.name_at(1), "b");
}

#[test]
fn error_messages() {
    assert_eq!(Error::Eof.message(), "End-of-file".to_owned());
    assert_eq!(Error::ExpectedBoolean.message(), "Expected a boolean".to_owned());
    assert_eq!(Error::NoEndQuote.message(), "EOF without closing string".to_owned());
    assert_eq!(
        Error::UnknownField("x".to_owned()).message(),
        "Unknown field".to_owned()
    );
}
