use vstd::prelude::*;
use crate::text::push_decimal;
use crate::numbers::{chars_of, decimal_i32, is_digit, parse_i32_spec};
#[allow(unused_imports)]
use crate::text::decimal;

verus! {

broadcast use vstd::std_specs::vec::axiom_vec_decreases_to_view;


/// A character that the save format treats as blank between values.
pub open spec fn is_blank(c: char) -> bool {
    c == ' ' || c == '\t' || c == '\n'
}

/// The first index at or after `i` that does not hold a blank, or `i` itself
/// when `i` already lies at or past the end.
pub open spec fn skip_blanks(s: Seq<char>, i: int) -> int
    decreases s.len() - i,
{
    if i >= s.len() || !is_blank(s[i]) {
        i
    } else {
        skip_blanks(s, i + 1)
    }
}


/// A value of the save format.
///
/// A number with one decimal point keeps its text in `SaveFloat`: reading it
/// as a floating-point number is left to the caller.
#[derive(Debug)]
pub enum SaveValue {
    SaveNull,
    SaveBool(bool),
    SaveNumber(i32),
    SaveFloat(String),
    SaveDate(String),
    SaveString(String),
    SaveArray(Vec<Box<SaveValue>>),
    SaveObject(String, Box<SaveValue>),
}

/// The mathematical model of a `SaveValue`.
pub enum SpecValue {
    Null,
    Bool(bool),
    Number(i32),
    Float(Seq<char>),
    Date(Seq<char>),
    Str(Seq<char>),
    Array(Seq<SpecValue>),
    Object(Seq<char>, Box<SpecValue>),
}

/// The model of a value.
pub open spec fn value_view(v: SaveValue) -> SpecValue
    decreases v,
{
    match v {
        SaveValue::SaveNull => SpecValue::Null,
        SaveValue::SaveBool(b) => SpecValue::Bool(b),
        SaveValue::SaveNumber(n) => SpecValue::Number(n),
        SaveValue::SaveFloat(t) => SpecValue::Float(t@),
        SaveValue::SaveDate(t) => SpecValue::Date(t@),
        SaveValue::SaveString(t) => SpecValue::Str(t@),
        SaveValue::SaveArray(items) => SpecValue::Array(items_view(items@)),
        SaveValue::SaveObject(k, b) => SpecValue::Object(k@, Box::new(value_view(*b))),
    }
}

/// The models of a sequence of values, in order.
pub open spec fn items_view(s: Seq<Box<SaveValue>>) -> Seq<SpecValue>
    decreases s,
{
    if s.len() == 0 {
        seq![]
    } else {
        items_view(s.drop_last()).push(value_view(*s.last()))
    }
}

impl View for SaveValue {
    type V = SpecValue;

    open spec fn view(&self) -> SpecValue {
        value_view(*self)
    }
}


/// Where the parse of one value stops: a value and the index after it, an
/// error at the index of a NUL character, or an abort (the index runs past
/// the end of the text, or more than 255 decimal points in one number).
pub enum Parsed {
    Done(SpecValue, int),
    Nul(int),
    Abort,
}

/// First index at or after `i` that holds a double quote, or the end.
pub open spec fn quote_end(s: Seq<char>, i: int) -> int
    decreases s.len() - i,
{
    if i >= s.len() || s[i] == '"' {
        i
    } else {
        quote_end(s, i + 1)
    }
}

/// A character that ends a number: a blank or `=`.
pub open spec fn ends_number(c: char) -> bool {
    is_blank(c) || c == '='
}

/// First index at or after `i` that ends a number, or the end.
pub open spec fn number_end(s: Seq<char>, i: int) -> int
    decreases s.len() - i,
{
    if i >= s.len() || ends_number(s[i]) {
        i
    } else {
        number_end(s, i + 1)
    }
}

/// A character that ends a bare word: a blank, `=` or `{`.
pub open spec fn ends_word(c: char) -> bool {
    is_blank(c) || c == '=' || c == '{'
}

/// First index at or after `i` that ends a bare word, or the end.
pub open spec fn word_end(s: Seq<char>, i: int) -> int
    decreases s.len() - i,
{
    if i >= s.len() || ends_word(s[i]) {
        i
    } else {
        word_end(s, i + 1)
    }
}

/// The number of decimal points in `t`.
pub open spec fn count_dots(t: Seq<char>) -> nat
    decreases t.len(),
{
    if t.len() == 0 {
        0
    } else {
        count_dots(t.drop_last()) + if t.last() == '.' { 1nat } else { 0nat }
    }
}

/// The save format's bare word for true.
pub open spec fn yes_word() -> Seq<char> {
    seq!['y', 'e', 's']
}

/// The save format's bare word for false.
pub open spec fn no_word() -> Seq<char> {
    seq!['n', 'o']
}

pub proof fn lemma_quote_end_bounds(s: Seq<char>, i: int)
    ensures
        i <= quote_end(s, i),
        i <= s.len() ==> quote_end(s, i) <= s.len(),
    decreases s.len() - i,
{
    if !(i >= s.len() || s[i] == '"') {
        lemma_quote_end_bounds(s, i + 1);
    }
}

pub proof fn lemma_number_end_bounds(s: Seq<char>, i: int)
    ensures
        i <= number_end(s, i),
        i <= s.len() ==> number_end(s, i) <= s.len(),
        0 <= number_end(s, i) < s.len() ==> ends_number(s[number_end(s, i)]),
        forall|k: int| i <= k < number_end(s, i) ==> !ends_number(#[trigger] s[k]),
    decreases s.len() - i,
{
    if !(i >= s.len() || ends_number(s[i])) {
        lemma_number_end_bounds(s, i + 1);
    }
}

pub proof fn lemma_word_end_bounds(s: Seq<char>, i: int)
    ensures
        i <= word_end(s, i),
        i <= s.len() ==> word_end(s, i) <= s.len(),
        0 <= word_end(s, i) < s.len() ==> ends_word(s[word_end(s, i)]),
        forall|k: int| i <= k < word_end(s, i) ==> !ends_word(#[trigger] s[k]),
    decreases s.len() - i,
{
    if !(i >= s.len() || ends_word(s[i])) {
        lemma_word_end_bounds(s, i + 1);
    }
}

pub proof fn lemma_skip_blanks_bounds(s: Seq<char>, i: int)
    ensures
        i <= skip_blanks(s, i),
        i <= s.len() ==> skip_blanks(s, i) <= s.len(),
        0 <= skip_blanks(s, i) < s.len() ==> !is_blank(s[skip_blanks(s, i)]),
        forall|k: int| i <= k < skip_blanks(s, i) ==> is_blank(#[trigger] s[k]),
    decreases s.len() - i,
{
    if !(i >= s.len() || !is_blank(s[i])) {
        lemma_skip_blanks_bounds(s, i + 1);
    }
}

/// The value that starts at `i` in `s`, and the index where the parse goes on.
///
/// Blanks are skipped first. Then `{` opens an array; `"` opens a quoted
/// string that runs to the next `"`; a digit or `-` opens a number, which
/// ends at a blank (an integer without a point, a float with one point, a
/// date with more) or at `=` (the number is then the key of an object); a NUL
/// character is an error; any other character opens a bare word, which ends
/// at a blank (`yes` and `no` are booleans, other words strings), at `=`
/// (the key of an object whose value follows) or at `{` (the key of an object
/// whose value is the array that opens there). The index after a value
/// skips the character that ended it.
pub open spec fn parse_value(s: Seq<char>, i: int) -> Parsed
    decreases s.len() - i, 3int,
{
    if i >= s.len() {
        Parsed::Done(SpecValue::Null, i)
    } else {
        let j = skip_blanks(s, i);
        proof { lemma_skip_blanks_bounds(s, i); }
        if j >= s.len() {
            Parsed::Done(SpecValue::Null, j)
        } else if s[j] == '{' {
            parsed_array(s, j + 1)
        } else if s[j] == '\n' {
            Parsed::Done(SpecValue::Null, j + 1)
        } else if s[j] == '"' {
            let e = quote_end(s, j + 1);
            if e >= s.len() {
                Parsed::Abort
            } else {
                Parsed::Done(SpecValue::Str(s.subrange(j + 1, e)), e + 1)
            }
        } else if is_digit(s[j]) || s[j] == '-' {
            let e = number_end(s, j);
            proof { lemma_number_end_bounds(s, j); }
            let t = s.subrange(j, e);
            if e >= s.len() || count_dots(t) >= 256 {
                Parsed::Abort
            } else if s[e] == '=' {
                match parse_value(s, e + 1) {
                    Parsed::Done(v, k) => Parsed::Done(SpecValue::Object(t, Box::new(v)), k),
                    other => other,
                }
            } else if count_dots(t) == 1 {
                Parsed::Done(SpecValue::Float(t), e + 1)
            } else if count_dots(t) == 0 {
                Parsed::Done(
                    SpecValue::Number(
                        match parse_i32_spec(t) {
                            Some(n) => n,
                            None => 999i32,
                        },
                    ),
                    e + 1,
                )
            } else {
                Parsed::Done(SpecValue::Date(t), e + 1)
            }
        } else if s[j] == '\0' {
            Parsed::Nul(j)
        } else if s[j] == '=' {
            match parse_value(s, j + 1) {
                Parsed::Done(v, k) => Parsed::Done(SpecValue::Object(seq![], Box::new(v)), k),
                other => other,
            }
        } else {
            let e = word_end(s, j + 1);
            proof { lemma_word_end_bounds(s, j + 1); }
            let t = s.subrange(j, e);
            if e >= s.len() {
                Parsed::Abort
            } else if s[e] == '=' {
                match parse_value(s, e + 1) {
                    Parsed::Done(v, k) => Parsed::Done(SpecValue::Object(t, Box::new(v)), k),
                    other => other,
                }
            } else if s[e] == '{' {
                match parse_value(s, e) {
                    Parsed::Done(v, k) => Parsed::Done(SpecValue::Object(t, Box::new(v)), k),
                    other => other,
                }
            } else if t == yes_word() {
                Parsed::Done(SpecValue::Bool(true), e + 1)
            } else if t == no_word() {
                Parsed::Done(SpecValue::Bool(false), e + 1)
            } else {
                Parsed::Done(SpecValue::Str(t), e + 1)
            }
        }
    }
}

/// The array whose items start at `i`, just after its `{`: blanks are
/// skipped, and the text past the end of the text aborts.
pub open spec fn parsed_array(s: Seq<char>, i: int) -> Parsed
    decreases s.len() - i + 1, 2int,
{
    let j = skip_blanks(s, i);
    proof { lemma_skip_blanks_bounds(s, i); }
    if j >= s.len() {
        Parsed::Abort
    } else {
        array_items(s, j, seq![])
    }
}

/// The rest of an array whose items so far are `acc`, with the next item (or
/// the closing `}`) at the non-blank index `j`. An array that runs to the end
/// of the text ends there; blanks that run to the end abort.
pub open spec fn array_items(s: Seq<char>, j: int, acc: Seq<SpecValue>) -> Parsed
    decreases s.len() - j + 1, 1int,
{
    if j < 0 || j >= s.len() {
        Parsed::Abort
    } else if s[j] == '}' {
        Parsed::Done(SpecValue::Array(acc), j + 1)
    } else {
        match parse_value(s, j) {
            Parsed::Done(v, k) => {
                if k <= j {
                    // never taken: a value that starts before the end advances
                    Parsed::Abort
                } else if k >= s.len() {
                    Parsed::Done(SpecValue::Array(acc.push(v)), k + 1)
                } else {
                    let j2 = skip_blanks(s, k);
                    proof { lemma_skip_blanks_bounds(s, k); }
                    if j2 >= s.len() {
                        Parsed::Abort
                    } else {
                        array_items(s, j2, acc.push(v))
                    }
                }
            },
            other => other,
        }
    }
}


/// A value that starts before the end of the text ends after its start, and
/// at most as far past the end as the text is long; one that starts at or
/// past the end is `Null` and leaves the index where it was.
pub proof fn lemma_value_advances(s: Seq<char>, i: int)
    requires
        0 <= i,
    ensures
        parse_value(s, i) matches Parsed::Done(_, k) ==> {
            &&& i >= s.len() ==> k == i
            &&& i < s.len() ==> i < k <= 2 * s.len() - i
        },
    decreases s.len() - i, 3int,
{
    if i < s.len() {
        let j = skip_blanks(s, i);
        lemma_skip_blanks_bounds(s, i);
        if j < s.len() {
            if s[j] == '{' {
                lemma_array_advances(s, j + 1);
            } else if s[j] == '"' {
                lemma_quote_end_bounds(s, j + 1);
            } else if is_digit(s[j]) || s[j] == '-' {
                let e = number_end(s, j);
                lemma_number_end_bounds(s, j);
                if e < s.len() {
                    lemma_value_advances(s, e + 1);
                }
            } else if s[j] == '=' {
                lemma_value_advances(s, j + 1);
            } else if s[j] != '\n' && s[j] != '\0' {
                let e = word_end(s, j + 1);
                lemma_word_end_bounds(s, j + 1);
                if e < s.len() {
                    lemma_value_advances(s, e + 1);
                    lemma_value_advances(s, e);
                }
            }
        }
    }
}

/// An array whose items start at `a` ends after `a`, and not further past the
/// end of the text than the text is long.
pub proof fn lemma_array_advances(s: Seq<char>, a: int)
    requires
        0 <= a <= s.len(),
    ensures
        parsed_array(s, a) matches Parsed::Done(_, k) ==> a < k <= 2 * s.len() - a + 1,
    decreases s.len() - a + 1, 2int,
{
    let j = skip_blanks(s, a);
    lemma_skip_blanks_bounds(s, a);
    if j < s.len() {
        lemma_items_advance(s, j, seq![]);
    }
}

/// The rest of an array from a non-blank index `j` ends after `j`.
pub proof fn lemma_items_advance(s: Seq<char>, j: int, acc: Seq<SpecValue>)
    requires
        0 <= j < s.len(),
    ensures
        array_items(s, j, acc) matches Parsed::Done(_, k) ==> j < k <= 2 * s.len() - j + 1,
    decreases s.len() - j + 1, 1int,
{
    if s[j] != '}' {
        lemma_value_advances(s, j);
        if let Parsed::Done(v, k) = parse_value(s, j) {
            if j < k < s.len() {
                let j2 = skip_blanks(s, k);
                lemma_skip_blanks_bounds(s, k);
                if j2 < s.len() {
                    lemma_items_advance(s, j2, acc.push(v));
                }
            }
        }
    }
}


/// The values of a whole text from index `i` on, after the values `acc`:
/// values are read one after the other until the index reaches the end.
pub enum Document {
    Values(Seq<SpecValue>),
    Nul(int),
    Abort,
}

/// The values of the text `s` from index `i` on, after the values `acc`.
pub open spec fn parse_document(s: Seq<char>, i: int, acc: Seq<SpecValue>) -> Document
    decreases s.len() - i,
{
    if i < 0 || i >= s.len() {
        Document::Values(acc)
    } else {
        match parse_value(s, i) {
            Parsed::Done(v, k) => if k <= i {
                // never taken: a value that starts before the end advances
                Document::Abort
            } else if k >= s.len() {
                Document::Values(acc.push(v))
            } else {
                parse_document(s, k, acc.push(v))
            },
            Parsed::Nul(k) => Document::Nul(k),
            Parsed::Abort => Document::Abort,
        }
    }
}

/// The header line of a save game in the text format.
pub open spec fn header_text() -> Seq<char> {
    seq!['E', 'U', '4', 't', 'x', 't', '\n']
}

/// `t` begins with the header line.
pub open spec fn starts_with_header(t: Seq<char>) -> bool {
    t.len() >= 7 && t.subrange(0, 7) == header_text()
}

/// `t` without the copies of the header line that it begins with.
pub open spec fn strip_headers(t: Seq<char>) -> Seq<char>
    decreases t.len(),
{
    if starts_with_header(t) {
        strip_headers(t.skip(7))
    } else {
        t
    }
}

/// The outcome of reading a save game's decoded text.
pub enum SaveGame {
    Values(Seq<SpecValue>),
    BadHeader,
    Nul(int),
    Abort,
}

/// A save game's decoded text `t`: it must begin with the header line; the
/// values are read from what follows all the copies of the header it begins with.
pub open spec fn savegame_of_text(t: Seq<char>) -> SaveGame {
    if !starts_with_header(t) {
        SaveGame::BadHeader
    } else {
        match parse_document(strip_headers(t), 0, seq![]) {
            Document::Values(vs) => SaveGame::Values(vs),
            Document::Nul(k) => SaveGame::Nul(k),
            Document::Abort => SaveGame::Abort,
        }
    }
}

/// The error of a value names the index of a NUL character of the text.
proof fn lemma_nul_value(s: Seq<char>, i: int)
    requires
        0 <= i,
    ensures
        parse_value(s, i) matches Parsed::Nul(k) ==> 0 <= k < s.len() && s[k] == '\0',
    decreases s.len() - i, 3int,
{
    if i < s.len() {
        let j = skip_blanks(s, i);
        lemma_skip_blanks_bounds(s, i);
        if j < s.len() {
            if s[j] == '{' {
                lemma_nul_array(s, j + 1);
            } else if is_digit(s[j]) || s[j] == '-' {
                let e = number_end(s, j);
                lemma_number_end_bounds(s, j);
                if e < s.len() {
                    lemma_nul_value(s, e + 1);
                }
            } else if s[j] == '=' {
                lemma_nul_value(s, j + 1);
            } else if s[j] != '\n' && s[j] != '"' && s[j] != '\0' {
                let e = word_end(s, j + 1);
                lemma_word_end_bounds(s, j + 1);
                if e < s.len() {
                    lemma_nul_value(s, e + 1);
                    lemma_nul_value(s, e);
                }
            }
        }
    }
}

/// The error of an array names the index of a NUL character of the text.
proof fn lemma_nul_array(s: Seq<char>, a: int)
    requires
        0 <= a <= s.len(),
    ensures
        parsed_array(s, a) matches Parsed::Nul(k) ==> 0 <= k < s.len() && s[k] == '\0',
    decreases s.len() - a + 1, 2int,
{
    let j = skip_blanks(s, a);
    lemma_skip_blanks_bounds(s, a);
    if j < s.len() {
        lemma_nul_items(s, j, seq![]);
    }
}

/// The error of the rest of an array names the index of a NUL character.
proof fn lemma_nul_items(s: Seq<char>, j: int, acc: Seq<SpecValue>)
    requires
        0 <= j < s.len(),
    ensures
        array_items(s, j, acc) matches Parsed::Nul(k) ==> 0 <= k < s.len() && s[k] == '\0',
    decreases s.len() - j + 1, 1int,
{
    if s[j] != '}' {
        lemma_nul_value(s, j);
        lemma_value_advances(s, j);
        if let Parsed::Done(v, k) = parse_value(s, j) {
            if j < k < s.len() {
                let j2 = skip_blanks(s, k);
                lemma_skip_blanks_bounds(s, k);
                if j2 < s.len() {
                    lemma_nul_items(s, j2, acc.push(v));
                }
            }
        }
    }
}

/// The error of the values from `i` on names the index of a NUL character.
proof fn lemma_nul_document(s: Seq<char>, i: int, acc: Seq<SpecValue>)
    ensures
        parse_document(s, i, acc) matches Document::Nul(k) ==> 0 <= k < s.len() && s[k] == '\0',
    decreases s.len() - i,
{
    if 0 <= i < s.len() {
        lemma_nul_value(s, i);
        if let Parsed::Done(v, k) = parse_value(s, i) {
            if i < k < s.len() {
                lemma_nul_document(s, k, acc.push(v));
            }
        }
    }
}

proof fn lemma_quote_end_at(s: Seq<char>, i: int, e: int)
    requires
        i <= e < s.len(),
        s[e] == '"',
        forall|k: int| i <= k < e ==> s[k] != '"',
    ensures
        quote_end(s, i) == e,
    decreases e - i,
{
    if i < e {
        lemma_quote_end_at(s, i + 1, e);
    }
}

/// A quoted string is the text between its opening double quote and the
/// next double quote, blanks, `=` and all, and the parse goes on just after
/// the closing quote.
pub proof fn lemma_quoted_string(s: Seq<char>, j: int, e: int)
    requires
        0 <= j < e < s.len(),
        s[j] == '"',
        s[e] == '"',
        forall|k: int| j < k < e ==> s[k] != '"',
    ensures
        parse_value(s, j) == Parsed::Done(SpecValue::Str(s.subrange(j + 1, e)), e + 1),
{
    assert(skip_blanks(s, j) == j);
    lemma_quote_end_at(s, j + 1, e);
}

/// Reading a save game's values reads one value after another, each where
/// the one before ended: from an index before the end, the value there (as
/// `parse_recursive` reads it) is added and the reading goes on where it
/// ends; a value that is an error stops the reading with that error; at or
/// past the end of the text the values read so far are the result. With
/// `savegame_of_text`, which starts at index 0 of the text after all the
/// header lines, this is the loop that `parse_savegame` runs.
pub proof fn lemma_document_steps(s: Seq<char>, i: int, acc: Seq<SpecValue>)
    requires
        0 <= i,
    ensures
        i >= s.len() ==> parse_document(s, i, acc) == Document::Values(acc),
        i < s.len() ==> parse_document(s, i, acc) == match parse_value(s, i) {
            Parsed::Done(v, k) => parse_document(s, k, acc.push(v)),
            Parsed::Nul(k) => Document::Nul(k),
            Parsed::Abort => Document::Abort,
        },
{
    lemma_value_advances(s, i);
}

/// The index that the error "Unexpected EOF at index" names is the place of
/// a NUL character in the text after the header lines.
pub proof fn lemma_eof_index(t: Seq<char>)
    ensures
        savegame_of_text(t) matches SaveGame::Nul(k) ==> 0 <= k < strip_headers(t).len()
            && strip_headers(t)[k] == '\0',
{
    lemma_nul_document(strip_headers(t), 0, seq![]);
}

/// `res` is what reading a save game gives when the model says `g` (the
/// model's abort has no counterpart).
pub open spec fn savegame_result_matches(
    res: Result<Vec<Box<SaveValue>>, SaveGameParsingError>,
    g: SaveGame,
) -> bool {
    match g {
        SaveGame::Values(vs) => res matches Ok(v) && items_view(v@) == vs,
        SaveGame::BadHeader => res matches Err(SaveGameParsingError::FileParsing(m)) && m@
            == header_message(),
        SaveGame::Nul(k) => res matches Err(SaveGameParsingError::FileParsing(m)) && m@
            == eof_message(k),
        SaveGame::Abort => false,
    }
}

/// What `String::from_utf8_lossy` makes of `bytes`, as characters.
pub uninterp spec fn utf8_lossy_chars(bytes: Seq<u8>) -> Seq<char>;

/// The text of `String::from_utf8_lossy(bytes)`. The contract claims
/// that the result is a function of the bytes alone; that bytes that are
/// valid UTF-8 decode as UTF-8 (std's documentation: a valid input comes back
/// as it is); and that there are no more characters than bytes (each
/// character, or each U+FFFD that replaces an invalid sequence, stands for at
/// least one byte). What an invalid sequence becomes is left unsaid.
#[verifier::external_body]
pub(crate) fn decode_lossy(bytes: &[u8]) -> (text: String)
    ensures
        text@ == utf8_lossy_chars(bytes@),
        vstd::utf8::valid_utf8(bytes@) ==> text@ == vstd::utf8::decode_utf8(bytes@),
        text@.len() <= bytes@.len(),
{
    String::from_utf8_lossy(bytes).into_owned()
}


/// A save game's text that begins with more than one copy of the header
/// line reads as the text with one copy fewer.
pub proof fn lemma_repeated_header(t: Seq<char>)
    requires
        starts_with_header(t),
    ensures
        savegame_of_text(header_text() + t) == savegame_of_text(t),
{
    let h = header_text() + t;
    assert(h.subrange(0, 7) =~= header_text());
    assert(h.skip(7) =~= t);
}

/// A save game's text that is only the header line reads as no values.
pub proof fn lemma_header_only()
    ensures
        savegame_of_text(header_text()) == SaveGame::Values(seq![]),
{
    let t = header_text();
    assert(t.subrange(0, 7) =~= header_text());
    assert(t.skip(7) =~= Seq::<char>::empty());
    assert(!starts_with_header(t.skip(7)));
    assert(strip_headers(t.skip(7)) == t.skip(7));
    assert(strip_headers(t) =~= Seq::<char>::empty());
    assert(parse_document(strip_headers(t), 0, seq![]) == Document::Values(seq![]));
}

/// Errors of the save-game parser.
#[derive(Debug)]
pub enum SaveGameParsingError {
    Io(std::io::Error),
    IntParse(std::num::ParseIntError),
    FloatParse(std::num::ParseFloatError),
    FileParsing(String),
}

#[verifier::external_type_specification]
#[verifier::external_body]
pub struct ExIoError(std::io::Error);

#[verifier::external_type_specification]
#[verifier::external_body]
pub struct ExParseIntError(std::num::ParseIntError);

#[verifier::external_type_specification]
#[verifier::external_body]
pub struct ExParseFloatError(std::num::ParseFloatError);


/// The text of the error for a NUL character at index `k`.
pub open spec fn eof_message(k: int) -> Seq<char> {
    "Unexpected EOF at index: "@ + decimal(k as nat) + seq!['!']
}

/// The text of the error for a save game without the text header.
pub open spec fn header_message() -> Seq<char> {
    "Invalid file format. The file must start with 'EU4txt'!"@
}

/// `res` is what the parse of one value gives when the model says `p`
/// (the model's abort has no counterpart).
pub open spec fn value_result_matches(
    res: Result<(Box<SaveValue>, usize), SaveGameParsingError>,
    p: Parsed,
) -> bool {
    match p {
        Parsed::Done(v, k) => res matches Ok((b, r)) && value_view(*b) == v && r == k,
        Parsed::Nul(k) => res matches Err(SaveGameParsingError::FileParsing(m)) && m@ == eof_message(k),
        Parsed::Abort => false,
    }
}

/// How a parse stops early: with an error, or where the index would run past
/// the end of the text (or a number would hold more than 255 points).
enum Stop {
    Error(SaveGameParsingError),
    Abort,
}

spec fn stop_matches(res: Result<(Box<SaveValue>, usize), Stop>, p: Parsed) -> bool {
    match p {
        Parsed::Done(v, k) => res matches Ok((b, r)) && value_view(*b) == v && r == k,
        Parsed::Nul(k) => res matches Err(Stop::Error(SaveGameParsingError::FileParsing(m))) && m@
            == eof_message(k),
        Parsed::Abort => res matches Err(Stop::Abort),
    }
}

fn eof_error(index: usize) -> (e: SaveGameParsingError)
    ensures
        e matches SaveGameParsingError::FileParsing(m) && m@ == eof_message(index as int),
{
    let mut m = String::from_str("Unexpected EOF at index: ");
    push_decimal(&mut m, index);
    m.push('!');
    SaveGameParsingError::FileParsing(m)
}


/// The models of a sequence of values are as many as the values, each the
/// model of the value at its place.
pub proof fn lemma_items_view(s: Seq<Box<SaveValue>>)
    ensures
        items_view(s).len() == s.len(),
        forall|k: int| 0 <= k < s.len() ==> #[trigger] items_view(s)[k] == value_view(*s[k]),
    decreases s.len(),
{
    if s.len() > 0 {
        lemma_items_view(s.drop_last());
    }
}

proof fn lemma_items_view_push(s: Seq<Box<SaveValue>>, b: Box<SaveValue>)
    ensures
        items_view(s.push(b)) == items_view(s).push(value_view(*b)),
{
    assert(s.push(b).drop_last() =~= s);
}

proof fn lemma_count_dots_prefix(t: Seq<char>, m: int)
    requires
        0 <= m <= t.len(),
    ensures
        count_dots(t.subrange(0, m)) <= count_dots(t),
    decreases t.len(),
{
    if m < t.len() {
        lemma_count_dots_prefix(t.drop_last(), m);
        assert(t.drop_last().subrange(0, m) =~= t.subrange(0, m));
    } else {
        assert(t.subrange(0, m) =~= t);
    }
}

/// Parses the value at `start` and never panics: where the index would run
/// past the end of the text, it stops with `Stop::Abort`.
fn value_at(remain: &Vec<char>, start: usize) -> (res: Result<(Box<SaveValue>, usize), Stop>)
    requires
        remain@.len() < usize::MAX / 2,
    ensures
        stop_matches(res, parse_value(remain@, start as int)),
    decreases remain@.len() - start, 3int,
{
    if start >= remain.len() {
        return Ok((Box::new(SaveValue::SaveNull), start));
    }
    let index = match skip_whitespace(remain, start) {
        Ok(i) => i,
        Err(e) => return Err(Stop::Error(e)),
    };
    proof {
        lemma_skip_blanks_bounds(remain@, start as int);
    }
    if index >= remain.len() {
        return Ok((Box::new(SaveValue::SaveNull), index));
    }
    let c = remain[index];
    if c == '{' {
        array_at(remain, index + 1)
    } else if c == '\n' {
        Ok((Box::new(SaveValue::SaveNull), index + 1))
    } else if c == '"' {
        quoted_at(remain, start, index)
    } else if ('0' <= c && c <= '9') || c == '-' {
        number_at(remain, start, index)
    } else if c == '\0' {
        Err(Stop::Error(eof_error(index)))
    } else {
        word_at(remain, start, index)
    }
}

/// The quoted string that opens at `index` (the `"`), for the value at `start`.
fn quoted_at(remain: &Vec<char>, start: usize, index: usize) -> (res: Result<
    (Box<SaveValue>, usize),
    Stop,
>)
    requires
        remain@.len() < usize::MAX / 2,
        start <= index < remain@.len(),
        index == skip_blanks(remain@, start as int),
        remain@[index as int] == '"',
    ensures
        stop_matches(res, parse_value(remain@, start as int)),
{
    let mut i = index + 1;
    let mut val = String::new();
    while i < remain.len() && remain[i] != '"'
        invariant
            index < i <= remain@.len(),
            val@ == remain@.subrange(index + 1, i as int),
            quote_end(remain@, i as int) == quote_end(remain@, index + 1),
        decreases remain@.len() - i,
    {
        val.push(remain[i]);
        i += 1;
    }
    if i >= remain.len() {
        return Err(Stop::Abort);
    }
    // `remain[i]` is the closing quote, so neither a NUL nor an `=` follows
    // the string at `i`: the string ends there.
    Ok((Box::new(SaveValue::SaveString(val)), i + 1))
}

/// The number that starts at `index` (a digit or `-`), for the value at `start`.
fn number_at(remain: &Vec<char>, start: usize, index: usize) -> (res: Result<
    (Box<SaveValue>, usize),
    Stop,
>)
    requires
        remain@.len() < usize::MAX / 2,
        start <= index < remain@.len(),
        index == skip_blanks(remain@, start as int),
        is_digit(remain@[index as int]) || remain@[index as int] == '-',
    ensures
        stop_matches(res, parse_value(remain@, start as int)),
    decreases remain@.len() - start, 2int,
{
    let ghost s = remain@;
    let ghost e = number_end(s, index as int);
    proof {
        lemma_number_end_bounds(s, index as int);
    }
    let mut i = index;
    let mut val = String::new();
    let mut is_obj = false;
    let mut count_dot: u8 = 0;
    loop
        invariant_except_break
            index <= i <= e,
            !is_obj,
        invariant
            s == remain@,
            s.len() < usize::MAX / 2,
            start <= index < s.len(),
            index == skip_blanks(s, start as int),
            is_digit(s[index as int]) || s[index as int] == '-',
            e == number_end(s, index as int),
            index <= e <= s.len(),
            e < s.len() ==> ends_number(s[e]),
            forall|k: int| index <= k < e ==> !ends_number(#[trigger] s[k]),
            val@ == s.subrange(index as int, if is_obj { i - 1 } else { i as int }),
            count_dot as nat == count_dots(val@),
        ensures
            is_obj ==> i == e + 1 && e < s.len() && s[e] == '=',
            !is_obj ==> i == e && e < s.len() && is_blank(s[e]),
        decreases s.len() - i,
    {
        if i >= remain.len() {
            proof {
                lemma_number_end_bounds(s, index as int);
            }
            return Err(Stop::Abort);
        }
        let ch = remain[i];
        if ch == '\n' || ch == ' ' || ch == '\t' {
            break;
        }
        if ch == '=' {
            is_obj = true;
            i += 1;
            break;
        }
        proof {
            assert(i < e);
        }
        if ch == '.' {
            if count_dot == 255 {
                proof {
                    assert(s.subrange(index as int, i + 1).drop_last() =~= val@);
                    assert(s.subrange(index as int, e).subrange(0, i + 1 - index) =~= s.subrange(
                        index as int,
                        i + 1,
                    ));
                    lemma_count_dots_prefix(s.subrange(index as int, e), i + 1 - index);
                }
                return Err(Stop::Abort);
            }
            count_dot += 1;
        }
        let ghost before = val@;
        proof {
            assert(s.subrange(index as int, i + 1).drop_last() =~= val@);
        }
        val.push(ch);
        proof {
            assert(val@.drop_last() =~= before);
        }
        i += 1;
    }
    if is_obj {
        match value_at(remain, i) {
            Ok((sv, r)) => Ok((Box::new(SaveValue::SaveObject(val, sv)), r)),
            Err(err) => Err(err),
        }
    } else if count_dot == 1 {
        Ok((Box::new(SaveValue::SaveFloat(val)), i + 1))
    } else if count_dot == 0 {
        let r = match decimal_i32(remain, index, i) {
            Some(l) => l,
            None => 999,
        };
        Ok((Box::new(SaveValue::SaveNumber(r)), i + 1))
    } else {
        Ok((Box::new(SaveValue::SaveDate(val)), i + 1))
    }
}

/// The bare word that starts at `index`, for the value at `start`.
fn word_at(remain: &Vec<char>, start: usize, index: usize) -> (res: Result<
    (Box<SaveValue>, usize),
    Stop,
>)
    requires
        remain@.len() < usize::MAX / 2,
        start <= index < remain@.len(),
        index == skip_blanks(remain@, start as int),
        !is_blank(remain@[index as int]),
        !is_digit(remain@[index as int]),
        remain@[index as int] != '-',
        remain@[index as int] != '{',
        remain@[index as int] != '"',
        remain@[index as int] != '\0',
    ensures
        stop_matches(res, parse_value(remain@, start as int)),
    decreases remain@.len() - start, 2int,
{
    let ghost s = remain@;
    let ghost e = word_end(s, index + 1);
    proof {
        lemma_word_end_bounds(s, index + 1);
    }
    let mut i = index;
    let mut val = String::new();
    while remain_at_is_not(remain, i, '=')
        invariant
            s == remain@,
            s.len() < usize::MAX / 2,
            start <= index < s.len(),
            index == skip_blanks(s, start as int),
            !is_blank(s[index as int]),
            !is_digit(s[index as int]),
            s[index as int] != '-',
            s[index as int] != '{',
            s[index as int] != '"',
            s[index as int] != '\0',
            index <= i,
            e == word_end(s, index + 1),
            index + 1 <= e <= s.len(),
            e < s.len() ==> ends_word(s[e]),
            forall|k: int| index + 1 <= k < e ==> !ends_word(#[trigger] s[k]),
            !ends_word(s[index as int]) || s[index as int] == '=',
            i == index || (s[index as int] != '=' && index + 1 <= i <= e),
            val@ == s.subrange(index as int, i as int),
        decreases s.len() - i,
    {
        if i >= remain.len() {
            return Err(Stop::Abort);
        }
        let ch = remain[i];
        if ch == '{' {
            return match value_at(remain, i) {
                Ok((sv, r)) => Ok((Box::new(SaveValue::SaveObject(val, sv)), r)),
                Err(err) => Err(err),
            };
        }
        if ch == ' ' || ch == '\t' || ch == '\n' {
            if val == String::from_str("yes") {
                proof {
                    reveal_strlit("yes");
                    assert("yes"@ =~= yes_word());
                }
                return Ok((Box::new(SaveValue::SaveBool(true)), i + 1));
            }
            if val == String::from_str("no") {
                proof {
                    reveal_strlit("no");
                    assert("no"@ =~= no_word());
                }
                return Ok((Box::new(SaveValue::SaveBool(false)), i + 1));
            }
            proof {
                reveal_strlit("yes");
                reveal_strlit("no");
                assert("yes"@ =~= yes_word());
                assert("no"@ =~= no_word());
            }
            return Ok((Box::new(SaveValue::SaveString(val)), i + 1));
        }
        proof {
            assert(s.subrange(index as int, i + 1).drop_last() =~= val@);
        }
        val.push(ch);
        i += 1;
    }
    proof {
        assert(i < s.len() && s[i as int] == '=');
        if i > index {
            assert(i == e);
            assert(val@ == s.subrange(index as int, e));
        } else {
            assert(val@ =~= Seq::<char>::empty());
        }
    }
    match value_at(remain, i + 1) {
        Ok((sv, r)) => Ok((Box::new(SaveValue::SaveObject(val, sv)), r)),
        Err(err) => Err(err),
    }
}

/// Whether `i` lies within `remain` and holds a character other than `c`,
/// or lies past its end (where the loop that asks goes on to stop).
fn remain_at_is_not(remain: &Vec<char>, i: usize, c: char) -> (r: bool)
    ensures
        r == (i >= remain@.len() || remain@[i as int] != c),
{
    i >= remain.len() || remain[i] != c
}

/// Parses the items of the array that opens just before `start` and never
/// panics: where the index would run past the end of the text, it stops with
/// `Stop::Abort`.
fn array_at(remain: &Vec<char>, start: usize) -> (res: Result<(Box<SaveValue>, usize), Stop>)
    requires
        remain@.len() < usize::MAX / 2,
        start <= remain@.len(),
    ensures
        stop_matches(res, parsed_array(remain@, start as int)),
    decreases remain@.len() - start + 1, 2int,
{
    let ghost s = remain@;
    let mut ret: Vec<Box<SaveValue>> = Vec::new();
    let mut index = match skip_whitespace(remain, start) {
        Ok(i) => i,
        Err(e) => return Err(Stop::Error(e)),
    };
    proof {
        lemma_skip_blanks_bounds(s, start as int);
    }
    if index >= remain.len() {
        return Err(Stop::Abort);
    }
    let mut c = remain[index];
    while c != '}'
        invariant_except_break
            start <= index < s.len(),
            c == s[index as int],
            array_items(s, index as int, items_view(ret@)) == parsed_array(s, start as int),
        invariant
            s == remain@,
            s.len() < usize::MAX / 2,
            start <= index,
        ensures
            index >= s.len() ==> parsed_array(s, start as int) == Parsed::Done(
                SpecValue::Array(items_view(ret@)),
                index + 1,
            ),
            index < s.len() ==> s[index as int] == '}' && array_items(
                s,
                index as int,
                items_view(ret@),
            ) == parsed_array(s, start as int),
            index <= 2 * s.len(),
        decreases s.len() - index,
    {
        proof {
            lemma_value_advances(s, index as int);
        }
        let ghost prev = index;
        match value_at(remain, index) {
            Ok((sv, i_new)) => {
                proof {
                    lemma_items_view_push(ret@, sv);
                    assert(i_new > prev);
                }
                index = i_new;
                ret.push(sv);
            },
            Err(e) => return Err(e),
        }
        if index >= remain.len() {
            break;
        }
        let ghost after = index;
        index = match skip_whitespace(remain, index) {
            Ok(i) => i,
            Err(e) => return Err(Stop::Error(e)),
        };
        proof {
            lemma_skip_blanks_bounds(s, after as int);
        }
        if index >= remain.len() {
            return Err(Stop::Abort);
        }
        c = remain[index];
    }
    index = match skip_whitespace(remain, index) {
        Ok(i) => i,
        Err(e) => return Err(Stop::Error(e)),
    };
    Ok((Box::new(SaveValue::SaveArray(ret)), index + 1))
}


/// Whether the seven characters of `t` from `k` on are the header line.
fn header_at(t: &Vec<char>, k: usize) -> (r: bool)
    requires
        k <= t@.len(),
    ensures
        r == starts_with_header(t@.skip(k as int)),
{
    proof {
        if t@.len() - k >= 7 {
            assert(t@.skip(k as int).subrange(0, 7) =~= t@.subrange(k as int, k + 7));
        }
    }
    if t.len() - k < 7 {
        return false;
    }
    let r = t[k] == 'E' && t[k + 1] == 'U' && t[k + 2] == '4' && t[k + 3] == 't' && t[k + 4] == 'x'
        && t[k + 5] == 't' && t[k + 6] == '\n';
    proof {
        if r {
            assert(t@.subrange(k as int, k + 7) =~= header_text());
        } else {
            assert(t@.subrange(k as int, k + 7) != header_text()) by {
                if t@.subrange(k as int, k + 7) == header_text() {
                    assert(t@.subrange(k as int, k + 7)[0] == 'E');
                    assert(t@.subrange(k as int, k + 7)[1] == 'U');
                    assert(t@.subrange(k as int, k + 7)[2] == '4');
                    assert(t@.subrange(k as int, k + 7)[3] == 't');
                    assert(t@.subrange(k as int, k + 7)[4] == 'x');
                    assert(t@.subrange(k as int, k + 7)[5] == 't');
                    assert(t@.subrange(k as int, k + 7)[6] == '\n');
                }
            }
        }
    }
    r
}

/// The text after the copies of the header line that `t` begins with.
fn strip_header_lines(t: &Vec<char>) -> (res: Vec<char>)
    ensures
        res@ == strip_headers(t@),
{
    let mut k: usize = 0;
    assert(t@.skip(0) =~= t@);
    let n = t.len();
    let mut more = header_at(t, 0);
    while more
        invariant
            n == t@.len(),
            k <= t@.len(),
            more == starts_with_header(t@.skip(k as int)),
            strip_headers(t@.skip(k as int)) == strip_headers(t@),
        decreases t@.len() - k,
    {
        assert(t@.skip(k as int).len() == t@.len() - k);
        assert(t@.skip(k as int).skip(7) =~= t@.skip(k + 7));
        k += 7;
        more = header_at(t, k);
    }
    let mut res: Vec<char> = Vec::new();
    let mut i = k;
    while i < t.len()
        invariant
            k <= i <= t@.len(),
            res@ == t@.subrange(k as int, i as int),
        decreases t@.len() - i,
    {
        res.push(t[i]);
        i += 1;
        assert(res@ =~= t@.subrange(k as int, i as int));
    }
    assert(res@ =~= t@.skip(k as int));
    res
}

/// Reads all values of `contents`, one after the other, and never panics.
fn document_values(contents: &Vec<char>) -> (res: Result<Vec<Box<SaveValue>>, Stop>)
    requires
        contents@.len() < usize::MAX / 2,
    ensures
        match parse_document(contents@, 0, seq![]) {
            Document::Values(vs) => res matches Ok(v) && items_view(v@) == vs,
            Document::Nul(k) => res matches Err(Stop::Error(SaveGameParsingError::FileParsing(m)))
                && m@ == eof_message(k),
            Document::Abort => res matches Err(Stop::Abort),
        },
{
    let ghost s = contents@;
    let mut res: Vec<Box<SaveValue>> = Vec::new();
    let mut i: usize = 0;
    assert(items_view(res@) =~= Seq::<SpecValue>::empty());
    while i < contents.len()
        invariant
            s == contents@,
            s.len() < usize::MAX / 2,
            i <= 2 * s.len(),
            parse_document(s, i as int, items_view(res@)) == parse_document(s, 0, seq![]),
        decreases 2 * s.len() - i,
    {
        proof {
            lemma_value_advances(s, i as int);
        }
        match value_at(contents, i) {
            Ok((v, k)) => {
                proof {
                    lemma_items_view_push(res@, v);
                }
                i = k;
                res.push(v);
            },
            Err(e) => return Err(e),
        }
    }
    Ok(res)
}

/// Reads a save game's values from its decoded text, and never panics.
fn savegame_text_values(contents_string: &Vec<char>) -> (res: Result<
    Vec<Box<SaveValue>>,
    Stop,
>)
    requires
        contents_string@.len() < usize::MAX / 2,
    ensures
        match savegame_of_text(contents_string@) {
            SaveGame::Values(vs) => res matches Ok(v) && items_view(v@) == vs,
            SaveGame::BadHeader => res matches Err(
                Stop::Error(SaveGameParsingError::FileParsing(m)),
            ) && m@ == header_message(),
            SaveGame::Nul(k) => res matches Err(Stop::Error(SaveGameParsingError::FileParsing(m)))
                && m@ == eof_message(k),
            SaveGame::Abort => res matches Err(Stop::Abort),
        },
{
    assert(contents_string@.skip(0) =~= contents_string@);
    if !header_at(contents_string, 0) {
        return Err(
            Stop::Error(
                SaveGameParsingError::FileParsing(
                    String::from_str("Invalid file format. The file must start with 'EU4txt'!"),
                ),
            ),
        );
    }
    let contents = strip_header_lines(contents_string);
    proof {
        lemma_strip_headers_shorter(contents_string@);
    }
    document_values(&contents)
}

proof fn lemma_strip_headers_shorter(t: Seq<char>)
    ensures
        strip_headers(t).len() <= t.len(),
    decreases t.len(),
{
    if starts_with_header(t) {
        lemma_strip_headers_shorter(t.skip(7));
    }
}

/// Reads the values of a save game from its decoded text `contents_string`.
///
/// The text must begin with the line `EU4txt`; the values are read from what
/// follows all the copies of that line it begins with, one after the other
/// (see `parse_value`). Without the header line the result is a
/// `FileParsing` error with the text "Invalid file format. The file must
/// start with 'EU4txt'!"; a NUL character where a value starts gives the
/// error "Unexpected EOF at index: {index}!". The text must not make the
/// reading run past its end (`savegame_of_text` says `Abort` there).
pub fn parse_savegame_text(contents_string: &Vec<char>) -> (res: Result<
    Vec<Box<SaveValue>>,
    SaveGameParsingError,
>)
    requires
        contents_string@.len() < usize::MAX / 2,
        !(savegame_of_text(contents_string@) is Abort),
    ensures
        savegame_result_matches(res, savegame_of_text(contents_string@)),
{
    match savegame_text_values(contents_string) {
        Ok(v) => Ok(v),
        Err(Stop::Error(e)) => Err(e),
        Err(Stop::Abort) => Ok(Vec::new()),
    }
}

/// Parses a save game in the text format from its bytes.
///
/// The bytes are decoded as `String::from_utf8_lossy` decodes them, and the
/// text is read as `parse_savegame_text` reads it. The text must not make
/// the reading run past its end.
pub fn parse_savegame(save_buffer: &[u8]) -> (res: Result<
    Vec<Box<SaveValue>>,
    SaveGameParsingError,
>)
    requires
        save_buffer@.len() < usize::MAX / 2,
        !(savegame_of_text(utf8_lossy_chars(save_buffer@)) is Abort),
    ensures
        savegame_result_matches(res, savegame_of_text(utf8_lossy_chars(save_buffer@))),
{
    let text = decode_lossy(save_buffer);
    let contents_string = chars_of(text.as_str());
    parse_savegame_text(&contents_string)
}

/// Parses a save game in the text format from its bytes, as
/// `parse_savegame` does, or returns `None` where that reading would run
/// past the end of the text.
pub fn parse_savegame_checked(save_buffer: &[u8]) -> (res: Option<
    Result<Vec<Box<SaveValue>>, SaveGameParsingError>,
>)
    requires
        save_buffer@.len() < usize::MAX / 2,
    ensures
        savegame_of_text(utf8_lossy_chars(save_buffer@)) is Abort <==> res is None,
        res matches Some(r) ==> savegame_result_matches(
            r,
            savegame_of_text(utf8_lossy_chars(save_buffer@)),
        ),
{
    let text = decode_lossy(save_buffer);
    let contents_string = chars_of(text.as_str());
    match savegame_text_values(&contents_string) {
        Err(Stop::Abort) => None,
        _ => Some(parse_savegame(save_buffer)),
    }
}

/// Parses the value that starts at `index` in `remain` (see `parse_value`)
/// and returns it with the index where the parse goes on. The text must not
/// make the parse run past its end.
pub fn parse_recursive(remain: &Vec<char>, index: usize) -> (res: Result<
    (Box<SaveValue>, usize),
    SaveGameParsingError,
>)
    requires
        remain@.len() < usize::MAX / 2,
        !(parse_value(remain@, index as int) is Abort),
    ensures
        value_result_matches(res, parse_value(remain@, index as int)),
{
    match value_at(remain, index) {
        Ok(r) => Ok(r),
        Err(Stop::Error(e)) => Err(e),
        Err(Stop::Abort) => Err(SaveGameParsingError::FileParsing(String::new())),
    }
}

/// Parses the array whose items start at `index`, just after its `{` (see
/// `parse_array`), and returns it with the index after its `}`. The text
/// must not make the parse run past its end.
pub fn parse_array(remain: &Vec<char>, index: usize) -> (res: Result<
    (Box<SaveValue>, usize),
    SaveGameParsingError,
>)
    requires
        remain@.len() < usize::MAX / 2,
        !(parsed_array(remain@, index as int) is Abort),
    ensures
        value_result_matches(res, parsed_array(remain@, index as int)),
{
    proof {
        lemma_skip_blanks_bounds(remain@, index as int);
    }
    match array_at(remain, index) {
        Ok(r) => Ok(r),
        Err(Stop::Error(e)) => Err(e),
        Err(Stop::Abort) => Err(SaveGameParsingError::FileParsing(String::new())),
    }
}

/// Returns the first index at or after `index` whose character is not blank
/// (space, tab or line feed), or the length of `remain` when only blanks
/// follow; an index at or past the end comes back unchanged.
pub fn skip_whitespace(remain: &Vec<char>, index: usize) -> (res: Result<usize, SaveGameParsingError>)
    ensures
        res matches Ok(r) && r == skip_blanks(remain@, index as int),
        res matches Ok(r) && {
            &&& index <= r
            &&& index >= remain@.len() ==> r == index
            &&& index < remain@.len() ==> r <= remain@.len()
            &&& r < remain@.len() ==> !is_blank(remain@[r as int])
            &&& forall|k: int| index <= k < r ==> is_blank(#[trigger] remain@[k])
        },
{
    proof {
        lemma_skip_blanks_bounds(remain@, index as int);
    }
    let start = index;
    let mut index = index;
    while index < remain.len() && (remain[index] == ' ' || remain[index] == '\t' || remain[index] == '\n')
        invariant
            start <= index,
            skip_blanks(remain@, index as int) == skip_blanks(remain@, start as int),
        decreases remain.len() - index,
    {
        index += 1;
    }
    Ok(index)
}

} // verus!
