//! One nation and its provinces, found in a save game's text with a regular
//! expression.
use vstd::prelude::*;
use crate::eu4_save_parser::{decode_lossy, utf8_lossy_chars};
use crate::game_types::{Color, Nation, NationView, Province, ProvinceView, copy_nation, provinces_view};
use crate::image_generator::{find_province, find_province_index};
use crate::numbers::chars_of;
use crate::numbers::{decimal_unsigned, parse_unsigned_spec};

verus! {

#[verifier::external_type_specification]
#[verifier::external_body]
pub struct ExRegex(regex::Regex);

#[verifier::external_type_specification]
#[verifier::external_body]
pub struct ExRegexError(regex::Error);

/// Whether `regex::Regex::new` accepts the pattern.
pub uninterp spec fn regex_compiles(pattern: Seq<char>) -> bool;

/// The text of the groups `col` and `provinces` of the first match of the
/// pattern in the text (`Regex::captures`): `None` without a match, and
/// `None` for a group that takes no part in the match.
pub uninterp spec fn regex_groups(pattern: Seq<char>, text: Seq<char>) -> Option<
    (Option<Seq<char>>, Option<Seq<char>>),
>;

/// A compiled regular expression and the pattern it was compiled from.
pub struct CompiledPattern {
    re: regex::Regex,
    pattern: String,
}

impl CompiledPattern {
    /// The pattern the expression was compiled from.
    pub closed spec fn pattern(&self) -> Seq<char> {
        self.pattern@
    }
}

/// Compiles `pattern` with `regex::Regex::new`. The contract claims that
/// whether the pattern is accepted is a function of the pattern alone
/// (named `regex_compiles`); the error itself is left unsaid.
#[verifier::external_body]
fn compile_pattern(pattern: &String) -> (r: Result<CompiledPattern, regex::Error>)
    ensures
        r is Ok == regex_compiles(pattern@),
        r matches Ok(c) ==> c.pattern() == pattern@,
{
    match regex::Regex::new(pattern.as_str()) {
        Ok(re) => Ok(CompiledPattern { re, pattern: pattern.clone() }),
        Err(e) => Err(e),
    }
}

/// The groups `col` and `provinces` of the first match of the expression in
/// `text` (`Regex::captures`, then `Captures::name`). The contract claims
/// that they are a function of the pattern and the text alone (named
/// `regex_groups`); what they are is left unsaid.
#[verifier::external_body]
fn capture_groups(re: &CompiledPattern, text: &String) -> (r: Option<(Option<String>, Option<String>)>)
    ensures
        match (r, regex_groups(re.pattern(), text@)) {
            (None, None) => true,
            (Some((a, b)), Some((sa, sb))) => (match (a, sa) {
                (None, None) => true,
                (Some(x), Some(y)) => x@ == y,
                _ => false,
            }) && (match (b, sb) {
                (None, None) => true,
                (Some(x), Some(y)) => x@ == y,
                _ => false,
            }),
            _ => false,
        },
{
    match re.re.captures(text.as_str()) {
        Some(caps) => Some(
            (
                caps.name("col").map(|m| m.as_str().to_string()),
                caps.name("provinces").map(|m| m.as_str().to_string()),
            ),
        ),
        None => None,
    }
}

/// The pattern that finds the nation `tag` in a save game: its government
/// rank, its map colour and its owned provinces.
pub open spec fn country_pattern(tag: Seq<char>) -> Seq<char> {
    r"\ncountries=\{[\S\s]*?\n\t"@ + tag + r"=\{[\s]*?(?:human=yes)?[\s]*?(?:pillaged_capital_state=\{[\S\s[^}]]*?})?[\s]*?(?:was_player=yes)?[\s]*(?:has_set_government_name=yes)?[\s]*government_rank=(?<gov_rank>\d)[\S\s]*?map_color=\{[\s]*(?<col>(?:\d*[\s])*)[\s]*}[\S\s]*?owned_provinces=\{[\s]*(?<provinces>(?:\d*[\s])*)[\s]*}"@
}

/// A character with the Unicode property `White_Space` (what
/// `char::is_whitespace` tests).
pub open spec fn is_white_space(c: char) -> bool {
    c == '\t' || c == '\n' || c == '\u{0B}' || c == '\u{0C}' || c == '\r' || c == ' ' || c == '\u{85}'
        || c == '\u{A0}' || c == '\u{1680}' || ('\u{2000}' <= c <= '\u{200A}') || c == '\u{2028}' || c
        == '\u{2029}' || c == '\u{202F}' || c == '\u{205F}' || c == '\u{3000}'
}

/// `t` without its leading white space.
pub open spec fn trim_start(t: Seq<char>) -> Seq<char>
    decreases t.len(),
{
    if t.len() > 0 && is_white_space(t[0]) {
        trim_start(t.drop_first())
    } else {
        t
    }
}

/// `t` without its trailing white space.
pub open spec fn trim_end(t: Seq<char>) -> Seq<char>
    decreases t.len(),
{
    if t.len() > 0 && is_white_space(t.last()) {
        trim_end(t.drop_last())
    } else {
        t
    }
}

/// `t` without its leading and trailing white space (`str::trim`).
pub open spec fn trim(t: Seq<char>) -> Seq<char> {
    trim_end(trim_start(t))
}

/// The pieces of `t` between single spaces (`str::split(" ")`): one more
/// piece than spaces, empty pieces included.
pub open spec fn split_spaces(t: Seq<char>) -> Seq<Seq<char>>
    decreases t.len(),
{
    if t.len() == 0 {
        seq![seq![]]
    } else {
        let s = split_spaces(t.drop_last());
        if t.last() == ' ' {
            s.push(seq![])
        } else {
            s.update(s.len() - 1, s.last().push(t.last()))
        }
    }
}

/// The nation that is returned when the pattern finds nothing.
pub open spec fn default_country(tag: Seq<char>) -> NationView {
    NationView {
        id: 1,
        name: "Bohemia"@,
        tag: tag,
        color_r: 180,
        color_g: 15,
        color_b: 15,
        rank: 1,
        gov_type: "Království"@,
        religion: "Hussite"@,
        allies: seq![],
        subjects: seq![],
    }
}

/// The province of the list `provs` that a piece of the owned provinces
/// names, as a copy owned by `country`; `None` where the piece does not read
/// as a `u16` (while there are provinces to compare it with).
pub open spec fn owned_step(
    acc: Seq<ProvinceView>,
    piece: Seq<char>,
    provs: Seq<ProvinceView>,
    country: NationView,
) -> Option<Seq<ProvinceView>> {
    if provs.len() == 0 {
        Some(acc)
    } else {
        match parse_unsigned_spec(piece, 65535) {
            None => None,
            Some(pi) => match find_province(provs, pi) {
                Some(pa) => Some(
                    acc.push(
                        ProvinceView {
                            id: pi as u16,
                            col: Color { r: pa.color_r, g: pa.color_g, b: pa.color_b },
                            owner: Some(country),
                            ..pa
                        },
                    ),
                ),
                None => Some(acc),
            },
        }
    }
}

/// The provinces that the pieces name, in order (see `owned_step`).
pub open spec fn owned_provinces(pieces: Seq<Seq<char>>, provs: Seq<ProvinceView>, country: NationView) -> Option<
    Seq<ProvinceView>,
>
    decreases pieces.len(),
{
    if pieces.len() == 0 {
        Some(seq![])
    } else {
        match owned_provinces(pieces.drop_last(), provs, country) {
            Some(acc) => owned_step(acc, pieces.last(), provs, country),
            None => None,
        }
    }
}

/// What reading a nation from a save game gives: the nation and its
/// provinces, or an abort (where the pattern does not compile, a group is
/// missing, the colour does not read, or a province does not read).
pub enum SavegameRead {
    Read(NationView, Seq<ProvinceView>),
    Abort,
}

/// The nation `tag` of the save game's text `text`, with the provinces of
/// `provs` that it owns: the map colour is the first three numbers between
/// single spaces of the trimmed group `col` (each a `u8`); the owned
/// provinces are the pieces between single spaces of the trimmed group
/// `provinces`. Without a match the nation is `default_country` and owns
/// nothing.
pub open spec fn read_country(text: Seq<char>, tag: Seq<char>, provs: Seq<ProvinceView>) -> SavegameRead {
    let pat = country_pattern(tag);
    if !regex_compiles(pat) {
        SavegameRead::Abort
    } else {
        match regex_groups(pat, text) {
            None => SavegameRead::Read(default_country(tag), seq![]),
            Some((Some(col), Some(pv_text))) => {
                let cols = split_spaces(trim(col));
                if cols.len() < 3 {
                    SavegameRead::Abort
                } else {
                    match (
                        parse_unsigned_spec(cols[0], 255),
                        parse_unsigned_spec(cols[1], 255),
                        parse_unsigned_spec(cols[2], 255),
                    ) {
                        (Some(r), Some(g), Some(b)) => {
                            let country = NationView {
                                color_r: r as u8,
                                color_g: g as u8,
                                color_b: b as u8,
                                ..default_country(tag)
                            };
                            match owned_provinces(split_spaces(trim(pv_text)), provs, country) {
                                Some(owned) => SavegameRead::Read(country, owned),
                                None => SavegameRead::Abort,
                            }
                        },
                        _ => SavegameRead::Abort,
                    }
                }
            },
            _ => SavegameRead::Abort,
        }
    }
}


/// Whether `c` is white space (see `is_white_space`).
fn white_space(c: char) -> (r: bool)
    ensures
        r == is_white_space(c),
{
    c == '\t' || c == '\n' || c == '\u{0B}' || c == '\u{0C}' || c == '\r' || c == ' ' || c == '\u{85}'
        || c == '\u{A0}' || c == '\u{1680}' || ('\u{2000}' <= c && c <= '\u{200A}') || c == '\u{2028}'
        || c == '\u{2029}' || c == '\u{202F}' || c == '\u{205F}' || c == '\u{3000}'
}

/// `t` without its leading and trailing white space (see `trim`).
fn trimmed(t: &Vec<char>) -> (r: Vec<char>)
    ensures
        r@ == trim(t@),
{
    let mut a: usize = 0;
    assert(t@.skip(0) =~= t@);
    while a < t.len() && white_space(t[a])
        invariant
            a <= t@.len(),
            trim_start(t@.skip(a as int)) == trim_start(t@),
        decreases t@.len() - a,
    {
        assert(t@.skip(a as int).drop_first() =~= t@.skip(a + 1));
        a += 1;
    }
    let ghost u = t@.skip(a as int);
    assert(trim_start(u) == u);
    let mut b: usize = t.len();
    assert(u.take((b - a) as int) =~= u);
    while b > a && white_space(t[b - 1])
        invariant
            a <= b <= t@.len(),
            u == t@.skip(a as int),
            trim_end(u.take((b - a) as int)) == trim_end(u),
        decreases b,
    {
        assert(u.take((b - a) as int).drop_last() =~= u.take((b - 1 - a) as int));
        assert(u.take((b - a) as int).last() == t@[b - 1]);
        b -= 1;
    }
    assert(trim_end(u.take((b - a) as int)) == u.take((b - a) as int));
    let mut r: Vec<char> = Vec::new();
    let mut i = a;
    while i < b
        invariant
            a <= i <= b <= t@.len(),
            r@ == t@.subrange(a as int, i as int),
        decreases b - i,
    {
        r.push(t[i]);
        i += 1;
        assert(r@ =~= t@.subrange(a as int, i as int));
    }
    assert(r@ =~= u.take((b - a) as int));
    r
}

/// The pieces of `t` between single spaces (see `split_spaces`).
fn split_on_spaces(t: &Vec<char>) -> (r: Vec<Vec<char>>)
    ensures
        r@.map_values(|v: Vec<char>| v@) == split_spaces(t@),
{
    let mut pieces: Vec<Vec<char>> = Vec::new();
    pieces.push(Vec::new());
    let mut i: usize = 0;
    assert(t@.take(0) =~= Seq::<char>::empty());
    assert(pieces@.map_values(|v: Vec<char>| v@) =~= split_spaces(t@.take(0)));
    while i < t.len()
        invariant
            i <= t@.len(),
            pieces@.len() >= 1,
            pieces@.map_values(|v: Vec<char>| v@) == split_spaces(t@.take(i as int)),
        decreases t@.len() - i,
    {
        let c = t[i];
        let ghost before = pieces@.map_values(|v: Vec<char>| v@);
        assert(t@.take(i + 1).drop_last() =~= t@.take(i as int));
        assert(t@.take(i + 1).last() == c);
        if c == ' ' {
            pieces.push(Vec::new());
            assert(pieces@.map_values(|v: Vec<char>| v@) =~= before.push(seq![]));
        } else {
            let last = pieces.len() - 1;
            pieces[last].push(c);
            assert(pieces@.map_values(|v: Vec<char>| v@) =~= before.update(
                before.len() - 1,
                before.last().push(c),
            ));
        }
        i += 1;
    }
    assert(t@.take(i as int) =~= t@);
    pieces
}


/// The pattern that finds the nation `tag` (see `country_pattern`).
fn country_pattern_string(tag: &String) -> (p: String)
    ensures
        p@ == country_pattern(tag@),
{
    let mut pattern = String::from_str(r"\ncountries=\{[\S\s]*?\n\t");
    pattern.append(tag.as_str());
    pattern.append(
        r"=\{[\s]*?(?:human=yes)?[\s]*?(?:pillaged_capital_state=\{[\S\s[^}]]*?})?[\s]*?(?:was_player=yes)?[\s]*(?:has_set_government_name=yes)?[\s]*government_rank=(?<gov_rank>\d)[\S\s]*?map_color=\{[\s]*(?<col>(?:\d*[\s])*)[\s]*}[\S\s]*?owned_provinces=\{[\s]*(?<provinces>(?:\d*[\s])*)[\s]*}",
    );
    pattern
}

/// Reads a piece as a `u8`.
fn piece_u8(t: &Vec<char>) -> (r: Option<u8>)
    ensures
        r matches Some(v) ==> parse_unsigned_spec(t@, 255) == Some(v as int),
        r is None ==> parse_unsigned_spec(t@, 255) is None,
{
    assert(t@.subrange(0, t@.len() as int) =~= t@);
    match decimal_unsigned(t, 0, t.len(), 255) {
        Some(v) => Some(v as u8),
        None => None,
    }
}


proof fn lemma_owned_none_stays(
    pieces: Seq<Seq<char>>,
    k: int,
    provs: Seq<ProvinceView>,
    country: NationView,
)
    requires
        0 <= k <= pieces.len(),
        owned_provinces(pieces.take(k), provs, country) is None,
    ensures
        owned_provinces(pieces, provs, country) is None,
    decreases pieces.len() - k,
{
    if k < pieces.len() {
        assert(pieces.take(k + 1).drop_last() =~= pieces.take(k));
        lemma_owned_none_stays(pieces, k + 1, provs, country);
    } else {
        assert(pieces.take(k) =~= pieces);
    }
}

/// The nation `tag` and the provinces it owns, read from the save game's
/// text (see `read_country`); `None` where that reading aborts.
fn read_country_from_text(text: &String, tag: &String, provs_all: &Vec<Province>) -> (r: Option<
    (Nation, Vec<Province>),
>)
    ensures
        match read_country(text@, tag@, provinces_view(provs_all@)) {
            SavegameRead::Abort => r is None,
            SavegameRead::Read(c, pv) => r matches Some((n, v)) && n@ == c && provinces_view(v@) == pv,
        },
{
    let mut country = Nation {
        id: 1,
        name: String::from_str("Bohemia"),
        tag: tag.clone(),
        color_r: 180,
        color_g: 15,
        color_b: 15,
        rank: 1,
        gov_type: String::from_str("Království"),
        religion: String::from_str("Hussite"),
        allies: Vec::new(),
        subjects: Vec::new(),
    };
    proof {
        assert(crate::game_types::strings_view(country.allies@) =~= Seq::<Seq<char>>::empty());
        assert(crate::game_types::strings_view(country.subjects@) =~= Seq::<Seq<char>>::empty());
        assert(country@ == default_country(tag@));
    }
    let pattern = country_pattern_string(tag);
    let re = match compile_pattern(&pattern) {
        Ok(re) => re,
        Err(_) => return None,
    };
    let (col, provs_text) = match capture_groups(&re, text) {
        None => {
            let none: Vec<Province> = Vec::new();
            assert(provinces_view(none@) =~= Seq::<ProvinceView>::empty());
            return Some((country, none));
        },
        Some((Some(a), Some(b))) => (a, b),
        Some(_) => return None,
    };
    let provs = trimmed(&chars_of(provs_text.as_str()));
    let cols = split_on_spaces(&trimmed(&chars_of(col.as_str())));
    let ghost colsv = cols@.map_values(|v: Vec<char>| v@);
    if cols.len() < 3 {
        return None;
    }
    assert(colsv[0] == cols@[0]@ && colsv[1] == cols@[1]@ && colsv[2] == cols@[2]@);
    let r = match piece_u8(&cols[0]) {
        Some(v) => v,
        None => return None,
    };
    let g = match piece_u8(&cols[1]) {
        Some(v) => v,
        None => return None,
    };
    let b = match piece_u8(&cols[2]) {
        Some(v) => v,
        None => return None,
    };
    country.color_r = r;
    country.color_g = g;
    country.color_b = b;
    let pieces = split_on_spaces(&provs);
    let ghost pw = pieces@.map_values(|v: Vec<char>| v@);
    let ghost pv = provinces_view(provs_all@);
    let ghost whole = match owned_provinces(pw, pv, country@) {
        Some(o) => SavegameRead::Read(country@, o),
        None => SavegameRead::Abort,
    };
    assert(read_country(text@, tag@, pv) == whole);
    let mut provs_vec: Vec<Province> = Vec::new();
    let mut i: usize = 0;
    assert(pw.take(0) =~= Seq::<Seq<char>>::empty());
    assert(provinces_view(provs_vec@) =~= Seq::<ProvinceView>::empty());
    while i < pieces.len()
        invariant
            i <= pieces@.len(),
            pw == pieces@.map_values(|v: Vec<char>| v@),
            pv == provinces_view(provs_all@),
            read_country(text@, tag@, pv) == whole,
            whole == match owned_provinces(pw, pv, country@) {
                Some(o) => SavegameRead::Read(country@, o),
                None => SavegameRead::Abort,
            },
            owned_provinces(pw.take(i as int), pv, country@) == Some(provinces_view(provs_vec@)),
        decreases pieces@.len() - i,
    {
        assert(pw.take(i + 1).drop_last() =~= pw.take(i as int));
        assert(pw.take(i + 1).last() == pieces@[i as int]@);
        if provs_all.len() > 0 {
            let piece = &pieces[i];
            assert(piece@.subrange(0, piece@.len() as int) =~= piece@);
            let pi = match decimal_unsigned(piece, 0, piece.len(), 65535) {
                Some(v) => v,
                None => {
                    proof {
                        lemma_owned_none_stays(pw, i + 1, pv, country@);
                        assert(pw.take(pieces@.len() as int) =~= pw);
                    }
                    return None;
                },
            };
            match find_province_index(provs_all, pi as i32) {
                Some(j) => {
                    let pa = &provs_all[j];
                    let owner = copy_nation(&country);
                    let ghost before = provs_vec@;
                    provs_vec.push(
                        Province {
                            id: pi as u16,
                            name: pa.name.clone(),
                            color_r: pa.color_r,
                            color_g: pa.color_g,
                            color_b: pa.color_b,
                            dev: pa.dev,
                            is_used: pa.is_used,
                            is_sea: pa.is_sea,
                            is_lake: pa.is_lake,
                            col: Color { r: pa.color_r, g: pa.color_g, b: pa.color_b },
                            owner: Some(owner),
                        },
                    );
                    assert(provinces_view(provs_vec@) =~= provinces_view(before).push(
                        provinces_view(provs_vec@).last(),
                    ));
                },
                None => {},
            }
        }
        i += 1;
    }
    assert(pw.take(i as int) =~= pw);
    Some((country, provs_vec))
}

/// Reads the nation `tag` from the save game's bytes (decoded as
/// `String::from_utf8_lossy` decodes them), with the provinces of
/// `provs_all` that it owns (see `read_country`), and hands `provs_all`
/// back. The reading must not abort.
pub fn read_savegame(save_contents: &[u8], tag: String, provs_all: Vec<Province>) -> (res: (
    Nation,
    Vec<Province>,
    Vec<Province>,
))
    requires
        !(read_country(utf8_lossy_chars(save_contents@), tag@, provinces_view(provs_all@)) is Abort),
    ensures
        read_country(utf8_lossy_chars(save_contents@), tag@, provinces_view(provs_all@)) matches SavegameRead::Read(c, pv)
            && res.0@ == c && provinces_view(res.1@) == pv,
        res.2@ == provs_all@,
{
    let text = decode_lossy(save_contents);
    match read_country_from_text(&text, &tag, &provs_all) {
        Some((country, provs_vec)) => (country, provs_vec, provs_all),
        None => {
            // not reached: the reading does not abort
            let nobody = Nation {
                id: 0,
                name: String::new(),
                tag: tag,
                color_r: 0,
                color_g: 0,
                color_b: 0,
                rank: 0,
                gov_type: String::new(),
                religion: String::new(),
                allies: Vec::new(),
                subjects: Vec::new(),
            };
            (nobody, Vec::new(), provs_all)
        },
    }
}

/// Reads the nation `tag` from the save game's bytes as `read_savegame`
/// does, or returns `None` where that reading aborts.
pub fn read_savegame_checked(save_contents: &[u8], tag: String, provs_all: Vec<Province>) -> (res: Option<
    (Nation, Vec<Province>, Vec<Province>),
>)
    ensures
        match read_country(utf8_lossy_chars(save_contents@), tag@, provinces_view(provs_all@)) {
            SavegameRead::Abort => res is None,
            SavegameRead::Read(c, pv) => res matches Some(r) && r.0@ == c && provinces_view(r.1@) == pv
                && r.2@ == provs_all@,
        },
{
    let text = decode_lossy(save_contents);
    match read_country_from_text(&text, &tag, &provs_all) {
        None => None,
        Some(_) => Some(read_savegame(save_contents, tag, provs_all)),
    }
}

} // verus!
