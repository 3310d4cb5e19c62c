//! The provinces of the map, read from the definition table and the table of
//! water bodies.
use vstd::prelude::*;
use crate::csv_table::{ReadError, csv_read, lemma_rows_view, read_csv, rows_view};
use crate::game_types::{Color, Province, ProvinceView, provinces_view, strings_view};
use crate::numbers::{chars_of, decimal_unsigned, lemma_parse_unsigned_bounds, parse_unsigned_spec};

verus! {

/// The province of one record of the definition table: the fields are the
/// id, red, green, blue, the name, and `x` for a province in use. `None`
/// where the record lacks a field or a number does not read as its type
/// (`u16` for the id, `u8` for the colours).
pub open spec fn definition_province(r: Seq<Seq<char>>) -> Option<ProvinceView> {
    if r.len() < 6 {
        None
    } else {
        match (
            parse_unsigned_spec(r[0], 65535),
            parse_unsigned_spec(r[1], 255),
            parse_unsigned_spec(r[2], 255),
            parse_unsigned_spec(r[3], 255),
        ) {
            (Some(id), Some(cr), Some(cg), Some(cb)) => Some(
                ProvinceView {
                    id: id as u16,
                    name: r[4],
                    color_r: cr as u8,
                    color_g: cg as u8,
                    color_b: cb as u8,
                    dev: 12,
                    is_used: r[5] == "x"@,
                    is_sea: false,
                    is_lake: false,
                    col: Color { r: cr as u8, g: cg as u8, b: cb as u8 },
                    owner: None,
                },
            ),
            _ => None,
        }
    }
}

/// The provinces of the records of the definition table, in order; `None`
/// where a record is not readable.
pub open spec fn definition_provinces(rows: Seq<Seq<Seq<char>>>) -> Option<Seq<ProvinceView>>
    decreases rows.len(),
{
    if rows.len() == 0 {
        Some(seq![])
    } else {
        match (definition_provinces(rows.drop_last()), definition_province(rows.last())) {
            (Some(pv), Some(p)) => Some(pv.push(p)),
            _ => None,
        }
    }
}

/// Reads an unsigned number of at most `max` from a field.
fn field_number(field: &String, max: u32) -> (r: Option<u32>)
    ensures
        r matches Some(v) ==> parse_unsigned_spec(field@, max as int) == Some(v as int),
        r is None ==> parse_unsigned_spec(field@, max as int) is None,
{
    let cs = chars_of(field.as_str());
    assert(cs@.subrange(0, cs@.len() as int) =~= cs@);
    decimal_unsigned(&cs, 0, cs.len(), max)
}

/// The province of one record of the definition table (see
/// `definition_province`), or `None`.
fn definition_record(record: &Vec<String>) -> (p: Option<Province>)
    ensures
        match definition_province(strings_view(record@)) {
            Some(pv) => p matches Some(q) && q@ == pv,
            None => p is None,
        },
{
    if record.len() < 6 {
        return None;
    }
    let id = match field_number(&record[0], 65535) {
        Some(v) => v,
        None => return None,
    };
    let color_r = match field_number(&record[1], 255) {
        Some(v) => v,
        None => return None,
    };
    let color_g = match field_number(&record[2], 255) {
        Some(v) => v,
        None => return None,
    };
    let color_b = match field_number(&record[3], 255) {
        Some(v) => v,
        None => return None,
    };
    let is_used = record[5] == String::from_str("x");
    Some(
        Province {
            id: id as u16,
            name: record[4].clone(),
            color_r: color_r as u8,
            color_g: color_g as u8,
            color_b: color_b as u8,
            dev: 12,
            is_used: is_used,
            is_sea: false,
            is_lake: false,
            col: Color { r: color_r as u8, g: color_g as u8, b: color_b as u8 },
            owner: None,
        },
    )
}

/// Whether every record of the definition table is readable.
pub fn definitions_readable(rows: &Vec<Vec<String>>) -> (r: bool)
    ensures
        r == definition_provinces(rows_view(rows@)) is Some,
{
    proof {
        lemma_rows_view(rows@);
    }
    let ghost rv = rows_view(rows@);
    let mut i: usize = 0;
    assert(rv.take(0) =~= Seq::<Seq<Seq<char>>>::empty());
    while i < rows.len()
        invariant
            i <= rows@.len(),
            rv == rows_view(rows@),
            rv.len() == rows@.len(),
            forall|k: int| 0 <= k < rows@.len() ==> #[trigger] rv[k] == strings_view(rows@[k]@),
            definition_provinces(rv.take(i as int)) is Some,
        decreases rows@.len() - i,
    {
        assert(rv.take(i + 1).drop_last() =~= rv.take(i as int));
        match definition_record(&rows[i]) {
            Some(_) => {},
            None => {
                proof {
                    lemma_none_stays(rv, i as int + 1);
                    assert(rv.take(rows@.len() as int) =~= rv);
                }
                return false;
            },
        }
        i += 1;
    }
    assert(rv.take(i as int) =~= rv);
    true
}

/// A record that is not readable leaves the whole table unreadable.
proof fn lemma_none_stays(rows: Seq<Seq<Seq<char>>>, k: int)
    requires
        0 <= k <= rows.len(),
        definition_provinces(rows.take(k)) is None,
    ensures
        definition_provinces(rows) is None,
    decreases rows.len() - k,
{
    if k < rows.len() {
        assert(rows.take(k + 1).drop_last() =~= rows.take(k));
        lemma_none_stays(rows, k + 1);
    } else {
        assert(rows.take(k) =~= rows);
    }
}

/// The provinces of the records of the definition table (see
/// `definition_province`). Every record must be readable.
pub fn provinces_from_records(rows: &Vec<Vec<String>>) -> (pv: Vec<Province>)
    requires
        definition_provinces(rows_view(rows@)) is Some,
    ensures
        provinces_view(pv@) == definition_provinces(rows_view(rows@))->0,
{
    proof {
        lemma_rows_view(rows@);
    }
    let ghost rv = rows_view(rows@);
    let mut pv: Vec<Province> = Vec::new();
    let mut i: usize = 0;
    assert(rv.take(0) =~= Seq::<Seq<Seq<char>>>::empty());
    assert(provinces_view(pv@) =~= Seq::<ProvinceView>::empty());
    while i < rows.len()
        invariant
            i <= rows@.len(),
            rv == rows_view(rows@),
            rv.len() == rows@.len(),
            forall|k: int| 0 <= k < rows@.len() ==> #[trigger] rv[k] == strings_view(rows@[k]@),
            definition_provinces(rv) is Some,
            definition_provinces(rv.take(i as int)) == Some(provinces_view(pv@)),
        decreases rows@.len() - i,
    {
        assert(rv.take(i + 1).drop_last() =~= rv.take(i as int));
        proof {
            if definition_province(rv[i as int]) is None {
                lemma_none_stays(rv, i + 1);
            }
        }
        match definition_record(&rows[i]) {
            Some(p) => {
                let ghost before = pv@;
                pv.push(p);
                assert(provinces_view(pv@) =~= provinces_view(before).push(p@));
            },
            None => {},
        }
        i += 1;
    }
    assert(rv.take(i as int) =~= rv);
    pv
}

/// Reads the provinces of the definition table `def_text` (fields separated
/// by `;`, a header row first). `None` where a record is not readable (see
/// `definition_province`); else the provinces, or the error that stopped the
/// reading of the table.
pub fn read_definitions(def_text: &[u8]) -> (res: Option<Result<Vec<Province>, ReadError>>)
    ensures
        match definition_provinces(csv_read(def_text@, 59u8).0) {
            None => res is None,
            Some(pv) => res matches Some(r) && (csv_read(def_text@, 59u8).1 ==> r is Err) && (!csv_read(
                def_text@,
                59u8,
            ).1 ==> (r matches Ok(v) && provinces_view(v@) == pv)),
        },
{
    let (rows, err) = read_csv(def_text, 59u8);
    if !definitions_readable(&rows) {
        return None;
    }
    let pv = provinces_from_records(&rows);
    match err {
        Some(e) => Some(Err(ReadError::Csv(e))),
        None => Some(Ok(pv)),
    }
}

/// One record of the table of water bodies: the fields are the id, then
/// `true` for sea and `true` for a lake. The provinces with that id take
/// both flags. `None` where the id does not read as a `u16`, or where a
/// province has that id and the record lacks a flag.
pub open spec fn water_step(pv: Seq<ProvinceView>, r: Seq<Seq<char>>) -> Option<Seq<ProvinceView>> {
    if r.len() < 1 {
        None
    } else {
        match parse_unsigned_spec(r[0], 65535) {
            None => None,
            Some(id) => if r.len() < 3 && exists|k: int| 0 <= k < pv.len() && pv[k].id == id {
                None
            } else {
                Some(
                    Seq::new(
                        pv.len(),
                        |k: int|
                            if pv[k].id == id {
                                ProvinceView {
                                    is_sea: r[1] == "true"@,
                                    is_lake: r[2] == "true"@,
                                    ..pv[k]
                                }
                            } else {
                                pv[k]
                            },
                    ),
                )
            },
        }
    }
}

/// The provinces after the records of the table of water bodies, in order;
/// `None` where a record is not readable.
pub open spec fn water_provinces(pv: Seq<ProvinceView>, rows: Seq<Seq<Seq<char>>>) -> Option<
    Seq<ProvinceView>,
>
    decreases rows.len(),
{
    if rows.len() == 0 {
        Some(pv)
    } else {
        match water_provinces(pv, rows.drop_last()) {
            Some(p) => water_step(p, rows.last()),
            None => None,
        }
    }
}


/// The ids of the provinces, in order.
pub open spec fn province_ids(pv: Seq<ProvinceView>) -> Seq<u16> {
    pv.map_values(|p: ProvinceView| p.id)
}

/// A record of the table of water bodies is readable for provinces with the
/// ids `ids` (see `water_step`).
pub open spec fn water_row_readable(ids: Seq<u16>, r: Seq<Seq<char>>) -> bool {
    &&& r.len() >= 1
    &&& parse_unsigned_spec(r[0], 65535) is Some
    &&& (r.len() >= 3 || !ids.contains(parse_unsigned_spec(r[0], 65535)->0 as u16))
}

proof fn lemma_water_step(pv: Seq<ProvinceView>, r: Seq<Seq<char>>)
    ensures
        water_step(pv, r) is Some <==> water_row_readable(province_ids(pv), r),
        water_step(pv, r) matches Some(n) ==> province_ids(n) == province_ids(pv),
{
    if r.len() >= 1 {
        lemma_parse_unsigned_bounds(r[0], 65535);
        if let Some(id) = parse_unsigned_spec(r[0], 65535) {
            if exists|k: int| 0 <= k < pv.len() && pv[k].id == id {
                let k = choose|k: int| 0 <= k < pv.len() && pv[k].id == id;
                assert(province_ids(pv)[k] == id as u16);
            }
            if province_ids(pv).contains(id as u16) {
                let k = choose|k: int| 0 <= k < province_ids(pv).len() && province_ids(pv)[k] == id as u16;
                assert(pv[k].id == id);
            }
            if let Some(n) = water_step(pv, r) {
                assert(province_ids(n) =~= province_ids(pv));
            }
        }
    }
}

proof fn lemma_water_provinces(pv: Seq<ProvinceView>, rows: Seq<Seq<Seq<char>>>)
    ensures
        water_provinces(pv, rows) is Some <==> forall|k: int|
            0 <= k < rows.len() ==> water_row_readable(province_ids(pv), #[trigger] rows[k]),
        water_provinces(pv, rows) matches Some(n) ==> province_ids(n) == province_ids(pv),
    decreases rows.len(),
{
    let ids = province_ids(pv);
    if rows.len() > 0 {
        let dl = rows.drop_last();
        let last = rows[rows.len() - 1];
        assert(rows.last() == last);
        lemma_water_provinces(pv, dl);
        let all_rows = forall|k: int| 0 <= k < rows.len() ==> water_row_readable(ids, #[trigger] rows[k]);
        let all_dl = forall|k: int| 0 <= k < dl.len() ==> water_row_readable(ids, #[trigger] dl[k]);
        assert(all_rows <==> (all_dl && water_row_readable(ids, last))) by {
            if all_rows {
                assert forall|k: int| 0 <= k < dl.len() implies water_row_readable(ids, #[trigger] dl[k]) by {
                    assert(dl[k] == rows[k]);
                }
            }
            if all_dl && water_row_readable(ids, last) {
                assert forall|k: int| 0 <= k < rows.len() implies water_row_readable(ids, #[trigger] rows[k]) by {
                    if k < dl.len() {
                        assert(dl[k] == rows[k]);
                    }
                }
            }
        }
        match water_provinces(pv, dl) {
            Some(p) => {
                lemma_water_step(p, last);
            },
            None => {},
        }
    }
}

/// The provinces `b` are the provinces `a` but for their sea and lake flags.
pub open spec fn same_but_flags(a: Seq<ProvinceView>, b: Seq<ProvinceView>) -> bool {
    &&& a.len() == b.len()
    &&& forall|k: int|
        0 <= k < a.len() ==> #[trigger] b[k] == (ProvinceView { is_sea: b[k].is_sea, is_lake: b[k].is_lake, ..a[k] })
}

/// Reading the table of water bodies changes nothing of the provinces but
/// their sea and lake flags: the list keeps its length, its order, and each
/// province's id, name, colours, development, use and owner.
pub proof fn lemma_water_bodies_keep_provinces(pv: Seq<ProvinceView>, rows: Seq<Seq<Seq<char>>>)
    ensures
        water_provinces(pv, rows) matches Some(n) ==> same_but_flags(pv, n),
    decreases rows.len(),
{
    if rows.len() > 0 {
        lemma_water_bodies_keep_provinces(pv, rows.drop_last());
        if let Some(p) = water_provinces(pv, rows.drop_last()) {
            if let Some(n) = water_step(p, rows.last()) {
                assert forall|k: int| 0 <= k < pv.len() implies #[trigger] n[k] == (ProvinceView {
                    is_sea: n[k].is_sea,
                    is_lake: n[k].is_lake,
                    ..pv[k]
                }) by {
                    assert(p[k] == (ProvinceView { is_sea: p[k].is_sea, is_lake: p[k].is_lake, ..pv[k] }));
                }
            }
        }
    }
}

/// Whether some province has the id `id`.
fn has_province(pv: &Vec<Province>, id: u16) -> (r: bool)
    ensures
        r == province_ids(provinces_view(pv@)).contains(id),
{
    let ghost ids = province_ids(provinces_view(pv@));
    let mut k: usize = 0;
    while k < pv.len()
        invariant
            k <= pv@.len(),
            ids == province_ids(provinces_view(pv@)),
            forall|j: int| 0 <= j < k ==> pv@[j].id != id,
        decreases pv@.len() - k,
    {
        if pv[k].id == id {
            assert(ids[k as int] == id);
            return true;
        }
        k += 1;
    }
    proof {
        if ids.contains(id) {
            let j = choose|j: int| 0 <= j < ids.len() && ids[j] == id;
            assert(pv@[j].id == id);
        }
    }
    false
}

/// Whether every record of the table of water bodies is readable for the
/// provinces `pv` (see `water_step`).
pub fn water_bodies_readable(pv: &Vec<Province>, rows: &Vec<Vec<String>>) -> (r: bool)
    ensures
        r == water_provinces(provinces_view(pv@), rows_view(rows@)) is Some,
{
    proof {
        lemma_rows_view(rows@);
        lemma_water_provinces(provinces_view(pv@), rows_view(rows@));
    }
    let ghost rv = rows_view(rows@);
    let ghost ids = province_ids(provinces_view(pv@));
    let mut i: usize = 0;
    while i < rows.len()
        invariant
            i <= rows@.len(),
            rv == rows_view(rows@),
            ids == province_ids(provinces_view(pv@)),
            rv.len() == rows@.len(),
            forall|k: int| 0 <= k < rows@.len() ==> #[trigger] rv[k] == strings_view(rows@[k]@),
            forall|k: int| 0 <= k < i ==> water_row_readable(ids, #[trigger] rv[k]),
            water_provinces(provinces_view(pv@), rv) is Some <==> forall|k: int|
                0 <= k < rv.len() ==> water_row_readable(ids, #[trigger] rv[k]),
        decreases rows@.len() - i,
    {
        let record = &rows[i];
        assert(rv[i as int] == strings_view(record@));
        if record.len() < 1 {
            assert(!water_row_readable(ids, rv[i as int]));
            return false;
        }
        assert(strings_view(record@)[0] == record@[0]@);
        proof {
            lemma_parse_unsigned_bounds(record@[0]@, 65535);
        }
        let id = match field_number(&record[0], 65535) {
            Some(v) => v as u16,
            None => {
                assert(!water_row_readable(ids, rv[i as int]));
                return false;
            },
        };
        if record.len() < 3 && has_province(pv, id) {
            assert(!water_row_readable(ids, rv[i as int]));
            return false;
        }
        i += 1;
    }
    true
}

/// Takes the flags of one readable record of the table of water bodies.
fn water_record(pv: &mut Vec<Province>, record: &Vec<String>)
    requires
        water_row_readable(province_ids(provinces_view(old(pv)@)), strings_view(record@)),
    ensures
        water_step(provinces_view(old(pv)@), strings_view(record@)) == Some(provinces_view(final(pv)@)),
{
    proof {
        lemma_water_step(provinces_view(pv@), strings_view(record@));
    }
    let ghost p0 = provinces_view(pv@);
    let ghost n = water_step(p0, strings_view(record@))->0;
    assert(strings_view(record@)[0] == record@[0]@);
    proof {
        lemma_parse_unsigned_bounds(record@[0]@, 65535);
    }
    let id = match field_number(&record[0], 65535) {
        Some(v) => v as u16,
        None => return,
    };
    let mut k: usize = 0;
    while k < pv.len()
        invariant
            k <= pv@.len(),
            p0.len() == pv@.len(),
            n.len() == p0.len(),
            n == water_step(p0, strings_view(record@))->0,
            water_step(p0, strings_view(record@)) is Some,
            strings_view(record@).len() >= 1,
            parse_unsigned_spec(strings_view(record@)[0], 65535) == Some(id as int),
            strings_view(record@).len() >= 3 || !province_ids(p0).contains(id),
            forall|j: int| 0 <= j < k ==> #[trigger] pv@[j]@ == n[j],
            forall|j: int| k <= j < pv@.len() ==> #[trigger] pv@[j]@ == p0[j],
        decreases pv@.len() - k,
    {
        if pv[k].id == id {
            proof {
                assert(pv@[k as int]@ == p0[k as int]);
                assert(province_ids(p0)[k as int] == id);
            }
            let is_sea = record[1] == String::from_str("true");
            let is_lake = record[2] == String::from_str("true");
            let ghost before = pv@;
            assert(strings_view(record@)[1] == record@[1]@);
            assert(strings_view(record@)[2] == record@[2]@);
            pv[k].is_sea = is_sea;
            pv[k].is_lake = is_lake;
            assert(pv@[k as int].name == before[k as int].name);
            assert(pv@[k as int].owner == before[k as int].owner);
            assert(forall|j: int| 0 <= j < pv@.len() && j != k ==> pv@[j] == before[j]);
        }
        k += 1;
    }
    assert(provinces_view(pv@) =~= n);
}

/// The provinces after the records of the table of water bodies (see
/// `water_step`). Every record must be readable.
pub fn apply_water_bodies(pv: &mut Vec<Province>, rows: &Vec<Vec<String>>)
    requires
        water_provinces(provinces_view(old(pv)@), rows_view(rows@)) is Some,
    ensures
        Some(provinces_view(final(pv)@)) == water_provinces(provinces_view(old(pv)@), rows_view(rows@)),
{
    proof {
        lemma_rows_view(rows@);
        lemma_water_provinces(provinces_view(pv@), rows_view(rows@));
    }
    let ghost p0 = provinces_view(pv@);
    let ghost rv = rows_view(rows@);
    let mut i: usize = 0;
    assert(rv.take(0) =~= Seq::<Seq<Seq<char>>>::empty());
    while i < rows.len()
        invariant
            i <= rows@.len(),
            rv == rows_view(rows@),
            rv.len() == rows@.len(),
            forall|k: int| 0 <= k < rows@.len() ==> #[trigger] rv[k] == strings_view(rows@[k]@),
            forall|k: int| 0 <= k < rows@.len() ==> water_row_readable(province_ids(p0), #[trigger] rv[k]),
            water_provinces(p0, rv.take(i as int)) == Some(provinces_view(pv@)),
        decreases rows@.len() - i,
    {
        proof {
            assert(rv.take(i + 1).drop_last() =~= rv.take(i as int));
            lemma_water_provinces(p0, rv.take(i as int));
            assert(rv[i as int] == strings_view(rows@[i as int]@));
        }
        water_record(pv, &rows[i]);
        i += 1;
    }
    assert(rv.take(i as int) =~= rv);
}

/// Reads the table of water bodies `wb_text` (fields separated by `;`, a
/// header row first) into the provinces `pv`. `None` where a record is not
/// readable (see `water_step`), and `pv` is then left as it was; else the
/// provinces take the flags of all records, and the result is the error
/// that stopped the reading of the table, if any.
pub fn read_water_bodies(pv: &mut Vec<Province>, wb_text: &[u8]) -> (res: Option<Result<(), ReadError>>)
    ensures
        match water_provinces(provinces_view(old(pv)@), csv_read(wb_text@, 59u8).0) {
            None => res is None && final(pv)@ == old(pv)@,
            Some(n) => res matches Some(r) && provinces_view(final(pv)@) == n && (r is Err
                <==> csv_read(wb_text@, 59u8).1),
        },
{
    let (rows, err) = read_csv(wb_text, 59u8);
    if !water_bodies_readable(pv, &rows) {
        return None;
    }
    apply_water_bodies(pv, &rows);
    match err {
        Some(e) => Some(Err(ReadError::Csv(e))),
        None => Some(Ok(())),
    }
}


/// The character that Windows-1252 gives the byte `b` (the WHATWG index that
/// `encoding_rs` decodes with): below 0x80 and from 0xA0 on the code point
/// of the same number; from 0x80 to 0x9F the character of the index's table.
pub open spec fn windows_1252_char(b: u8) -> char {
    if b < 0x80 || b >= 0xA0 {
        b as char
    } else if b == 0x80 {
        '\u{20AC}'
    } else if b == 0x81 {
        '\u{0081}'
    } else if b == 0x82 {
        '\u{201A}'
    } else if b == 0x83 {
        '\u{0192}'
    } else if b == 0x84 {
        '\u{201E}'
    } else if b == 0x85 {
        '\u{2026}'
    } else if b == 0x86 {
        '\u{2020}'
    } else if b == 0x87 {
        '\u{2021}'
    } else if b == 0x88 {
        '\u{02C6}'
    } else if b == 0x89 {
        '\u{2030}'
    } else if b == 0x8A {
        '\u{0160}'
    } else if b == 0x8B {
        '\u{2039}'
    } else if b == 0x8C {
        '\u{0152}'
    } else if b == 0x8D {
        '\u{008D}'
    } else if b == 0x8E {
        '\u{017D}'
    } else if b == 0x8F {
        '\u{008F}'
    } else if b == 0x90 {
        '\u{0090}'
    } else if b == 0x91 {
        '\u{2018}'
    } else if b == 0x92 {
        '\u{2019}'
    } else if b == 0x93 {
        '\u{201C}'
    } else if b == 0x94 {
        '\u{201D}'
    } else if b == 0x95 {
        '\u{2022}'
    } else if b == 0x96 {
        '\u{2013}'
    } else if b == 0x97 {
        '\u{2014}'
    } else if b == 0x98 {
        '\u{02DC}'
    } else if b == 0x99 {
        '\u{2122}'
    } else if b == 0x9A {
        '\u{0161}'
    } else if b == 0x9B {
        '\u{203A}'
    } else if b == 0x9C {
        '\u{0153}'
    } else if b == 0x9D {
        '\u{009D}'
    } else if b == 0x9E {
        '\u{017E}'
    } else {
        '\u{0178}'
    }
}

/// The text of the bytes `bytes` read as Windows-1252: each byte gives one
/// character (no byte is an error in this encoding).
pub open spec fn windows_1252_text(bytes: Seq<u8>) -> Seq<char> {
    bytes.map_values(|b: u8| windows_1252_char(b))
}

/// Decodes a table written in Windows-1252, as the definition tables of the
/// game are written (`encoding_rs::WINDOWS_1252.decode_without_bom_handling`,
/// which does not look for a byte order mark). The contract claims what the
/// crate's single-byte decoder does with the Windows-1252 table of its data:
/// each byte becomes the character of `windows_1252_char` (the table has no
/// unmapped byte, so nothing is replaced). The crate's buffer arithmetic is
/// checked, so the length is kept well within `usize`.
#[verifier::external_body]
fn decode_windows_1252(bytes: &[u8]) -> (text: String)
    requires
        bytes@.len() < usize::MAX / 4,
    ensures
        text@ == windows_1252_text(bytes@),
{
    encoding_rs::WINDOWS_1252.decode_without_bom_handling(bytes).0.into_owned()
}

/// Reads the provinces of a definition table written in Windows-1252 (see
/// `read_definitions`).
pub fn read_definitions_windows_1252(def_file: &[u8]) -> (res: Option<Result<Vec<Province>, ReadError>>)
    requires
        def_file@.len() < usize::MAX / 4,
    ensures
        match definition_provinces(csv_read(vstd::utf8::encode_utf8(windows_1252_text(def_file@)), 59u8).0) {
            None => res is None,
            Some(pv) => res matches Some(r) && (csv_read(vstd::utf8::encode_utf8(windows_1252_text(def_file@)), 59u8).1 ==> r is Err)
                && (!csv_read(vstd::utf8::encode_utf8(windows_1252_text(def_file@)), 59u8).1 ==> (r matches Ok(v) && provinces_view(v@)
                == pv)),
        },
{
    let text = decode_windows_1252(def_file);
    read_definitions(text.as_str().as_bytes())
}

/// Reads a table of water bodies written in Windows-1252 into the provinces
/// (see `read_water_bodies`).
pub fn read_water_bodies_windows_1252(pv: &mut Vec<Province>, wb_file: &[u8]) -> (res: Option<Result<(), ReadError>>)
    requires
        wb_file@.len() < usize::MAX / 4,
    ensures
        match water_provinces(provinces_view(old(pv)@), csv_read(vstd::utf8::encode_utf8(windows_1252_text(wb_file@)), 59u8).0) {
            None => res is None && final(pv)@ == old(pv)@,
            Some(n) => res matches Some(r) && provinces_view(final(pv)@) == n && (r is Err
                <==> csv_read(vstd::utf8::encode_utf8(windows_1252_text(wb_file@)), 59u8).1),
        },
{
    let text = decode_windows_1252(wb_file);
    read_water_bodies(pv, text.as_str().as_bytes())
}

} // verus!
