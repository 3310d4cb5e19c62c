//! The table from map coordinates to province ids, made from the province
//! map image: one record where a run of a province's colour starts.
use vstd::prelude::*;
use crate::game_types::{Color, Province, ProvinceView, provinces_view};
use crate::image_generator::{
    MapContext, RgbImage, find_province, last_run_fits, paint_records, paint_row,
    paint_step, pair_fits, rendered_map, run_color, run_end, runs_fit,
};

verus! {

/// Errors of making the coordinate table: a number that does not fit the
/// integer type it is converted to, or a province map that does not decode.
#[derive(Debug)]
pub enum ConvertError {
    OutOfRange,
    Image(image::ImageError),
}

#[verifier::external_type_specification]
#[verifier::external_body]
pub struct ExImageError(image::ImageError);

/// What `image::load_from_memory` and then `to_rgb8` make of the bytes of an
/// image file: its width, its height and its pixels row by row, or `None`
/// where the bytes do not decode.
pub uninterp spec fn decoded_image(bytes: Seq<u8>) -> Option<(u32, u32, Seq<Seq<Color>>)>;

/// Decodes an image file with `image::load_from_memory` (the format guessed
/// from the bytes) and converts it with `to_rgb8`, copying each pixel's
/// channels. The contract claims that the result is a function of the bytes
/// alone (named `decoded_image`), and that the rows are as many as the
/// height and each as long as the width (as `ImageBuffer::rows` yields
/// them); what the pixels are, and what the error holds, is left unsaid.
#[verifier::external_body]
fn decode_image(bytes: &[u8]) -> (r: Result<RgbImage, image::ImageError>)
    ensures
        match (r, decoded_image(bytes@)) {
            (Ok(img), Some(d)) => img.wf() && img.width == d.0 && img.height == d.1 && img.pixels() == d.2,
            (Err(_), None) => true,
            _ => false,
        },
{
    let img = image::load_from_memory(bytes)?.to_rgb8();
    let (width, height) = img.dimensions();
    let rows = img.rows().map(|row| row.map(|p| Color { r: p.0[0], g: p.0[1], b: p.0[2] }).collect()).collect();
    Ok(RgbImage { width, height, rows })
}

/// Reads the province map from the bytes of its image file (see
/// `decoded_image`): the image, or the decoder's error.
pub fn read_province_map(bytes: &[u8]) -> (res: Result<RgbImage, ConvertError>)
    ensures
        match decoded_image(bytes@) {
            Some(d) => res matches Ok(img) && img.wf() && img.width == d.0 && img.height == d.1
                && img.pixels() == d.2,
            None => res matches Err(ConvertError::Image(_)),
        },
{
    match decode_image(bytes) {
        Ok(img) => Ok(img),
        Err(e) => Err(ConvertError::Image(e)),
    }
}

/// The first province whose colour on the province map is `c`.
pub open spec fn province_of_color(pv: Seq<ProvinceView>, c: Color) -> Option<ProvinceView>
    decreases pv.len(),
{
    if pv.len() == 0 {
        None
    } else if pv[0].color_r == c.r && pv[0].color_g == c.g && pv[0].color_b == c.b {
        Some(pv[0])
    } else {
        province_of_color(pv.drop_first(), c)
    }
}

/// Where the scan of the pixels stands: the id and row of the last record,
/// and the records so far.
pub struct CoordScan {
    pub prev_id: u16,
    pub prev_y: u32,
    pub out: Seq<(u32, u32, u16)>,
}

/// One pixel `(x, y)` of colour `c`: where a province has that colour, a
/// record `(x, y, id)` is added unless the last record has the same row and id.
pub open spec fn pixel_step(st: CoordScan, x: u32, y: u32, c: Color, pv: Seq<ProvinceView>) -> CoordScan {
    match province_of_color(pv, c) {
        Some(p) => if y == st.prev_y && p.id == st.prev_id {
            st
        } else {
            CoordScan { prev_id: p.id, prev_y: y, out: st.out.push((x, y, p.id)) }
        },
        None => st,
    }
}

/// The scan of the pixels of row `y`, left to right.
pub open spec fn row_scan(st: CoordScan, row: Seq<Color>, y: u32, pv: Seq<ProvinceView>) -> CoordScan
    decreases row.len(),
{
    if row.len() == 0 {
        st
    } else {
        pixel_step(row_scan(st, row.drop_last(), y, pv), (row.len() - 1) as u32, y, row.last(), pv)
    }
}

/// The scan of the rows, top to bottom.
pub open spec fn rows_scan(st: CoordScan, rows: Seq<Seq<Color>>, pv: Seq<ProvinceView>) -> CoordScan
    decreases rows.len(),
{
    if rows.len() == 0 {
        st
    } else {
        row_scan(rows_scan(st, rows.drop_last(), pv), rows.last(), (rows.len() - 1) as u32, pv)
    }
}

/// The records of the province map `img`, row by row: the scan starts with
/// the image's height plus 2 as previous id and the number of provinces plus
/// 2 as previous row. Where the first does not fit a `u16`, or the second a
/// `u32`, there are no records but the error.
pub open spec fn coord_records_of(img: Seq<Seq<Color>>, height: u32, pv: Seq<ProvinceView>) -> Result<
    Seq<(u32, u32, u16)>,
    ConvertError,
> {
    if height + 2 > u16::MAX || pv.len() + 2 > u32::MAX {
        Err(ConvertError::OutOfRange)
    } else {
        Ok(
            rows_scan(
                CoordScan { prev_id: (height + 2) as u16, prev_y: (pv.len() + 2) as u32, out: seq![] },
                img,
                pv,
            ).out,
        )
    }
}


/// Consecutive records differ in their row or their id, and their rows do
/// not decrease; the last record is the scan's previous one, on a row at
/// most `bound`.
pub open spec fn scan_ok(st: CoordScan, bound: int) -> bool {
    &&& forall|k: int|
        1 <= k < st.out.len() ==> {
            &&& !(#[trigger] st.out[k - 1].1 == st.out[k].1 && st.out[k - 1].2 == st.out[k].2)
            &&& st.out[k - 1].1 <= st.out[k].1
        }
    &&& st.out.len() > 0 ==> st.out.last().1 == st.prev_y && st.out.last().2 == st.prev_id
    &&& st.out.len() > 0 ==> st.out.last().1 <= bound
}

proof fn lemma_pixel_step_ok(st: CoordScan, bound: int, x: u32, y: u32, c: Color, pv: Seq<ProvinceView>)
    requires
        scan_ok(st, bound),
        bound <= y,
    ensures
        scan_ok(pixel_step(st, x, y, c, pv), y as int),
{
    let n = pixel_step(st, x, y, c, pv);
    if n.out.len() > st.out.len() {
        assert forall|k: int| 1 <= k < n.out.len() implies {
            &&& !(#[trigger] n.out[k - 1].1 == n.out[k].1 && n.out[k - 1].2 == n.out[k].2)
            &&& n.out[k - 1].1 <= n.out[k].1
        } by {
            if k < st.out.len() {
                assert(n.out[k - 1] == st.out[k - 1]);
                assert(n.out[k] == st.out[k]);
            } else {
                assert(n.out[k - 1] == st.out.last());
            }
        }
    }
}

proof fn lemma_row_scan_ok(st: CoordScan, row: Seq<Color>, y: u32, pv: Seq<ProvinceView>)
    requires
        scan_ok(st, y as int),
    ensures
        scan_ok(row_scan(st, row, y, pv), y as int),
    decreases row.len(),
{
    if row.len() > 0 {
        lemma_row_scan_ok(st, row.drop_last(), y, pv);
        lemma_pixel_step_ok(
            row_scan(st, row.drop_last(), y, pv),
            y as int,
            (row.len() - 1) as u32,
            y,
            row.last(),
            pv,
        );
    }
}

proof fn lemma_rows_scan_ok(st: CoordScan, rows: Seq<Seq<Color>>, pv: Seq<ProvinceView>)
    requires
        st.out.len() == 0,
        rows.len() <= u32::MAX,
    ensures
        scan_ok(rows_scan(st, rows, pv), rows.len() as int),
    decreases rows.len(),
{
    if rows.len() > 0 {
        lemma_rows_scan_ok(st, rows.drop_last(), pv);
        let before = rows_scan(st, rows.drop_last(), pv);
        let y = (rows.len() - 1) as u32;
        assert(scan_ok(before, y as int));
        lemma_row_scan_ok(before, rows.last(), y, pv);
    }
}

/// In the table made from a province map, the records come row by row, and
/// two records in a row never have both the same row and the same id.
pub proof fn lemma_coord_records_change(img: Seq<Seq<Color>>, height: u32, pv: Seq<ProvinceView>)
    requires
        img.len() == height,
    ensures
        coord_records_of(img, height, pv) matches Ok(recs) ==> forall|k: int|
            1 <= k < recs.len() ==> {
                &&& !(#[trigger] recs[k - 1].1 == recs[k].1 && recs[k - 1].2 == recs[k].2)
                &&& recs[k - 1].1 <= recs[k].1
            },
{
    if height + 2 <= u16::MAX && pv.len() + 2 <= u32::MAX {
        let st0 = CoordScan { prev_id: (height + 2) as u16, prev_y: (pv.len() + 2) as u32, out: seq![] };
        lemma_rows_scan_ok(st0, img, pv);
    }
}

/// The record `r` names a pixel of `img` and the id of the first province of
/// that pixel's colour.
pub open spec fn record_points(img: Seq<Seq<Color>>, pv: Seq<ProvinceView>, r: (u32, u32, u16)) -> bool {
    &&& r.1 < img.len()
    &&& r.0 < img[r.1 as int].len()
    &&& province_of_color(pv, img[r.1 as int][r.0 as int]) matches Some(p) && p.id == r.2
}

proof fn lemma_row_scan_points(st: CoordScan, row: Seq<Color>, y: u32, pv: Seq<ProvinceView>)
    requires
        row.len() <= u32::MAX,
    ensures
        st.out.len() <= row_scan(st, row, y, pv).out.len(),
        row_scan(st, row, y, pv).out.take(st.out.len() as int) == st.out,
        forall|k: int|
            st.out.len() <= k < row_scan(st, row, y, pv).out.len() ==> {
                let r = #[trigger] row_scan(st, row, y, pv).out[k];
                &&& r.1 == y
                &&& r.0 < row.len()
                &&& province_of_color(pv, row[r.0 as int]) matches Some(p) && p.id == r.2
            },
    decreases row.len(),
{
    if row.len() > 0 {
        let dl = row.drop_last();
        lemma_row_scan_points(st, dl, y, pv);
        let a = row_scan(st, dl, y, pv);
        let n = row_scan(st, row, y, pv);
        assert(n == pixel_step(a, (row.len() - 1) as u32, y, row.last(), pv));
        assert forall|k: int| st.out.len() <= k < n.out.len() implies {
            let r = #[trigger] n.out[k];
            &&& r.1 == y
            &&& r.0 < row.len()
            &&& province_of_color(pv, row[r.0 as int]) matches Some(p) && p.id == r.2
        } by {
            if k < a.out.len() {
                assert(n.out[k] == a.out[k]);
                assert(dl[a.out[k].0 as int] == row[a.out[k].0 as int]);
            } else {
                assert(row[row.len() - 1] == row.last());
            }
        }
        assert(n.out.take(st.out.len() as int) =~= st.out) by {
            assert forall|k: int| 0 <= k < st.out.len() implies n.out[k] == st.out[k] by {
                assert(a.out.take(st.out.len() as int)[k] == st.out[k]);
                assert(n.out[k] == a.out[k]);
            }
        }
    }
}

proof fn lemma_rows_scan_points(st: CoordScan, rows: Seq<Seq<Color>>, pv: Seq<ProvinceView>)
    requires
        st.out.len() == 0,
        rows.len() <= u32::MAX,
        forall|y: int| 0 <= y < rows.len() ==> #[trigger] rows[y].len() <= u32::MAX,
    ensures
        forall|k: int|
            0 <= k < rows_scan(st, rows, pv).out.len() ==> record_points(rows, pv, #[trigger] rows_scan(st, rows, pv).out[k]),
    decreases rows.len(),
{
    if rows.len() > 0 {
        let dl = rows.drop_last();
        let y = (rows.len() - 1) as u32;
        lemma_rows_scan_points(st, dl, pv);
        let a = rows_scan(st, dl, pv);
        lemma_row_scan_points(a, rows.last(), y, pv);
        let n = rows_scan(st, rows, pv);
        assert forall|k: int| 0 <= k < n.out.len() implies record_points(rows, pv, #[trigger] n.out[k]) by {
            if k < a.out.len() {
                assert(n.out.take(a.out.len() as int)[k] == a.out[k]);
                assert(n.out[k] == a.out[k]);
                assert(record_points(dl, pv, a.out[k]));
                assert(dl[a.out[k].1 as int] == rows[a.out[k].1 as int]);
            } else {
                assert(rows[y as int] == rows.last());
            }
        }
    }
}

/// Each record `(x, y, id)` of the table made from a province map names a
/// pixel of the map, and `id` is the id of the first province whose colour
/// that pixel has.
pub proof fn lemma_coord_records_point(img: RgbImage, pv: Seq<ProvinceView>)
    requires
        img.wf(),
    ensures
        coord_records_of(img.pixels(), img.height, pv) matches Ok(recs) ==> forall|k: int|
            0 <= k < recs.len() ==> record_points(img.pixels(), pv, #[trigger] recs[k]),
{
    let px = img.pixels();
    let height = img.height;
    assert forall|y: int| 0 <= y < px.len() implies #[trigger] px[y].len() <= u32::MAX by {
        assert(px[y] == img.rows@[y]@);
    }
    if height + 2 <= u16::MAX && pv.len() + 2 <= u32::MAX {
        let st0 = CoordScan { prev_id: (height + 2) as u16, prev_y: (pv.len() + 2) as u32, out: seq![] };
        lemma_rows_scan_points(st0, px, pv);
    }
}

/// The records as the painting of the map reads them back from the table,
/// with the ids as `i32`.
pub open spec fn as_paint_records(recs: Seq<(u32, u32, u16)>) -> Seq<(u32, u32, i32)> {
    recs.map_values(|r: (u32, u32, u16)| (r.0, r.1, r.2 as i32))
}

proof fn lemma_find_province_id(pv: Seq<ProvinceView>, id: int)
    ensures
        find_province(pv, id) matches Some(p) ==> p.id == id,
    decreases pv.len(),
{
    if pv.len() > 0 && pv[0].id as int != id {
        lemma_find_province_id(pv.drop_first(), id);
    }
}

/// The table made from a province map fits a map of the province map's
/// size: every run that its records close lies within the image, and its
/// last run can be painted.
pub proof fn lemma_coord_records_fit(img: RgbImage, pv: Seq<ProvinceView>)
    requires
        img.wf(),
    ensures
        coord_records_of(img.pixels(), img.height, pv) matches Ok(recs) ==> {
            &&& runs_fit(as_paint_records(recs), img.width as int, img.height as int)
            &&& last_run_fits(as_paint_records(recs), pv, img.width as int, img.height as int)
        },
{
    lemma_coord_records_point(img, pv);
    let px = img.pixels();
    let w = img.width as int;
    let h = img.height as int;
    if let Ok(recs) = coord_records_of(px, img.height, pv) {
        let pr = as_paint_records(recs);
        assert forall|k: int| 0 <= k < recs.len() implies pr[k].0 < w && pr[k].1 < h && pr[k].2 != -1 by {
            assert(record_points(px, pv, recs[k]));
            assert(px[recs[k].1 as int] == img.rows@[recs[k].1 as int]@);
        }
        assert forall|k: int| 1 <= k < pr.len() implies pair_fits(#[trigger] pr[k - 1], pr[k], w, h) by {
            assert(pr[k - 1].1 < h && pr[k].0 < w && pr[k - 1].2 != -1);
        }
        if pr.len() == 0 {
            lemma_find_province_id(pv, -1);
        } else {
            assert(pr.last() == pr[pr.len() - 1]);
        }
    }
}

/// The first province whose colour on the province map is `c`.
fn find_by_color(pv: &Vec<Province>, c: Color) -> (r: Option<usize>)
    ensures
        match r {
            Some(k) => k < pv@.len() && province_of_color(provinces_view(pv@), c) == Some(pv@[k as int]@),
            None => province_of_color(provinces_view(pv@), c) is None,
        },
{
    let ghost v = provinces_view(pv@);
    let mut k: usize = 0;
    assert(v.skip(0) =~= v);
    while k < pv.len()
        invariant
            k <= pv@.len(),
            v == provinces_view(pv@),
            province_of_color(v.skip(k as int), c) == province_of_color(v, c),
        decreases pv@.len() - k,
    {
        assert(v.skip(k as int)[0] == pv@[k as int]@);
        let p = &pv[k];
        if p.color_r == c.r && p.color_g == c.g && p.color_b == c.b {
            return Some(k);
        }
        assert(v.skip(k as int).drop_first() =~= v.skip(k + 1));
        k += 1;
    }
    None
}

/// The province found for a colour is the first province of the list whose
/// colour is that colour in all three channels; none is found only where no
/// province has that colour.
pub proof fn lemma_province_of_color(pv: Seq<ProvinceView>, c: Color)
    ensures
        province_of_color(pv, c) matches Some(p) ==> exists|k: int|
            0 <= k < pv.len() && #[trigger] pv[k] == p && p.color_r == c.r && p.color_g == c.g && p.color_b == c.b
                && forall|j: int|
                0 <= j < k ==> !(pv[j].color_r == c.r && pv[j].color_g == c.g && pv[j].color_b == c.b),
        province_of_color(pv, c) is None ==> forall|k: int|
            0 <= k < pv.len() ==> !(#[trigger] pv[k].color_r == c.r && pv[k].color_g == c.g && pv[k].color_b
                == c.b),
    decreases pv.len(),
{
    if pv.len() > 0 {
        let dl = pv.drop_first();
        lemma_province_of_color(dl, c);
        if !(pv[0].color_r == c.r && pv[0].color_g == c.g && pv[0].color_b == c.b) {
            if let Some(p) = province_of_color(dl, c) {
                let k = choose|k: int|
                    0 <= k < dl.len() && #[trigger] dl[k] == p && p.color_r == c.r && p.color_g == c.g
                        && p.color_b == c.b && forall|j: int|
                        0 <= j < k ==> !(dl[j].color_r == c.r && dl[j].color_g == c.g && dl[j].color_b == c.b);
                assert(pv[k + 1] == p);
                assert forall|j: int| 0 <= j < k + 1 implies !(pv[j].color_r == c.r && pv[j].color_g == c.g
                    && pv[j].color_b == c.b) by {
                    if j > 0 {
                        assert(pv[j] == dl[j - 1]);
                    }
                }
            } else {
                assert forall|k: int| 0 <= k < pv.len() implies !(#[trigger] pv[k].color_r == c.r && pv[k].color_g
                    == c.g && pv[k].color_b == c.b) by {
                    if k > 0 {
                        assert(pv[k] == dl[k - 1]);
                    }
                }
            }
        } else {
            assert(pv[0] == pv[0]);
        }
    }
}

/// The records `(x, y, id)` of the table from map coordinates to province
/// ids, made from the province map `img` (see `coord_records_of`).
pub fn coord_to_id_records(img: &RgbImage, all_provinces: &Vec<Province>) -> (res: Result<
    Vec<(u32, u32, u16)>,
    ConvertError,
>)
    requires
        img.wf(),
        img.height + 2 <= u32::MAX,
    ensures
        match coord_records_of(img.pixels(), img.height, provinces_view(all_provinces@)) {
            Ok(recs) => res matches Ok(v) && v@ == recs,
            Err(_) => res is Err,
        },
{
    let ghost pv = provinces_view(all_provinces@);
    let ghost px = img.pixels();
    if img.height + 2 > 65535 {
        return Err(ConvertError::OutOfRange);
    }
    let mut prev_id: u16 = (img.height + 2) as u16;
    if all_provinces.len() > 4294967293 {
        return Err(ConvertError::OutOfRange);
    }
    let mut prev_y: u32 = (all_provinces.len() + 2) as u32;
    let mut out: Vec<(u32, u32, u16)> = Vec::new();
    let ghost st0 = CoordScan { prev_id, prev_y, out: seq![] };
    let mut y: usize = 0;
    assert(px.take(0) =~= Seq::<Seq<Color>>::empty());
    while y < img.rows.len()
        invariant
            img.wf(),
            px == img.pixels(),
            pv == provinces_view(all_provinces@),
            y <= img.rows@.len(),
            rows_scan(st0, px.take(y as int), pv) == (CoordScan { prev_id, prev_y, out: out@ }),
        decreases img.rows@.len() - y,
    {
        let row = &img.rows[y];
        assert(px[y as int] == row@);
        let ghost before = CoordScan { prev_id, prev_y, out: out@ };
        let mut x: usize = 0;
        assert(row@.take(0) =~= Seq::<Color>::empty());
        while x < row.len()
            invariant
                img.wf(),
                y < img.rows@.len(),
                y < u32::MAX,
                row@.len() == img.width,
                pv == provinces_view(all_provinces@),
                x <= row@.len(),
                row_scan(before, row@.take(x as int), y as u32, pv) == (CoordScan {
                    prev_id,
                    prev_y,
                    out: out@,
                }),
            decreases row@.len() - x,
        {
            let c = row[x];
            assert(row@.take(x + 1).drop_last() =~= row@.take(x as int));
            match find_by_color(all_provinces, c) {
                Some(k) => {
                    let p = &all_provinces[k];
                    if !(y as u32 == prev_y && p.id == prev_id) {
                        out.push((x as u32, y as u32, p.id));
                        prev_y = y as u32;
                        prev_id = p.id;
                    }
                },
                None => {},
            }
            x += 1;
        }
        assert(row@.take(x as int) =~= row@);
        assert(px.take(y + 1).drop_last() =~= px.take(y as int));
        y += 1;
    }
    assert(px.take(y as int) =~= px);
    Ok(out)
}


/// No two provinces have the same id.
pub open spec fn ids_unique(pv: Seq<ProvinceView>) -> bool {
    forall|i: int, j: int| 0 <= i < j < pv.len() ==> #[trigger] pv[i].id != #[trigger] pv[j].id
}

/// Every pixel of the map has the colour of a province.
pub open spec fn colors_known(px: Seq<Seq<Color>>, pv: Seq<ProvinceView>) -> bool {
    forall|y: int, x: int|
        0 <= y < px.len() && 0 <= x < px[y].len() ==> #[trigger] province_of_color(pv, px[y][x]) is Some
}

/// The id of the province of the pixel `(x, y)`.
pub open spec fn pixel_id(px: Seq<Seq<Color>>, pv: Seq<ProvinceView>, y: int, x: int) -> u16 {
    province_of_color(pv, px[y][x])->0.id
}

/// The colour that the map gives the province of the pixel `(x, y)`.
pub open spec fn target_color(px: Seq<Seq<Color>>, ctx: MapContext, y: int, x: int) -> Color {
    run_color(province_of_color(ctx.provinces, px[y][x]), ctx)
}

proof fn lemma_color_find(pv: Seq<ProvinceView>, c: Color)
    requires
        ids_unique(pv),
    ensures
        province_of_color(pv, c) matches Some(p) ==> {
            &&& exists|k: int| 0 <= k < pv.len() && pv[k] == p
            &&& find_province(pv, p.id as int) == Some(p)
        },
    decreases pv.len(),
{
    if pv.len() > 0 {
        if !(pv[0].color_r == c.r && pv[0].color_g == c.g && pv[0].color_b == c.b) {
            let dl = pv.drop_first();
            assert(ids_unique(dl)) by {
                assert forall|i: int, j: int| 0 <= i < j < dl.len() implies #[trigger] dl[i].id != #[trigger] dl[j].id by {
                    assert(dl[i] == pv[i + 1] && dl[j] == pv[j + 1]);
                }
            }
            lemma_color_find(dl, c);
            if let Some(p) = province_of_color(dl, c) {
                let k = choose|k: int| 0 <= k < dl.len() && dl[k] == p;
                assert(pv[k + 1] == p);
                assert(pv[0].id != pv[k + 1].id);
            }
        } else {
            assert(pv[0] == pv[0]);
        }
    }
}

/// Two pixels of provinces with the same id are painted alike.
proof fn lemma_same_id_same_color(px: Seq<Seq<Color>>, ctx: MapContext, y: int, x: int, y2: int, x2: int)
    requires
        ids_unique(ctx.provinces),
        0 <= y < px.len(),
        0 <= x < px[y].len(),
        0 <= y2 < px.len(),
        0 <= x2 < px[y2].len(),
        colors_known(px, ctx.provinces),
        pixel_id(px, ctx.provinces, y, x) == pixel_id(px, ctx.provinces, y2, x2),
    ensures
        target_color(px, ctx, y, x) == target_color(px, ctx, y2, x2),
        target_color(px, ctx, y, x) == run_color(
            find_province(ctx.provinces, pixel_id(px, ctx.provinces, y, x) as int),
            ctx,
        ),
{
    let pv = ctx.provinces;
    assert(province_of_color(pv, px[y][x]) is Some);
    assert(province_of_color(pv, px[y2][x2]) is Some);
    lemma_color_find(pv, px[y][x]);
    lemma_color_find(pv, px[y2][x2]);
}

/// Where the scan of row `y`, up to the pixel `x` (not included), and the
/// painting of its records stand: the last record starts the run of the
/// pixel `x - 1`, and the painting has every pixel before that run (but the
/// last column of each row) in its colour.
pub open spec fn scan_paint_inv(px: Seq<Seq<Color>>, ctx: MapContext, st: CoordScan, y: int, x: int) -> bool {
    let pv = ctx.provinces;
    let h = px.len() as int;
    let w = ctx.width;
    let xs = st.out.last().0 as int;
    &&& st.out.len() > 0
    &&& st.prev_y == y
    &&& st.prev_id == pixel_id(px, pv, y, x - 1)
    &&& st.out.last() == (xs as u32, y as u32, st.prev_id)
    &&& xs < x
    &&& forall|j: int| xs <= j < x ==> #[trigger] pixel_id(px, pv, y, j) == st.prev_id
    &&& paint_records(ctx, as_paint_records(st.out)) matches Some(ps) && {
        &&& ps.prev_id == st.prev_id as i32
        &&& ps.prev_x == xs
        &&& ps.prev_y == y
        &&& ps.img.len() == h
        &&& forall|j: int| 0 <= j < h ==> #[trigger] ps.img[j].len() == w
        &&& forall|j: int, i: int|
            0 <= j < y && 0 <= i < w - 1 ==> #[trigger] ps.img[j][i] == target_color(px, ctx, j, i)
        &&& forall|i: int| 0 <= i < xs ==> #[trigger] ps.img[y][i] == target_color(px, ctx, y, i)
    }
}

/// What the round trip assumes of the map and the context: the image is the
/// context's size, every pixel has a province's colour, and no two
/// provinces share an id.
pub open spec fn round_trip_ready(px: Seq<Seq<Color>>, ctx: MapContext) -> bool {
    &&& px.len() == ctx.height
    &&& forall|j: int| 0 <= j < px.len() ==> #[trigger] px[j].len() == ctx.width
    &&& ctx.width <= u32::MAX
    &&& ctx.height <= u32::MAX
    &&& colors_known(px, ctx.provinces)
    &&& ids_unique(ctx.provinces)
}

proof fn lemma_as_paint_push(out: Seq<(u32, u32, u16)>, r: (u32, u32, u16))
    ensures
        as_paint_records(out.push(r)) == as_paint_records(out).push((r.0, r.1, r.2 as i32)),
        as_paint_records(out.push(r)).drop_last() == as_paint_records(out),
{
    assert(as_paint_records(out.push(r)) =~= as_paint_records(out).push((r.0, r.1, r.2 as i32)));
    assert(as_paint_records(out.push(r)).drop_last() =~= as_paint_records(out));
}

/// A pixel past the first of its row keeps the invariant.
proof fn lemma_scan_paint_pixel(px: Seq<Seq<Color>>, ctx: MapContext, st: CoordScan, y: int, x: int)
    requires
        round_trip_ready(px, ctx),
        0 <= y < px.len(),
        1 <= x < ctx.width,
        scan_paint_inv(px, ctx, st, y, x),
    ensures
        scan_paint_inv(px, ctx, pixel_step(st, x as u32, y as u32, px[y][x], ctx.provinces), y, x + 1),
{
    let pv = ctx.provinces;
    let w = ctx.width;
    let h = px.len() as int;
    let c = px[y][x];
    assert(province_of_color(pv, c) is Some);
    let p = province_of_color(pv, c)->0;
    let n = pixel_step(st, x as u32, y as u32, c, pv);
    let xs = st.out.last().0 as int;
    let ps = paint_records(ctx, as_paint_records(st.out))->0;
    if p.id == st.prev_id {
        assert(pixel_id(px, pv, y, x) == st.prev_id);
        assert forall|j: int| xs <= j < x + 1 implies #[trigger] pixel_id(px, pv, y, j) == n.prev_id by {
            if j < x {
                assert(pixel_id(px, pv, y, j) == st.prev_id);
            }
        }
    } else {
        let r = (x as u32, y as u32, p.id);
        assert(n.out == st.out.push(r));
        lemma_as_paint_push(st.out, r);
        let rec = (x as u32, y as u32, p.id as i32);
        assert(as_paint_records(n.out).last() == rec);
        assert(run_end(rec.0, w) == x);
        assert(pair_fits((ps.prev_x, ps.prev_y, ps.prev_id), rec, w, h));
        let col = run_color(find_province(pv, ps.prev_id as int), ctx);
        let img2 = paint_row(ps.img, y, xs, x, col);
        assert(paint_records(ctx, as_paint_records(n.out)) == Some(paint_step(ps, rec, ctx)));
        assert(paint_step(ps, rec, ctx).img == img2);
        assert forall|j: int, i: int| 0 <= j < y && 0 <= i < w - 1 implies #[trigger] img2[j][i] == target_color(
            px,
            ctx,
            j,
            i,
        ) by {
            assert(ps.img[j][i] == target_color(px, ctx, j, i));
        }
        assert forall|i: int| 0 <= i < x implies #[trigger] img2[y][i] == target_color(px, ctx, y, i) by {
            if i < xs {
                assert(ps.img[y][i] == target_color(px, ctx, y, i));
            } else {
                assert(pixel_id(px, pv, y, i) == st.prev_id);
                lemma_same_id_same_color(px, ctx, y, i, y, i);
            }
        }
        assert forall|j: int| 0 <= j < h implies #[trigger] img2[j].len() == w by {
            assert(ps.img[j].len() == w);
        }
        assert(n.out.last() == r);
    }
}

/// The first pixel of a row keeps the invariant: the scan starts a record
/// there, and the painting closes the last run of the row before.
proof fn lemma_scan_paint_row_start(px: Seq<Seq<Color>>, ctx: MapContext, st: CoordScan, y: int)
    requires
        round_trip_ready(px, ctx),
        0 <= y < px.len(),
        1 <= ctx.width,
        y == 0 ==> st.out.len() == 0 && st.prev_y != 0,
        y > 0 ==> scan_paint_inv(px, ctx, st, y - 1, ctx.width),
    ensures
        scan_paint_inv(px, ctx, pixel_step(st, 0, y as u32, px[y][0], ctx.provinces), y, 1),
{
    let pv = ctx.provinces;
    let w = ctx.width;
    let h = px.len() as int;
    let c = px[y][0];
    assert(province_of_color(pv, c) is Some);
    let p = province_of_color(pv, c)->0;
    let n = pixel_step(st, 0, y as u32, c, pv);
    let r = (0u32, y as u32, p.id);
    assert(n.out == st.out.push(r));
    lemma_as_paint_push(st.out, r);
    let rec = (0u32, y as u32, p.id as i32);
    assert(as_paint_records(n.out).last() == rec);
    assert(pixel_id(px, pv, y, 0) == p.id);
    if y == 0 {
        assert(as_paint_records(st.out) =~= Seq::<(u32, u32, i32)>::empty());
        let ps = paint_records(ctx, as_paint_records(st.out))->0;
        assert(ps.prev_id == -1);
        assert(paint_records(ctx, as_paint_records(n.out)) == Some(paint_step(ps, rec, ctx)));
        let ps2 = paint_step(ps, rec, ctx);
        assert(ps2.img == ps.img);
        assert forall|j: int| 0 <= j < h implies #[trigger] ps2.img[j].len() == w by {
        }
    } else {
        let xs = st.out.last().0 as int;
        let ps = paint_records(ctx, as_paint_records(st.out))->0;
        assert(run_end(rec.0, w) == w - 1);
        assert(pair_fits((ps.prev_x, ps.prev_y, ps.prev_id), rec, w, h));
        assert(paint_records(ctx, as_paint_records(n.out)) == Some(paint_step(ps, rec, ctx)));
        let ps2 = paint_step(ps, rec, ctx);
        let col = run_color(find_province(pv, ps.prev_id as int), ctx);
        assert forall|j: int, i: int| 0 <= j < y && 0 <= i < w - 1 implies #[trigger] ps2.img[j][i] == target_color(
            px,
            ctx,
            j,
            i,
        ) by {
            if j < y - 1 || i < xs {
                assert(ps.img[j][i] == target_color(px, ctx, j, i));
            } else {
                assert(xs < w - 1);
                assert(ps2.img == paint_row(ps.img, y - 1, xs, w - 1, col));
                assert(pixel_id(px, pv, y - 1, i) == st.prev_id);
                lemma_same_id_same_color(px, ctx, y - 1, i, y - 1, i);
            }
        }
        assert forall|j: int| 0 <= j < h implies #[trigger] ps2.img[j].len() == w by {
            assert(ps.img[j].len() == w);
        }
    }
}

/// The scan of row `y` from its first pixel keeps the invariant pixel by pixel.
proof fn lemma_scan_paint_row(px: Seq<Seq<Color>>, ctx: MapContext, st: CoordScan, y: int, x: int)
    requires
        round_trip_ready(px, ctx),
        0 <= y < px.len(),
        1 <= x <= ctx.width,
        y == 0 ==> st.out.len() == 0 && st.prev_y != 0,
        y > 0 ==> scan_paint_inv(px, ctx, st, y - 1, ctx.width),
    ensures
        scan_paint_inv(px, ctx, row_scan(st, px[y].take(x), y as u32, ctx.provinces), y, x),
    decreases x,
{
    let pv = ctx.provinces;
    if x == 1 {
        assert(px[y].take(1).drop_last() =~= Seq::<Color>::empty());
        assert(px[y].take(1).last() == px[y][0]);
        assert(px[y].len() == ctx.width);
        assert(px[y].take(1).len() == 1);
        assert(row_scan(st, px[y].take(1).drop_last(), y as u32, pv) == st);
        assert(row_scan(st, px[y].take(1), y as u32, pv) == pixel_step(st, 0, y as u32, px[y][0], pv));
        lemma_scan_paint_row_start(px, ctx, st, y);
    } else {
        lemma_scan_paint_row(px, ctx, st, y, x - 1);
        assert(px[y].take(x).drop_last() =~= px[y].take(x - 1));
        assert(px[y].take(x).last() == px[y][x - 1]);
        let before = row_scan(st, px[y].take(x - 1), y as u32, pv);
        assert(row_scan(st, px[y].take(x), y as u32, pv) == pixel_step(
            before,
            (x - 1) as u32,
            y as u32,
            px[y][x - 1],
            pv,
        ));
        lemma_scan_paint_pixel(px, ctx, before, y, x - 1);
    }
}

/// After the rows before `y`, and all of row `y - 1`, the invariant holds at
/// the end of row `y - 1`.
proof fn lemma_scan_paint_rows(px: Seq<Seq<Color>>, ctx: MapContext, st0: CoordScan, y: int)
    requires
        round_trip_ready(px, ctx),
        1 <= y <= px.len(),
        1 <= ctx.width,
        st0.out.len() == 0,
        st0.prev_y != 0,
    ensures
        scan_paint_inv(px, ctx, rows_scan(st0, px.take(y), ctx.provinces), y - 1, ctx.width),
    decreases y,
{
    let pv = ctx.provinces;
    let w = ctx.width;
    assert(px.take(y).drop_last() =~= px.take(y - 1));
    assert(px.take(y).last() == px[y - 1]);
    assert(px[y - 1].take(w) =~= px[y - 1]);
    if y == 1 {
        assert(px.take(0) =~= Seq::<Seq<Color>>::empty());
        lemma_scan_paint_row(px, ctx, st0, 0, w);
    } else {
        lemma_scan_paint_rows(px, ctx, st0, y - 1);
        lemma_scan_paint_row(px, ctx, rows_scan(st0, px.take(y - 1), pv), y - 1, w);
    }
}

/// Painting the map from the table made from a province map gives each
/// pixel the colour of its province (see `run_color`), where every pixel
/// has a province's colour and no two provinces share an id: all pixels but
/// those of the last column and those of the last run of the bottom row,
/// which the painting handles apart.
pub proof fn lemma_map_round_trip(img: RgbImage, ctx: MapContext)
    requires
        img.wf(),
        ctx.width == img.width,
        ctx.height == img.height,
        colors_known(img.pixels(), ctx.provinces),
        ids_unique(ctx.provinces),
    ensures
        match coord_records_of(img.pixels(), img.height, ctx.provinces) {
            Ok(recs) => recs.len() > 0 ==> forall|y: int, x: int|
                0 <= y < img.height && 0 <= x < img.width - 1 && !(y == img.height - 1 && x >= recs.last().0)
                    ==> #[trigger] rendered_map(ctx, as_paint_records(recs))[y][x] == target_color(
                    img.pixels(),
                    ctx,
                    y,
                    x,
                ),
            Err(_) => true,
        },
{
    let px = img.pixels();
    let pv = ctx.provinces;
    let w = ctx.width;
    let h = ctx.height;
    assert forall|j: int| 0 <= j < px.len() implies #[trigger] px[j].len() == w by {
        assert(px[j] == img.rows@[j]@);
    }
    if let Ok(recs) = coord_records_of(px, img.height, pv) {
        if recs.len() > 0 && w >= 1 && h >= 1 {
            let st0 = CoordScan { prev_id: (img.height + 2) as u16, prev_y: (pv.len() + 2) as u32, out: seq![] };
            assert(px.take(h) =~= px);
            lemma_scan_paint_rows(px, ctx, st0, h);
            let st = rows_scan(st0, px, pv);
            assert(st.out == recs);
            let ps = paint_records(ctx, as_paint_records(recs))->0;
            let xs = recs.last().0 as int;
            assert(as_paint_records(recs).len() == recs.len());
            assert forall|y: int, x: int|
                0 <= y < h && 0 <= x < w - 1 && !(y == h - 1 && x >= recs.last().0) implies #[trigger] rendered_map(
                ctx,
                as_paint_records(recs),
            )[y][x] == target_color(px, ctx, y, x) by {
                if y < h - 1 {
                    assert(ps.img[y][x] == target_color(px, ctx, y, x));
                } else {
                    assert(ps.img[y][x] == target_color(px, ctx, y, x));
                }
            }
        }
    }
}

} // verus!
