use orlice::csv_table::ReadError;
use orlice::game_types::{Color, Nation, Province};
use orlice::image_generator::{
    coords_from_rows, crop_imm, draw_map, draw_map_checked, image_bytes, last_run_fit, make_image,
    make_image_checked, paint_map, paint_map_sized, records_fit, ContinentCoord, ImageOptions,
    RgbImage,
};
use orlice::map_converter::{coord_to_id_records, read_province_map, ConvertError};

const BLACK: Color = Color { r: 0, g: 0, b: 0 };
const GRAY: Color = Color { r: 125, g: 125, b: 125 };
const SEA: Color = Color { r: 25, g: 100, b: 160 };
const BOH: Color = Color { r: 180, g: 20, b: 20 };

fn options(continent: ContinentCoord) -> ImageOptions {
    ImageOptions {
        show_subjects: false,
        blend_subjects: false,
        show_allies: false,
        blend_allies: false,
        blend_fractions: (0..256u32).map(|v| (v as f32 * 0.25) as u8).collect(),
        sub_overlord_col: false,
        show_all: false,
        continent,
    }
}

fn nation(tag: &str, c: Color, allies: &[&str]) -> Nation {
    Nation {
        id: 1,
        name: tag.to_string(),
        tag: tag.to_string(),
        color_r: c.r,
        color_g: c.g,
        color_b: c.b,
        rank: 1,
        gov_type: "Kingdom".to_string(),
        religion: "catholic".to_string(),
        allies: allies.iter().map(|s| s.to_string()).collect(),
        subjects: Vec::new(),
    }
}

fn province(id: u16, rgb: (u8, u8, u8), is_sea: bool, owner: Option<&Nation>) -> Province {
    Province {
        id,
        name: format!("P{id}"),
        color_r: rgb.0,
        color_g: rgb.1,
        color_b: rgb.2,
        dev: 12,
        is_used: true,
        is_sea,
        is_lake: false,
        col: Color { r: rgb.0, g: rgb.1, b: rgb.2 },
        owner: owner.cloned(),
    }
}

fn world() -> (Vec<Nation>, Vec<Province>) {
    let boh = nation("BOH", BOH, &["POL"]);
    let pol = nation("POL", Color { r: 200, g: 100, b: 40 }, &[]);
    let pv = vec![
        province(1, (1, 1, 1), false, Some(&boh)),
        province(2, (2, 2, 2), true, None),
        province(3, (3, 3, 3), false, Some(&pol)),
    ];
    (vec![boh, pol], pv)
}

fn tags(ts: &[&str]) -> Vec<String> {
    ts.iter().map(|s| s.to_string()).collect()
}

#[test]
fn records_close_the_runs_of_the_previous_province() {
    let (ns, pv) = world();
    let recs = vec![(0u32, 0u32, 1i32), (10, 0, 2)];
    let img = paint_map(&pv, &tags(&["BOH"]), &ns, &options(ContinentCoord::all()), &recs);
    assert_eq!((img.width, img.height), (5632, 2048));
    assert_eq!(img.rows.len(), 2048);
    assert_eq!(img.rows[0][0], BOH);
    assert_eq!(img.rows[0][9], BOH);
    assert_eq!(img.rows[0][10], BLACK);
    assert_eq!(img.rows[1][0], BLACK);
    // the last record's run goes to the right edge of the bottom row
    assert_eq!(img.rows[2047][9], BLACK);
    assert_eq!(img.rows[2047][10], SEA);
    assert_eq!(img.rows[2047][5631], SEA);
}

#[test]
fn a_record_at_x_zero_closes_the_run_before_the_last_column() {
    let (ns, pv) = world();
    let recs = vec![(5000u32, 3u32, 2i32), (0, 4, 1)];
    let img = paint_map(&pv, &tags(&["BOH"]), &ns, &options(ContinentCoord::all()), &recs);
    assert_eq!(img.rows[3][4999], BLACK);
    assert_eq!(img.rows[3][5000], SEA);
    assert_eq!(img.rows[3][5630], SEA);
    assert_eq!(img.rows[3][5631], BLACK);
    assert_eq!(img.rows[2047][0], BOH);
}

#[test]
fn allies_are_gray_because_the_tag_lists_are_handed_over_crosswise() {
    let (ns, pv) = world();
    let recs = vec![(0u32, 0u32, 3i32), (10, 0, 2)];
    let mut opt = options(ContinentCoord::all());
    opt.show_allies = true;
    let img = paint_map(&pv, &tags(&["BOH"]), &ns, &opt, &recs);
    assert_eq!(img.rows[0][0], GRAY);
    opt.show_all = true;
    let img = paint_map(&pv, &tags(&["BOH"]), &ns, &opt, &recs);
    assert_eq!(img.rows[0][0], Color { r: 200, g: 100, b: 40 });
}

#[test]
fn unknown_provinces_are_gray_and_the_last_run_of_one_is_not_painted() {
    let (ns, pv) = world();
    let recs = vec![(0u32, 0u32, 99i32), (4, 0, 99)];
    let img = paint_map(&pv, &tags(&["BOH"]), &ns, &options(ContinentCoord::all()), &recs);
    assert_eq!(img.rows[0][3], GRAY);
    assert_eq!(img.rows[2047][4], BLACK);
}

#[test]
fn the_last_run_of_an_owner_not_asked_for_is_left_black() {
    let (ns, pv) = world();
    let recs = vec![(7u32, 0u32, 3i32)];
    let img = paint_map(&pv, &tags(&["BOH"]), &ns, &options(ContinentCoord::all()), &recs);
    assert_eq!(img.rows[2047][7], BLACK);
    let img = paint_map(&pv, &tags(&["POL"]), &ns, &options(ContinentCoord::all()), &recs);
    assert_eq!(img.rows[2047][7], Color { r: 200, g: 100, b: 40 });
    assert_eq!(img.rows[2047][6], BLACK);
}

#[test]
fn records_fit_checks_every_run() {
    assert!(records_fit(&vec![], 5632, 2048));
    assert!(records_fit(&vec![(5000, 0, 1), (0, 0, 2)], 5632, 2048));
    assert!(!records_fit(&vec![(0, 2048, 1), (5, 0, 2)], 5632, 2048));
    assert!(records_fit(&vec![(0, 2048, -1), (5, 0, 2)], 5632, 2048));
    assert!(records_fit(&vec![(10, 5000, 1), (5, 0, 2)], 5632, 2048));
    assert!(!records_fit(&vec![(0, 0, 1), (6000, 0, 2)], 5632, 2048));
}

#[test]
fn coordinate_rows_read_as_numbers() {
    let row = |a: &str, b: &str, c: &str| vec![a.to_string(), b.to_string(), c.to_string()];
    assert_eq!(coords_from_rows(&vec![row("1", "2", "-3"), row("+4", "5", "6")]), Some(vec![(1, 2, -3), (4, 5, 6)]));
    assert_eq!(coords_from_rows(&vec![row("1", "2", "x")]), None);
    assert_eq!(coords_from_rows(&vec![row("-1", "2", "3")]), None);
    assert_eq!(coords_from_rows(&vec![vec!["1".to_string(), "2".to_string()]]), None);
    assert_eq!(coords_from_rows(&vec![]), Some(vec![]));
}

fn numbered(w: u32, h: u32) -> RgbImage {
    let mut img = RgbImage::new(w, h);
    for y in 0..h {
        for x in 0..w {
            img.put_pixel(x, y, Color { r: x as u8, g: y as u8, b: 7 });
        }
    }
    img
}

#[test]
fn crop_is_clamped_to_the_image() {
    let img = numbered(4, 3);
    let c = crop_imm(&img, 1, 1, 2, 5);
    assert_eq!((c.width, c.height), (2, 2));
    assert_eq!(c.rows[0][0], Color { r: 1, g: 1, b: 7 });
    assert_eq!(c.rows[1][1], Color { r: 2, g: 2, b: 7 });
    let c = crop_imm(&img, 10, 0, 3, 3);
    assert_eq!((c.width, c.height), (0, 3));
}

#[test]
fn image_bytes_are_row_after_row() {
    let img = numbered(2, 2);
    assert_eq!(image_bytes(&img), vec![0, 0, 7, 1, 0, 7, 0, 1, 7, 1, 1, 7]);
    let blank = RgbImage::new(1, 1);
    assert_eq!(image_bytes(&blank), vec![0, 0, 0]);
}

#[test]
fn make_image_draws_a_png_of_the_continent() {
    let (ns, pv) = world();
    let csv = b"X,Y,ID\n3500,800,1\n3600,800,2\n";
    let res = make_image(&pv, tags(&["BOH"]), &ns, options(ContinentCoord::india_persia()), csv);
    let png = match res {
        Ok(png) => png,
        Err(e) => panic!("{e:?}"),
    };
    assert_eq!(&png[0..8], &[0x89, b'P', b'N', b'G', 0x0d, 0x0a, 0x1a, 0x0a]);
    let decoded = image::load_from_memory(&png).unwrap().to_rgb8();
    assert_eq!(decoded.dimensions(), (930, 605));
    assert_eq!(decoded.get_pixel(60, 20).0, [180, 20, 20]);
    assert_eq!(decoded.get_pixel(159, 20).0, [180, 20, 20]);
    assert_eq!(decoded.get_pixel(160, 20).0, [0, 0, 0]);
}

#[test]
fn make_image_refuses_unreadable_records_and_runs_outside_the_map() {
    let (ns, pv) = world();
    let opt = || options(ContinentCoord::all());
    assert!(make_image_checked(&pv, tags(&["BOH"]), &ns, opt(), b"X,Y,ID\na,0,1\n").is_none());
    assert!(make_image_checked(&pv, tags(&["BOH"]), &ns, opt(), b"X,Y,ID\n0,3000,1\n10,3000,2\n").is_none());
    match make_image_checked(&pv, tags(&["BOH"]), &ns, opt(), b"X,Y,ID\n3500,800,1\n3600,800,2\n") {
        Some(Ok(png)) => assert_eq!(&png[1..4], b"PNG"),
        _ => panic!("no image"),
    }
}

#[test]
fn make_image_reports_a_broken_table() {
    let (ns, pv) = world();
    let res = make_image(&pv, tags(&["BOH"]), &ns, options(ContinentCoord::all()), b"X,Y,ID\n1,2,3\n4,5\n");
    assert!(matches!(res, Err(ReadError::Csv(_))));
    let res = make_image_checked(&pv, tags(&["BOH"]), &ns, options(ContinentCoord::all()), b"X,Y,ID\n1,2,3\n4,5\n");
    assert!(matches!(res, Some(Err(ReadError::Csv(_)))));
}

#[test]
fn coordinate_records_start_where_a_province_run_starts() {
    let c1 = Color { r: 10, g: 0, b: 0 };
    let c2 = Color { r: 20, g: 0, b: 0 };
    let c3 = Color { r: 30, g: 0, b: 0 };
    let mut img = RgbImage::new(3, 2);
    img.put_pixel(0, 0, c1);
    img.put_pixel(1, 0, c1);
    img.put_pixel(2, 0, c2);
    img.put_pixel(0, 1, c2);
    img.put_pixel(1, 1, c2);
    img.put_pixel(2, 1, c3);
    let pv = vec![province(10, (10, 0, 0), false, None), province(20, (20, 0, 0), false, None)];
    let recs = coord_to_id_records(&img, &pv).unwrap();
    assert_eq!(recs, vec![(0, 0, 10), (2, 0, 20), (0, 1, 20)]);
}

#[test]
fn coordinate_records_of_an_image_without_known_colours() {
    let img = RgbImage::new(4, 4);
    let pv = vec![province(10, (10, 0, 0), false, None)];
    assert_eq!(coord_to_id_records(&img, &pv).unwrap(), vec![]);
}

#[test]
fn records_fit_small_images() {
    assert!(records_fit(&vec![(0, 0, 1), (0, 0, 2)], 4, 2));
    assert!(!records_fit(&vec![(0, 0, 1), (0, 0, 2)], 0, 2));
    assert!(records_fit(&vec![(0, 0, 1), (5, 0, 2)], 0, 0) == false);
    assert!(records_fit(&vec![(3, 9, 1), (2, 0, 2)], 4, 2));
    assert!(!records_fit(&vec![(1, 2, 1), (3, 0, 2)], 4, 2));
}

#[test]
fn last_run_fit_needs_a_bottom_row_for_a_province() {
    let (_, pv) = world();
    assert!(last_run_fit(&pv, &vec![(0, 0, 1)], 4, 2));
    assert!(!last_run_fit(&pv, &vec![(0, 0, 1)], 4, 0));
    assert!(last_run_fit(&pv, &vec![(0, 0, 99)], 4, 0));
    assert!(last_run_fit(&pv, &vec![(4, 0, 1)], 4, 0));
    assert!(last_run_fit(&pv, &vec![], 4, 0));
}

#[test]
fn a_sized_map_paints_allies_blended() {
    let (ns, pv) = world();
    let mut opt = options(ContinentCoord::all());
    opt.show_allies = true;
    opt.blend_allies = true;
    let recs = vec![(0u32, 0u32, 3i32), (3, 0, 1), (0, 1, 2)];
    let img = paint_map_sized(&pv, &tags(&["BOH"]), &ns, &opt, &recs, 4, 2);
    assert_eq!((img.width, img.height), (4, 2));
    // POL, an ally of BOH: BOH's colour shifted by a quarter of POL's
    assert_eq!(img.rows[0][0], Color { r: 130, g: 45, b: 10 });
    assert_eq!(img.rows[0][2], Color { r: 130, g: 45, b: 10 });
    // BOH's run from x 3 is closed by a record with x 0, so it ends before
    // the last column and is empty
    assert_eq!(img.rows[0][3], BLACK);
    // the last run is the sea, on the bottom row
    assert_eq!(img.rows[1][0], SEA);
    assert_eq!(img.rows[1][3], SEA);
}

#[test]
fn draw_map_reads_the_table_and_paints() {
    let (ns, pv) = world();
    let opt = options(ContinentCoord::all());
    match draw_map(&pv, &tags(&["BOH"]), &ns, &opt, b"X,Y,ID\n0,0,1\n2,0,2\n", 3, 1) {
        Ok(img) => {
            assert_eq!(img.rows[0][0], BOH);
            assert_eq!(img.rows[0][1], BOH);
            assert_eq!(img.rows[0][2], SEA);
        }
        _ => panic!("no image"),
    }
    assert!(draw_map_checked(&pv, &tags(&["BOH"]), &ns, &opt, b"X,Y,ID\n0,0,1\n2,1,2\n", 3, 0).is_none());
    assert!(draw_map_checked(&pv, &tags(&["BOH"]), &ns, &opt, b"X,Y,ID\n0,5,1\n2,0,2\n", 3, 1).is_none());
    assert!(draw_map_checked(&pv, &tags(&["BOH"]), &ns, &opt, b"X,Y,ID\n0,0,1\n", 3, 0).is_none());
    assert!(matches!(
        draw_map_checked(&pv, &tags(&["BOH"]), &ns, &opt, b"X,Y,ID\n0,0,1\n2\n", 3, 1),
        Some(Err(ReadError::Csv(_)))
    ));
    assert!(matches!(draw_map(&pv, &tags(&["BOH"]), &ns, &opt, b"X,Y,ID\n0,0,1\n2\n", 3, 1), Err(ReadError::Csv(_))));
    match draw_map_checked(&pv, &tags(&["BOH"]), &ns, &opt, b"X,Y,ID\n0,0,1\n2,0,2\n", 3, 1) {
        Some(Ok(img)) => assert_eq!(img.rows[0][2], SEA),
        _ => panic!("no image"),
    }
}

#[test]
fn painting_the_table_of_a_province_map_gives_the_provinces_their_colours() {
    let (ns, _) = world();
    let a = Color { r: 10, g: 0, b: 0 };
    let b = Color { r: 20, g: 0, b: 0 };
    let mut img = RgbImage::new(3, 2);
    for (x, y, c) in [(0, 0, a), (1, 0, a), (2, 0, b), (0, 1, b), (1, 1, a), (2, 1, a)] {
        img.put_pixel(x, y, c);
    }
    let pv = vec![province(1, (10, 0, 0), false, Some(&ns[0])), province(2, (20, 0, 0), true, None)];
    let recs = coord_to_id_records(&img, &pv).unwrap();
    assert_eq!(recs, vec![(0, 0, 1), (2, 0, 2), (0, 1, 2), (1, 1, 1)]);
    let recs: Vec<(u32, u32, i32)> = recs.iter().map(|r| (r.0, r.1, r.2 as i32)).collect();
    let map = paint_map_sized(&pv, &tags(&["BOH"]), &ns, &options(ContinentCoord::all()), &recs, 3, 2);
    assert_eq!(map.rows[0][0], BOH);
    assert_eq!(map.rows[0][1], BOH);
    assert_eq!(map.rows[1][0], SEA);
    // the last column is left out of the runs, and the last run is painted apart
    assert_eq!(map.rows[0][2], BLACK);
    assert_eq!(map.rows[1][1], BOH);
    assert_eq!(map.rows[1][2], BOH);
}

#[test]
fn without_show_all_the_partner_options_change_nothing() {
    let (ns, pv) = world();
    let recs = vec![(0u32, 0u32, 1i32), (4, 0, 3), (8, 0, 2), (12, 0, 3)];
    let plain = paint_map(&pv, &tags(&["BOH"]), &ns, &options(ContinentCoord::all()), &recs);
    let mut opt = options(ContinentCoord::all());
    opt.show_allies = true;
    opt.blend_allies = true;
    opt.show_subjects = true;
    opt.blend_subjects = true;
    opt.sub_overlord_col = true;
    let other = paint_map(&pv, &tags(&["BOH"]), &ns, &opt, &recs);
    for x in 0..16 {
        assert_eq!(plain.rows[0][x], other.rows[0][x]);
        assert_eq!(plain.rows[2047][x], other.rows[2047][x]);
    }
    assert_eq!(plain.rows[0][0], BOH);
    assert_eq!(plain.rows[0][4], GRAY);
    assert_eq!(plain.rows[0][8], SEA);
}

#[test]
fn the_province_map_is_decoded_from_its_file_bytes() {
    let mut bmp = image::RgbImage::new(2, 1);
    bmp.put_pixel(0, 0, image::Rgb([10, 20, 30]));
    bmp.put_pixel(1, 0, image::Rgb([40, 50, 60]));
    let mut bytes = std::io::Cursor::new(Vec::new());
    image::DynamicImage::ImageRgb8(bmp).write_to(&mut bytes, image::ImageFormat::Bmp).unwrap();
    let img = read_province_map(bytes.get_ref()).unwrap();
    assert_eq!((img.width, img.height), (2, 1));
    assert_eq!(img.rows[0][0], Color { r: 10, g: 20, b: 30 });
    assert_eq!(img.rows[0][1], Color { r: 40, g: 50, b: 60 });
    assert!(matches!(read_province_map(b"not an image"), Err(ConvertError::Image(_))));
}
