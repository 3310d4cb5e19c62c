use orlice::game_types::{Color, Nation, Province};
use orlice::image_generator::{
    blend_colors, get_province_color_for_country, shown_country_tags, ContinentCoord, ImageOptions,
};

fn table(factor: f32) -> Vec<u8> {
    (0..256u32).map(|v| (v as f32 * factor) as u8).collect()
}

fn options() -> ImageOptions {
    ImageOptions {
        show_subjects: false,
        blend_subjects: false,
        show_allies: false,
        blend_allies: false,
        blend_fractions: table(0.25),
        sub_overlord_col: false,
        show_all: false,
        continent: ContinentCoord::all(),
    }
}

fn nation(tag: &str, rgb: (u8, u8, u8), allies: &[&str], subjects: &[&str]) -> Nation {
    Nation {
        id: 1,
        name: tag.to_string(),
        tag: tag.to_string(),
        color_r: rgb.0,
        color_g: rgb.1,
        color_b: rgb.2,
        rank: 1,
        gov_type: "Kingdom".to_string(),
        religion: "catholic".to_string(),
        allies: allies.iter().map(|s| s.to_string()).collect(),
        subjects: subjects.iter().map(|s| s.to_string()).collect(),
    }
}

fn owned_by(n: &Nation) -> Province {
    Province {
        id: 7,
        name: "Praha".to_string(),
        color_r: 1,
        color_g: 2,
        color_b: 3,
        dev: 12,
        is_used: true,
        is_sea: false,
        is_lake: false,
        col: Color { r: 1, g: 2, b: 3 },
        owner: Some(n.clone()),
    }
}

fn tags(ts: &[&str]) -> Vec<String> {
    ts.iter().map(|s| s.to_string()).collect()
}

fn world() -> Vec<Nation> {
    vec![
        nation("BOH", (180, 20, 20), &["POL"], &["SIL"]),
        nation("POL", (200, 100, 40), &[], &[]),
        nation("SIL", (40, 80, 160), &[], &[]),
        nation("HUN", (10, 200, 10), &[], &[]),
    ]
}

const GRAY: Color = Color { r: 125, g: 125, b: 125 };

#[test]
fn blend_moves_the_channel_down_by_the_fraction() {
    let t = table(0.25);
    assert_eq!(blend_colors(100, 200, &t), 50);
    assert_eq!(blend_colors(50, 200, &t), 0);
}

#[test]
fn blend_moves_the_channel_up_where_it_would_go_below_zero() {
    let t = table(0.25);
    assert_eq!(blend_colors(10, 200, &t), 60);
    assert_eq!(blend_colors(0, 3, &t), 0);
}

#[test]
fn blend_saturates_at_255() {
    let mut t = table(0.25);
    t[200] = 200;
    assert_eq!(blend_colors(100, 200, &t), 255);
    assert_eq!(blend_colors(54, 200, &t), 254);
}

#[test]
fn an_owner_asked_for_has_its_own_colour() {
    let ns = world();
    let p = owned_by(&ns[0]);
    let c = get_province_color_for_country(&p, &tags(&["BOH"]), &tags(&["BOH"]), &ns, &options());
    assert_eq!(c, Color { r: 180, g: 20, b: 20 });
}

#[test]
fn an_owner_not_shown_is_gray() {
    let ns = world();
    let p = owned_by(&ns[3]);
    let c = get_province_color_for_country(&p, &tags(&["BOH"]), &tags(&["BOH"]), &ns, &options());
    assert_eq!(c, GRAY);
}

#[test]
fn show_all_paints_every_owner_in_its_colour() {
    let ns = world();
    let p = owned_by(&ns[3]);
    let mut opt = options();
    opt.show_all = true;
    let c = get_province_color_for_country(&p, &tags(&["BOH"]), &tags(&["BOH"]), &ns, &opt);
    assert_eq!(c, Color { r: 10, g: 200, b: 10 });
}

#[test]
fn an_ally_is_blended_with_the_nation_it_is_allied_to() {
    let ns = world();
    let p = owned_by(&ns[1]);
    let mut opt = options();
    opt.show_allies = true;
    opt.blend_allies = true;
    let all = tags(&["POL", "BOH"]);
    let c = get_province_color_for_country(&p, &all, &tags(&["BOH"]), &ns, &opt);
    // BOH's colour shifted by a quarter of POL's: 180-50, 20+25, 20-10
    assert_eq!(c, Color { r: 130, g: 45, b: 10 });
    opt.blend_allies = false;
    let c = get_province_color_for_country(&p, &all, &tags(&["BOH"]), &ns, &opt);
    assert_eq!(c, Color { r: 200, g: 100, b: 40 });
}

#[test]
fn a_subject_takes_its_overlords_colour_when_asked() {
    let ns = world();
    let p = owned_by(&ns[2]);
    let mut opt = options();
    opt.show_subjects = true;
    opt.sub_overlord_col = true;
    let all = tags(&["SIL", "BOH"]);
    let c = get_province_color_for_country(&p, &all, &tags(&["BOH"]), &ns, &opt);
    assert_eq!(c, Color { r: 180, g: 20, b: 20 });
    opt.sub_overlord_col = false;
    let c = get_province_color_for_country(&p, &all, &tags(&["BOH"]), &ns, &opt);
    assert_eq!(c, Color { r: 40, g: 80, b: 160 });
    opt.blend_subjects = true;
    let c = get_province_color_for_country(&p, &all, &tags(&["BOH"]), &ns, &opt);
    // 180-10, 20-20, 20+40
    assert_eq!(c, Color { r: 170, g: 0, b: 60 });
}

#[test]
fn a_shown_owner_that_is_neither_ally_nor_subject_is_gray() {
    let ns = world();
    let p = owned_by(&ns[3]);
    let c = get_province_color_for_country(&p, &tags(&["HUN", "BOH"]), &tags(&["BOH"]), &ns, &options());
    assert_eq!(c, GRAY);
}

#[test]
fn shown_tags_add_allies_and_subjects_before_the_nations_asked_for() {
    let ns = world();
    let mut opt = options();
    assert_eq!(shown_country_tags(&tags(&["BOH"]), &ns, &opt), tags(&["BOH"]));
    opt.show_allies = true;
    assert_eq!(shown_country_tags(&tags(&["BOH"]), &ns, &opt), tags(&["POL", "BOH"]));
    opt.show_subjects = true;
    assert_eq!(shown_country_tags(&tags(&["BOH"]), &ns, &opt), tags(&["POL", "SIL", "BOH"]));
    assert_eq!(shown_country_tags(&tags(&["POL", "BOH", "POL"]), &ns, &opt), tags(&["POL", "SIL", "BOH"]));
    assert_eq!(shown_country_tags(&tags(&["HUN"]), &ns, &opt), tags(&["HUN"]));
}

#[test]
fn continents_keep_their_corners() {
    let c = ContinentCoord::europe();
    assert_eq!((c.left(), c.top(), c.right(), c.bottom()), (2330, 0, 3600, 950));
    let c = ContinentCoord::all();
    assert_eq!((c.left(), c.top(), c.right(), c.bottom()), (0, 0, 5632, 2048));
    let c = ContinentCoord::new(1, 2, 3, 4);
    assert_eq!(c.0, ([1, 2], [3, 4]));
    assert!(ContinentCoord::se_asia() == ContinentCoord::new(4100, 380, 5300, 1460));
    assert!(ContinentCoord::asia() != ContinentCoord::all());
}
