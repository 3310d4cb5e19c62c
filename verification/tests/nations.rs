use orlice::eu4_save_parser::{parse_savegame_checked, SaveValue};
use orlice::game_types::{
    contains_tag, copy_nation, from_savevalues, get_tags_from_savevalues, Color, Nation, Province,
};

const SAVE: &str = "EU4txt
date=1444.11.11
countries={
\tBOH={
\t\tgovernment_rank=2
\t\tgovernment_name=\"Kingdom\"
\t\treligion=catholic
\t\tcolors={
\t\t\tmap_color={
\t\t\t\t180 15 15
\t\t\t}
\t\t}
\t\towned_provinces={
\t\t\t1 2
\t\t}
\t\tallies={
\t\t\t\"POL\"
\t\t}
\t\tsubjects={
\t\t\t\"SIL\"
\t\t}
\t}
\tPOL={
\t\tcolors={
\t\t\tmap_color={ 200 40 40 }
\t\t}
\t\towned_provinces={ 2 }
\t}
\tREB=5
}
";

fn values(text: &str) -> Vec<Box<SaveValue>> {
    match parse_savegame_checked(text.as_bytes()) {
        Some(Ok(v)) => v,
        other => panic!("{other:?}"),
    }
}

fn province(id: u16) -> Province {
    Province {
        id,
        name: format!("P{id}"),
        color_r: 1,
        color_g: 2,
        color_b: 3,
        dev: 12,
        is_used: true,
        is_sea: false,
        is_lake: false,
        col: Color { r: 1, g: 2, b: 3 },
        owner: None,
    }
}

fn nation(tag: &str, gov_type: &str, name: &str) -> Nation {
    Nation {
        id: 1,
        name: name.to_string(),
        tag: tag.to_string(),
        color_r: 0,
        color_g: 0,
        color_b: 0,
        rank: 1,
        gov_type: gov_type.to_string(),
        religion: "Hussite".to_string(),
        allies: Vec::new(),
        subjects: Vec::new(),
    }
}

#[test]
fn get_title_joins_government_and_name() {
    let n = nation("BOH", "Kingdom", "Bohemia");
    assert_eq!(n.get_title(), "Kingdom of Bohemia");
    let n = nation("X", "", "");
    assert_eq!(n.get_title(), " of ");
}

#[test]
fn nations_are_read_in_order_with_their_entries() {
    let sv = values(SAVE);
    let mut pv = vec![province(1), province(2), province(3)];
    let nations = from_savevalues(&sv, &mut pv);
    assert_eq!(nations.len(), 2);

    let boh = &nations[0];
    assert_eq!(boh.tag, "BOH");
    assert_eq!(boh.name, "BOH");
    assert_eq!(boh.id, 1);
    assert_eq!(boh.rank, 1);
    assert_eq!(boh.gov_type, "Kingdom");
    assert_eq!(boh.religion, "catholic");
    assert_eq!((boh.color_r, boh.color_g, boh.color_b), (180, 15, 15));
    assert_eq!(boh.allies, vec!["POL".to_string()]);
    assert_eq!(boh.subjects, vec!["SIL".to_string()]);

    let pol = &nations[1];
    assert_eq!(pol.tag, "POL");
    assert_eq!(pol.gov_type, "Království");
    assert_eq!(pol.religion, "Hussite");
    assert_eq!((pol.color_r, pol.color_g, pol.color_b), (200, 40, 40));
    assert!(pol.allies.is_empty());
}

#[test]
fn owners_are_the_nation_as_it_was_when_its_provinces_were_read() {
    let sv = values(SAVE);
    let mut pv = vec![province(1), province(2), province(3)];
    let _ = from_savevalues(&sv, &mut pv);
    let o1 = pv[0].owner.as_ref().unwrap();
    assert_eq!(o1.tag, "BOH");
    assert_eq!(o1.gov_type, "Kingdom");
    assert_eq!((o1.color_r, o1.color_g, o1.color_b), (180, 15, 15));
    // allies and subjects come after owned_provinces in the save
    assert!(o1.allies.is_empty());
    assert!(o1.subjects.is_empty());
    // a later nation takes the province over
    let o2 = pv[1].owner.as_ref().unwrap();
    assert_eq!(o2.tag, "POL");
    assert!(pv[2].owner.is_none());
    // the other fields of the provinces stay
    assert_eq!(pv[0].name, "P1");
    assert_eq!(pv[2].id, 3);
}

#[test]
fn government_rank_string_overrides_the_government_name() {
    let sv = values("EU4txt\ncountries={\n\tFRA={\n\t\tgovernment_name=\"Kingdom\"\n\t\tgovernment_rank=\"Empire\"\n\t}\n}\n");
    let mut pv: Vec<Province> = Vec::new();
    let nations = from_savevalues(&sv, &mut pv);
    assert_eq!(nations.len(), 1);
    assert_eq!(nations[0].gov_type, "Empire");
}

#[test]
fn map_color_takes_the_first_numbers_and_later_ones_overwrite_blue() {
    let sv = values("EU4txt\ncountries={\n\tA={\n\t\tcolors={\n\t\t\tmap_color={ 1 2 3 4 }\n\t\t}\n\t}\n\tB={\n\t\tcolors={\n\t\t\tmap_color={ 300 }\n\t\t}\n\t}\n}\n");
    let mut pv: Vec<Province> = Vec::new();
    let nations = from_savevalues(&sv, &mut pv);
    assert_eq!((nations[0].color_r, nations[0].color_g, nations[0].color_b), (1, 2, 4));
    // numbers are cut to their low byte
    assert_eq!(nations[1].color_r, 44);
}

#[test]
fn without_countries_there_are_no_nations() {
    let sv = values("EU4txt\ndate=1444.11.11\nplayer=\"BOH\"\n");
    let mut pv = vec![province(1)];
    let nations = from_savevalues(&sv, &mut pv);
    assert!(nations.is_empty());
    assert!(pv[0].owner.is_none());
}

#[test]
fn tags_of_the_nations() {
    let sv = values(SAVE);
    assert_eq!(get_tags_from_savevalues(&sv), vec!["BOH".to_string(), "POL".to_string()]);
    let sv = values("EU4txt\n");
    assert!(get_tags_from_savevalues(&sv).is_empty());
}

#[test]
fn contains_tag_compares_whole_strings() {
    let tags = vec!["BOH".to_string(), "POL".to_string()];
    assert!(contains_tag(&tags, &"POL".to_string()));
    assert!(!contains_tag(&tags, &"PO".to_string()));
    assert!(!contains_tag(&Vec::new(), &"BOH".to_string()));
}

#[test]
fn copy_nation_keeps_every_field() {
    let mut n = nation("BOH", "Kingdom", "Bohemia");
    n.allies.push("POL".to_string());
    n.subjects.push("SIL".to_string());
    n.color_g = 9;
    let c = copy_nation(&n);
    assert_eq!(c.tag, n.tag);
    assert_eq!(c.name, n.name);
    assert_eq!(c.gov_type, n.gov_type);
    assert_eq!(c.allies, n.allies);
    assert_eq!(c.subjects, n.subjects);
    assert_eq!(c.color_g, 9);
}

#[test]
fn the_nations_do_not_depend_on_the_provinces_given() {
    let sv = values(SAVE);
    let mut none: Vec<Province> = Vec::new();
    let mut some = vec![province(1), province(2)];
    let a = from_savevalues(&sv, &mut none);
    let b = from_savevalues(&sv, &mut some);
    let tags_a: Vec<String> = a.iter().map(|n| n.tag.clone()).collect();
    let tags_b: Vec<String> = b.iter().map(|n| n.tag.clone()).collect();
    assert_eq!(tags_a, tags_b);
    assert_eq!(tags_a, get_tags_from_savevalues(&sv));
    assert_eq!(a[0].allies, b[0].allies);
    assert_eq!((a[1].color_r, a[1].color_g), (b[1].color_r, b[1].color_g));
}
