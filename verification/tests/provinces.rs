use orlice::csv_table::ReadError;
use orlice::eu4_province_reader::{
    apply_water_bodies, definitions_readable, provinces_from_records, read_definitions,
    read_definitions_windows_1252, read_water_bodies, read_water_bodies_windows_1252,
    water_bodies_readable,
};
use orlice::game_types::{Color, Province};

const DEFINITIONS: &[u8] = b"province;red;green;blue;x;x\n1;128;34;64;Stockholm;x\n2;0;36;128;\xd6stergotland;x\n3;10;20;30;Baltic Sea;\n";

fn definitions() -> Vec<Province> {
    match read_definitions(b"province;red;green;blue;x;x\n1;128;34;64;Stockholm;x\n2;0;36;128;Ostergotland;x\n3;10;20;30;Baltic Sea;\n") {
        Some(Ok(pv)) => pv,
        _ => panic!("the definitions did not read"),
    }
}

fn row(fields: &[&str]) -> Vec<String> {
    fields.iter().map(|s| s.to_string()).collect()
}

#[test]
fn definition_records_become_provinces() {
    let pv = definitions();
    assert_eq!(pv.len(), 3);
    assert_eq!(pv[0].id, 1);
    assert_eq!(pv[0].name, "Stockholm");
    assert_eq!((pv[0].color_r, pv[0].color_g, pv[0].color_b), (128, 34, 64));
    assert_eq!(pv[0].col, Color { r: 128, g: 34, b: 64 });
    assert_eq!(pv[0].dev, 12);
    assert!(pv[0].is_used);
    assert!(!pv[0].is_sea);
    assert!(!pv[0].is_lake);
    assert!(pv[0].owner.is_none());
    assert_eq!(pv[2].name, "Baltic Sea");
    assert!(!pv[2].is_used);
}

#[test]
fn definitions_that_do_not_read_give_none() {
    assert!(read_definitions(b"province;red;green;blue;x;x\n1;300;34;64;Stockholm;x\n").is_none());
    assert!(read_definitions(b"province;red;green;blue;x;x\n70000;1;34;64;Stockholm;x\n").is_none());
    assert!(read_definitions(b"a;b;c\n1;2;3\n").is_none());
}

#[test]
fn a_broken_definition_table_is_an_error() {
    let r = read_definitions(b"province;red;green;blue;x;x\n1;128;34;64;Stockholm;x\n2;3\n");
    assert!(matches!(r, Some(Err(ReadError::Csv(_)))));
}

#[test]
fn an_empty_definition_table_has_no_provinces() {
    match read_definitions(b"province;red;green;blue;x;x\n") {
        Some(Ok(pv)) => assert!(pv.is_empty()),
        _ => panic!(),
    }
    match read_definitions(b"") {
        Some(Ok(pv)) => assert!(pv.is_empty()),
        _ => panic!(),
    }
}

#[test]
fn windows_1252_names_are_decoded() {
    let pv = match read_definitions_windows_1252(DEFINITIONS) {
        Some(Ok(pv)) => pv,
        _ => panic!("the definitions did not read"),
    };
    assert_eq!(pv.len(), 3);
    assert_eq!(pv[1].name, "Östergotland");
    assert_eq!(pv[1].id, 2);
}

#[test]
fn definitions_readable_checks_each_record() {
    let good = vec![row(&["1", "2", "3", "4", "A", "x"])];
    assert!(definitions_readable(&good));
    let pv = provinces_from_records(&good);
    assert_eq!(pv[0].name, "A");
    assert_eq!(pv[0].id, 1);
    let bad = vec![row(&["1", "2", "3", "4", "A"])];
    assert!(!definitions_readable(&bad));
    let bad = vec![row(&["1", "2", "3", "-4", "A", "x"])];
    assert!(!definitions_readable(&bad));
}

#[test]
fn water_bodies_set_sea_and_lake_flags() {
    let mut pv = definitions();
    let r = read_water_bodies(&mut pv, b"id;sea;lake\n3;true;false\n2;false;true\n");
    assert!(matches!(r, Some(Ok(()))));
    assert!(pv[2].is_sea);
    assert!(!pv[2].is_lake);
    assert!(!pv[1].is_sea);
    assert!(pv[1].is_lake);
    assert!(!pv[0].is_sea && !pv[0].is_lake);
    // nothing but the flags changes
    assert_eq!(pv.len(), 3);
    assert_eq!(pv[2].name, "Baltic Sea");
    assert_eq!(pv[2].id, 3);
    assert!(!pv[2].is_used);
    assert_eq!(pv[1].col, Color { r: 0, g: 36, b: 128 });
}

#[test]
fn water_bodies_for_unknown_provinces_change_nothing() {
    let mut pv = definitions();
    let r = read_water_bodies(&mut pv, b"id;sea\n9;true\n");
    assert!(matches!(r, Some(Ok(()))));
    assert!(pv.iter().all(|p| !p.is_sea && !p.is_lake));
}

#[test]
fn water_bodies_that_do_not_read_leave_the_provinces() {
    let mut pv = definitions();
    assert!(read_water_bodies(&mut pv, b"id;sea;lake\n3;true;false\nx;true;true\n").is_none());
    assert!(!pv[2].is_sea);
    let mut pv = definitions();
    assert!(read_water_bodies(&mut pv, b"id;sea\n3;true\n").is_none());
    assert!(!pv[2].is_sea);
}

#[test]
fn a_broken_water_table_is_an_error_after_the_records_before_it() {
    let mut pv = definitions();
    let r = read_water_bodies(&mut pv, b"id;sea;lake\n3;true;false\n2;true\n");
    assert!(matches!(r, Some(Err(ReadError::Csv(_)))));
    assert!(pv[2].is_sea);
}

#[test]
fn water_bodies_readable_and_applied() {
    let mut pv = definitions();
    let rows = vec![row(&["1", "true", "true"])];
    assert!(water_bodies_readable(&pv, &rows));
    apply_water_bodies(&mut pv, &rows);
    assert!(pv[0].is_sea && pv[0].is_lake);
    assert!(!water_bodies_readable(&pv, &vec![row(&["1", "true"])]));
    assert!(water_bodies_readable(&pv, &vec![row(&["7"])]));
    assert!(!water_bodies_readable(&pv, &vec![vec![]]));
}

#[test]
fn windows_1252_water_table() {
    let mut pv = definitions();
    let r = read_water_bodies_windows_1252(&mut pv, b"id;sea;lake;n\xe4me\n1;true;false;x\n");
    assert!(matches!(r, Some(Ok(()))));
    assert!(pv[0].is_sea);
}

#[test]
fn windows_1252_bytes_of_the_upper_table_are_decoded() {
    let pv = match read_definitions_windows_1252(b"province;red;green;blue;x;x\n1;1;2;3;\x80\x81\x9f\xe9;x\n") {
        Some(Ok(pv)) => pv,
        _ => panic!("the definitions did not read"),
    };
    assert_eq!(pv[0].name, "\u{20AC}\u{0081}\u{0178}\u{00E9}");
}
