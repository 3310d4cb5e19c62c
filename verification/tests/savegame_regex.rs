use orlice::game_types::{Color, Province};
use orlice::savegame_reader::{read_savegame, read_savegame_checked};

const SAVE: &[u8] = b"EU4txt\ndate=1444.11.11\ncountries={\n\tREB={\n\t\tgovernment_rank=1\n\t}\n\tBOH={\n\t\tgovernment_rank=2\n\t\tcolors={\n\t\t\tmap_color={\n\t\t\t\t180 15 15\n\t\t\t}\n\t\t}\n\t\towned_provinces={\n\t\t\t1 2 3\n\t\t}\n\t}\n}\n";

fn province(id: u16, rgb: (u8, u8, u8)) -> Province {
    Province {
        id,
        name: format!("P{id}"),
        color_r: rgb.0,
        color_g: rgb.1,
        color_b: rgb.2,
        dev: 7,
        is_used: true,
        is_sea: false,
        is_lake: true,
        col: Color { r: 0, g: 0, b: 0 },
        owner: None,
    }
}

#[test]
fn reads_the_colour_and_the_owned_provinces_of_a_nation() {
    let all = vec![province(2, (1, 2, 3)), province(1, (4, 5, 6)), province(9, (7, 8, 9))];
    let (country, owned, back) = read_savegame(SAVE, "BOH".to_string(), all);
    assert_eq!(country.tag, "BOH");
    assert_eq!(country.name, "Bohemia");
    assert_eq!(country.gov_type, "Království");
    assert_eq!((country.color_r, country.color_g, country.color_b), (180, 15, 15));
    assert_eq!(owned.len(), 2);
    assert_eq!(owned[0].id, 1);
    assert_eq!(owned[0].name, "P1");
    assert_eq!(owned[0].col, Color { r: 4, g: 5, b: 6 });
    assert_eq!(owned[0].dev, 7);
    assert!(owned[0].is_lake);
    assert_eq!(owned[0].owner.as_ref().unwrap().tag, "BOH");
    assert_eq!(owned[1].id, 2);
    assert_eq!(back.len(), 3);
    assert_eq!(back[2].id, 9);
    assert!(back[0].owner.is_none());
}

#[test]
fn a_nation_that_is_not_found_is_the_default_one() {
    let all = vec![province(1, (4, 5, 6))];
    let (country, owned, back) = read_savegame(SAVE, "FRA".to_string(), all);
    assert_eq!(country.tag, "FRA");
    assert_eq!(country.name, "Bohemia");
    assert_eq!((country.color_r, country.color_g, country.color_b), (180, 15, 15));
    assert!(owned.is_empty());
    assert_eq!(back.len(), 1);
}

#[test]
fn a_colour_that_does_not_read_aborts() {
    let save = b"\ncountries={\n\tBOH={\n\t\tgovernment_rank=2\n\t\tmap_color={ 300 1 1 }\n\t\towned_provinces={ 1 }\n\t}\n}\n";
    assert!(read_savegame_checked(save, "BOH".to_string(), vec![province(1, (0, 0, 0))]).is_none());
}

#[test]
fn provinces_split_on_single_spaces() {
    let save = b"\ncountries={\n\tBOH={\n\t\tgovernment_rank=2\n\t\tmap_color={ 10 20 30 }\n\t\towned_provinces={ 1  2 }\n\t}\n}\n";
    assert!(read_savegame_checked(save, "BOH".to_string(), vec![province(1, (0, 0, 0))]).is_none());
    match read_savegame_checked(save, "BOH".to_string(), Vec::new()) {
        Some((country, owned, back)) => {
            assert_eq!((country.color_r, country.color_g, country.color_b), (10, 20, 30));
            assert!(owned.is_empty());
            assert!(back.is_empty());
        }
        None => panic!("the reading aborted"),
    }
}
