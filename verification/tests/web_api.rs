use orlice::eu4_save_parser::SaveGameParsingError;
use orlice::map_api::{continent_for_code, get_nation_tags, image_options_from_bytes};

fn corners(code: u8) -> (u32, u32, u32, u32) {
    let c = continent_for_code(code);
    (c.left(), c.top(), c.right(), c.bottom())
}

#[test]
fn nation_tags_of_a_save_game() {
    let save = b"EU4txt\ncountries={\n\tBOH={\n\t\treligion=catholic\n\t}\n\tPOL={\n\t}\n\t---={ }\n}\n";
    match get_nation_tags(save) {
        Some(Ok(tags)) => assert_eq!(tags, vec!["BOH".to_string(), "POL".to_string(), "---".to_string()]),
        other => panic!("{other:?}"),
    }
}

#[test]
fn nation_tags_of_a_file_that_is_not_a_save_game() {
    match get_nation_tags(b"PK\x03\x04") {
        Some(Err(SaveGameParsingError::FileParsing(m))) => {
            assert_eq!(m, "Invalid file format. The file must start with 'EU4txt'!")
        }
        other => panic!("{other:?}"),
    }
}

#[test]
fn nation_tags_of_a_save_game_with_a_nul() {
    match get_nation_tags(b"EU4txt\ncountries={ \0 }\n") {
        Some(Err(SaveGameParsingError::FileParsing(m))) => assert_eq!(m, "Unexpected EOF at index: 12!"),
        other => panic!("{other:?}"),
    }
}

#[test]
fn nation_tags_of_a_truncated_save_game() {
    assert!(get_nation_tags(b"EU4txt\ncountries={\n\tBOH={").is_none());
}

#[test]
fn continent_codes() {
    assert_eq!(corners(0), (0, 0, 5632, 2048));
    assert_eq!(corners(1), (0, 0, 2200, 1130));
    assert_eq!(corners(2), (1170, 930, 2500, 2048));
    assert_eq!(corners(3), (2330, 0, 3600, 950));
    assert_eq!(corners(4), (2280, 700, 3850, 2048));
    assert_eq!(corners(5), (3280, 290, 5632, 1600));
    assert_eq!(corners(6), (4200, 1080, 5632, 2048));
    assert_eq!(corners(7), (3440, 780, 4370, 1385));
    assert_eq!(corners(8), (4100, 380, 5300, 1460));
    assert_eq!(corners(9), (0, 0, 5632, 2048));
    assert_eq!(corners(255), (0, 0, 5632, 2048));
}

#[test]
fn image_options_are_read_in_the_page_order() {
    let fractions: Vec<u8> = (0..256u32).map(|v| (v as f32 * 0.25) as u8).collect();
    let opt = image_options_from_bytes(&vec![1, 0, 2, 0, 0, 1, 3], fractions.clone());
    assert!(opt.show_allies);
    assert!(!opt.blend_allies);
    assert!(opt.show_subjects);
    assert!(!opt.blend_subjects);
    assert!(!opt.sub_overlord_col);
    assert!(opt.show_all);
    assert_eq!(opt.blend_fractions, fractions);
    assert_eq!((opt.continent.left(), opt.continent.top()), (2330, 0));
    let opt = image_options_from_bytes(&vec![0, 1, 0, 1, 1, 0, 0, 9], fractions);
    assert!(!opt.show_allies && opt.blend_allies && !opt.show_subjects && opt.blend_subjects);
    assert!(opt.sub_overlord_col && !opt.show_all);
    assert_eq!(opt.continent.right(), 5632);
}
