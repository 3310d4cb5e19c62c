//! What the web page asks of the library: the tags of the nations of a save
//! game, and the options of the map drawn from the bytes it sends.
use vstd::prelude::*;
use crate::eu4_save_parser::{
    SaveGame, SaveGameParsingError, eof_message, header_message, parse_savegame_checked,
    savegame_of_text, utf8_lossy_chars,
};
use crate::game_types::{get_tags_from_savevalues, nation_tags_of, strings_view};
use crate::image_generator::{ContinentCoord, ImageOptions};

verus! {

/// The tags of the nations of a save game given as bytes (see
/// `parse_savegame` and `get_tags_from_savevalues`), or the error of its
/// parse. `None` where the parse would run past the end of the text.
pub fn get_nation_tags(save_string: &[u8]) -> (res: Option<Result<Vec<String>, SaveGameParsingError>>)
    requires
        save_string@.len() < usize::MAX / 2,
    ensures
        match savegame_of_text(utf8_lossy_chars(save_string@)) {
            SaveGame::Values(vs) => res matches Some(Ok(t)) && strings_view(t@) == nation_tags_of(vs),
            SaveGame::BadHeader => res matches Some(Err(SaveGameParsingError::FileParsing(m))) && m@
                == header_message(),
            SaveGame::Nul(k) => res matches Some(Err(SaveGameParsingError::FileParsing(m))) && m@
                == eof_message(k),
            SaveGame::Abort => res is None,
        },
{
    let sv = match parse_savegame_checked(save_string) {
        None => return None,
        Some(Ok(r)) => r,
        Some(Err(error)) => return Some(Err(error)),
    };
    let tags = get_tags_from_savevalues(&sv);
    Some(Ok(tags))
}

/// The corners of the part of the map that the code `code` of the page asks for: 1 North
/// America, 2 South America, 3 Europe, 4 Africa, 5 Asia, 6 South-east Asia
/// and Oceania, 7 India and Persia, 8 South-east Asia; any other code the
/// whole map.
pub open spec fn continent_of_code(code: u8) -> (u32, u32, u32, u32) {
    if code == 1 {
        (0, 0, 2200, 1130)
    } else if code == 2 {
        (1170, 930, 2500, 2048)
    } else if code == 3 {
        (2330, 0, 3600, 950)
    } else if code == 4 {
        (2280, 700, 3850, 2048)
    } else if code == 5 {
        (3280, 290, 5632, 1600)
    } else if code == 6 {
        (4200, 1080, 5632, 2048)
    } else if code == 7 {
        (3440, 780, 4370, 1385)
    } else if code == 8 {
        (4100, 380, 5300, 1460)
    } else {
        (0, 0, 5632, 2048)
    }
}

/// The part of the map that the code `code` asks for (see `continent_of_code`).
pub fn continent_for_code(code: u8) -> (c: ContinentCoord)
    ensures
        (c.x0(), c.y0(), c.x1(), c.y1()) == continent_of_code(code),
{
    let c = match code {
        0 => ContinentCoord::all(),
        1 => ContinentCoord::north_america(),
        2 => ContinentCoord::south_america(),
        3 => ContinentCoord::europe(),
        4 => ContinentCoord::africa(),
        5 => ContinentCoord::asia(),
        6 => ContinentCoord::se_asia_oceania(),
        7 => ContinentCoord::india_persia(),
        8 => ContinentCoord::se_asia(),
        _ => ContinentCoord::all(),
    };
    c
}

/// The options of the map from the bytes of the page: byte 0 shows allies,
/// 1 blends them, 2 shows subjects, 3 blends them, 4 paints subjects in
/// their overlord's colour, 5 shows all nations (each when it is not 0),
/// and byte 6 is the continent's code (see `continent_for_code`). The blend
/// table is handed on.
pub fn image_options_from_bytes(image_options: &Vec<u8>, blend_fractions: Vec<u8>) -> (opt:
    ImageOptions)
    requires
        image_options@.len() >= 7,
        blend_fractions@.len() == 256,
    ensures
        opt.wf(),
        opt.show_allies == (image_options@[0] > 0),
        opt.blend_allies == (image_options@[1] > 0),
        opt.show_subjects == (image_options@[2] > 0),
        opt.blend_subjects == (image_options@[3] > 0),
        opt.sub_overlord_col == (image_options@[4] > 0),
        opt.show_all == (image_options@[5] > 0),
        opt.blend_fractions@ == blend_fractions@,
        (opt.continent.x0(), opt.continent.y0(), opt.continent.x1(), opt.continent.y1())
            == continent_of_code(image_options@[6]),
{
    let continent = continent_for_code(image_options[6]);
    ImageOptions {
        show_subjects: image_options[2] > 0,
        blend_subjects: image_options[3] > 0,
        show_allies: image_options[0] > 0,
        blend_allies: image_options[1] > 0,
        blend_fractions: blend_fractions,
        sub_overlord_col: image_options[4] > 0,
        show_all: image_options[5] > 0,
        continent: continent,
    }
}

} // verus!
