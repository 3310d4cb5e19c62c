//! Verified core of a map renderer for Europa Universalis IV save games:
//! a parser for the plain-text save format, the extraction of nations from
//! the parsed values, and the colouring rules of the rendered map.

pub mod text;
pub mod numbers;
pub mod eu4_save_parser;
pub mod game_types;
pub mod csv_table;
pub mod eu4_province_reader;
pub mod image_generator;
pub mod map_converter;
pub mod map_api;
pub mod savegame_reader;
