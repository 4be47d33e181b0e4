//! Text formats: dictionaries, corpora, TextGrids and CTM files.

pub mod assemble;
pub mod corpus;
pub mod ctm;
pub mod dict;
pub mod files;
pub mod gridlaws;
pub mod gridplain;
pub mod gridtext;
pub mod names;
pub mod numerals;
pub mod textgrid;
pub mod times;
pub mod words;
