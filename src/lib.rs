pub mod aho_corasick;
pub mod aho_corasick_filter;
pub mod string_utils;
pub mod text;
pub mod words;
pub mod youtube;
