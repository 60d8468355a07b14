pub mod css;
pub mod describe;
pub mod dom;
pub mod html;
pub mod layout;
pub mod order;
pub mod painting;
pub mod parser;
pub mod string_map;
pub mod style;
