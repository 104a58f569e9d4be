//! A small document-rendering pipeline: markup to a document tree, style
//! sheet text to rules, the cascade to computed styles, block layout to a
//! box tree, and the box tree to paint commands. Every stage is a total,
//! pure function of its inputs.
pub mod text;
pub mod dom;
pub mod html;
pub mod css;
pub mod css_laws;
pub mod style;
pub mod layout;
pub mod paint;
pub mod title;
pub mod session;
