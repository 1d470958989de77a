pub mod text;
pub mod app;
pub mod card;
pub mod form;
pub mod input;
pub mod key;
pub mod order;
pub mod osc52;
pub mod query;
pub mod search;
pub mod vdir;
pub mod view;
