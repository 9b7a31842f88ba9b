pub mod partner;
pub mod toggle;
pub mod list;
pub mod families;
pub mod info;
