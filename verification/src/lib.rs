pub mod chars;
pub mod digits;
pub mod hexid;
pub mod note;
pub mod codec;
pub mod store;
pub mod textfmt;
pub mod laws;
