pub mod fermat;
pub mod field;
