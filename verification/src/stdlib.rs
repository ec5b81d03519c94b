pub mod any_block;
pub mod const_block;
pub mod toy;

pub use self::any_block::AnyBlock;
pub use self::const_block::ConstBlock;
pub use self::toy::ToyBlockType1;
