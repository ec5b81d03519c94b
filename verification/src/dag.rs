pub mod dag;
pub mod frontier;
pub mod node;
pub mod sets;
pub mod walks;

pub use self::dag::Dag;
pub use self::dag::DagError;
pub use self::dag::DagVisitationInfo;
pub use self::node::Node;
