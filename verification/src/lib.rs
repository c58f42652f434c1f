//! Diagram model, grammar and discrete layout rules of a small diagram language.

pub mod cli;
pub mod codedown;
pub mod definition;
pub mod edit;
pub mod edit_wf;
pub mod files;
pub mod grammar;
pub mod groups;
pub mod layout;
pub mod levels;
pub mod model;
pub mod overrides;
pub mod parser;
pub mod paths;
pub mod roundtrip;
pub mod roundtrip_groups;
pub mod routing;
pub mod session;
pub mod source;
pub mod style;
pub mod svg;
pub mod text;
pub mod text_laws;
pub mod utils;
pub mod validity;
pub mod wellformed;

pub use definition::edge_identifier;
pub use grammar::ParseError;
pub use layout::{AutoGrid, GridSlot, LayoutError};
pub use model::{Diagram, Direction, Edge, EdgeKind, Node, NodeShape, Subgraph};
pub use overrides::{
    apply_node_overrides, EdgeArrowDirection, EdgeOverride, EdgeStyleOverride, LayoutOverrides,
    NodeStyleOverride, Table,
};
pub use parser::NodeSpec;
pub use routing::{Bundle, RouteScore};
pub use utils::escape_xml;
