use vstd::prelude::*;

pub mod ast;
pub mod captures;
pub mod chains;
pub mod checks;
pub mod children;
pub mod display;
pub mod equality;
pub mod explore;
pub mod graph;
pub mod idx;
pub mod laws;
pub mod metrics;
pub mod parser;
pub mod pool;
pub mod rules;
pub mod search;
pub mod semantics;
pub mod text;
pub mod traversal;

pub use ast::{Action, ComputeOp, ExprNode, Function, Pattern, Rule, Ruleset};
pub use display::DisplayNode;
pub use idx::{ActionId, EquivalenceGroupId, ExprId, FunctionId, NameId, PatternId, RuleId, RulesetId};
pub use parser::action_parser::ActionParser;
pub use parser::compute_parser::ComputeParser;
pub use parser::expr_parser::ExprParser;
pub use parser::pattern_parser::PatternParser;
pub use parser::ruleset_parser::RulesetParser;
pub use pool::{AncestorIterator, Coordinate, Location, Pool, Provenance, SiblingIterator};

verus! {

} // verus!
