pub mod action_parser;
pub mod actions;
pub mod compute;
pub mod compute_parser;
pub mod expr;
pub mod expr_parser;
pub mod grammar;
pub mod pattern_parser;
pub mod patterns;
pub mod replay;
pub mod rules;
pub mod ruleset_parser;
pub mod syntax;
pub mod text_input;

pub use compute::parse_compute_expr;
pub use expr::parse_expression;
pub use rules::{parse_rule_pair, parse_ruleset};
