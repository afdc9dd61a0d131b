//! Conformance runner for Ergo nodes: reads vector entries, says what the node
//! is to work out for them, and writes the answers.

pub mod avl;
pub mod block;
pub mod chain_tier;
pub mod headers;
pub mod hexes;
pub mod interlinks;
pub mod json;
pub mod nipopow;
pub mod notes;
pub mod params;
pub mod pow;
pub mod text;
pub mod vector;
