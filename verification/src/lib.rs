//! Block-acceptance pipeline core of a BlockDAG consensus node: processing
//! counters, the ordering data of a block, dependency tracking between blocks
//! and their parents, body checks, the stages in order, the virtual chain,
//! pruning-point bookkeeping and the anticone sync flow.


pub mod anticone;
pub mod body;
pub mod counters;
pub mod deps;
pub mod ghostdag;
pub mod ordering;
pub mod pipeline;
pub mod pruning;
pub mod simulation;
pub mod status;
pub mod types;
pub mod virtual_state;
