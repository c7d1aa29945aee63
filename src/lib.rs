//! A correctness oracle for log-shipping pipelines: the wire codec for line
//! reports, the per-path expectation ledger, and the decisions of the file
//! churn generator.
pub mod churn;
pub mod codec;
pub mod framing;
pub mod ledger;
pub mod listener;
pub mod pool;
