//! Verified core of a fraud-scoring service: packed reference vectors,
//! a vantage-point tree searched for the nearest neighbours of a query,
//! the fixed-schema request parser and the calendar arithmetic it needs.

pub mod balancer;
pub mod calendar;
pub mod data;
pub mod heap;
pub mod http;
pub mod search;
pub mod vector;
pub mod warmup;
