//! Verified core of SIT, a serverless information tracker: content-addressed
//! records, their deterministic hashing and naming, the ordering of records
//! into generations, and the reducers that fold records into item state.

pub mod encoding;
pub mod text;
pub mod hash;
pub mod record;
pub mod repository;
pub mod generations;
pub mod reducers;
pub mod cfg;
pub mod id;
pub mod lock;
pub mod issue;
pub mod commands;
pub mod roots;
pub mod web;
