//! Verified core of the Lucid reference runtime: the integer tower,
//! ranges and slicing, byte sequences, dotted paths, value hashing and
//! display, lexical environments, argument binding, multiple dispatch, the
//! class hierarchy queries (ancestry, `final` and `sealed` rules, private
//! members, capabilities, class variables, instance layout), equality of
//! values, pattern matching, the decisions behind builtins such as `sorted`, `zip`,
//! `format` and `setattr`, the evaluator's core over an arena of shared
//! values, `match` patterns, and the module loader's decisions.

pub mod bigint;
pub mod error;
pub mod integer;
pub mod aggregate;
pub mod range;
pub mod slice;
pub mod bytes;
pub mod path;
pub mod hash;
pub mod repr;
pub mod literal;
pub mod env;
pub mod params;
pub mod dispatch;
pub mod classes;
pub mod class_vars;
pub mod matching;
pub mod list_ops;
pub mod compare;
pub mod sorting;
pub mod sequences;
pub mod gather;
pub mod construct;
pub mod unpack;
pub mod context;
pub mod formatting;
pub mod attrs;
pub mod equality;
pub mod truth;
pub mod eval;
pub mod modules;
pub mod patterns;
pub mod set_ops;
