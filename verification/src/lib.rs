//! A library for the structural core of an eight-operator, bracket-delimited
//! instruction language: an abstract syntax tree of instruction nodes whose
//! loop nodes own their nested bodies, a single-pass builder that turns a
//! filtered instruction stream into such a tree while tracking bracket
//! nesting, and two read-only analyzers over the finished tree.

pub mod parser;
