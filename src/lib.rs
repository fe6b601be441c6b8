//! LL(1) analysis of grammars written in an extended BNF dialect: lowering of
//! EBNF constructs into plain BNF, FIRST / FOLLOW sets by fixed-point
//! iteration, and conflict detection in which regular-expression terminals
//! are compared by the languages they denote.

pub mod bnf;
pub mod converter;
pub mod lex;
pub mod regex_intersect;
pub mod sebnf;
pub mod sets;
