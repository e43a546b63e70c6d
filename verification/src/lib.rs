//! The wolf memory checker: moves, exclusivity, loans and regions over
//! checked bodies, and checked execution of programs on tagged memory.

pub mod arith;
pub mod ast;
pub mod boundary;
pub mod builtin;
pub mod byteview;
pub mod cfg;
pub mod course;
pub mod diag;
pub mod evaluate;
pub mod excl;
pub mod facts;
pub mod holding;
pub mod lending;
pub mod literal;
pub mod loans;
pub mod lowbind;
pub mod lowcheck;
pub mod lower;
pub mod lowering;
pub mod lowregion;
pub mod lowstate;
pub mod lowuse;
pub mod machine;
pub mod meaning;
pub mod measure;
pub mod methods;
pub mod moves;
pub mod order;
pub mod package;
pub mod pieces;
pub mod place;
pub mod regions;
pub mod run;
pub mod runargs;
pub mod runbase;
pub mod runcall;
pub mod runexpr;
pub mod runfile;
pub mod runflow;
pub mod runheap;
pub mod runhost;
pub mod runmethod;
pub mod runnet;
pub mod runop;
pub mod runraw;
pub mod runscope;
pub mod runstmt;
pub mod semantics;
pub mod shadow;
pub mod shape;
pub mod shared;
pub mod strs;
pub mod substance;
pub mod surface;
pub mod tenure;
pub mod text;
pub mod types;
pub mod value;
pub mod verdict;
pub mod walk;
pub mod walkcall;
pub mod walkflow;
pub mod walkregion;
pub mod walkstmt;
pub mod walkvalue;
