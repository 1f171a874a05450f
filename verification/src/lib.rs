//! A chunk-native data-flow runtime whose logic is verified with Verus.
pub mod agg;
pub mod agglaws;
pub mod binary;
pub mod cast;
pub mod chunk;
pub mod compare;
pub mod concat;
pub mod cuts;
pub mod describe;
pub mod dispatch;
pub mod division;
pub mod engine;
pub mod eval;
pub mod event;
pub mod expr;
pub mod fill;
pub mod exprlaws;
pub mod filerun;
pub mod float;
pub mod flow;
pub mod flowlaws;
pub mod flows;
pub mod func;
pub mod fused;
pub mod fusion;
pub mod fxhash;
pub mod gendata;
pub mod group;
pub mod grouplaws;
pub mod host;
pub mod infer;
pub mod jcolumn;
pub mod join;
pub mod jrange;
pub mod json;
pub mod jsonl;
pub mod jsonlaws;
pub mod kernel;
pub mod keylaws;
pub mod lanes;
pub mod nested;
pub mod net;
pub mod numlaws;
pub mod operator;
pub mod orderlaws;
pub mod outparts;
pub mod parts;
pub mod pattern;
pub mod plan;
pub mod readback;
pub mod records;
pub mod renumber;
pub mod rows;
pub mod select;
pub mod shape;
pub mod shapelaws;
pub mod sink;
pub mod sinklaws;
pub mod sort;
pub mod source;
pub mod stage;
pub mod strings;
pub mod sweep;
pub mod tail;
pub mod tally;
pub mod text;
pub mod textlaws;
pub mod validate;
pub mod value;
pub mod wholerun;
pub mod wirelaws;
pub mod workers;
