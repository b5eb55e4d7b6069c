//! A line-powered AC ammeter and the bench tools that calibrate it.

pub mod btcfg;
pub mod cal;
pub mod callog;
pub mod dmm;
pub mod dsp;
pub mod exchange;
pub mod link;
pub mod meter;
pub mod nvcal;
pub mod oled;
pub mod rails;
pub mod range;
pub mod real32;
pub mod sampler;
pub mod scope;
pub mod supply;
pub mod text;
pub mod ui;
pub mod usbtmc;
