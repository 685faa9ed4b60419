pub mod one_pole;
pub mod svf;
