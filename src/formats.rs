pub mod common;
pub mod nist_sp_1500;
pub mod params;
pub mod preflib;
pub mod us_me;
pub mod us_ny_nyc;
