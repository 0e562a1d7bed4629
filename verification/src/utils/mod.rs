pub mod comp_time_arith;
