//! Two-party generation of authenticated edaBits.

pub mod benchmark_tools;
pub mod bit_adder;
pub mod bits;
pub mod bucket_laws;
pub mod combination_laws;
pub mod copee;
pub mod cut_and_choose;
pub mod errors;
pub mod f40b;
pub mod field;
pub mod flow;
pub mod hd_quicksilver;
pub mod homcom;
pub mod mpc_chedda_edabits;
pub mod mpc_conv;
pub mod mpc_edabits;
pub mod mpc_edabits_common;
pub mod mpc_homcom;
pub mod mpc_original_edabits;
pub mod mpc_original_edabits_spdz;
pub mod mpc_spdz_common;
pub mod mpc_spdz_conv;
pub mod multiplication;
pub mod prime_fields;
pub mod protocol_laws;
pub mod ring;
pub mod serialization;
pub mod share;
pub mod sharing_laws;
pub mod spdz_combination;
pub mod spdz_laws;
pub mod spdz_multiplication;
pub mod spdz_products;
pub mod spdz_protocol_laws;
