//! Building blocks of a structure-aware private set intersection protocol:
//! arithmetic in GF(2^128), an oblivious key-value store, oblivious-transfer
//! message handling, incremental distributed comparison functions and the
//! VOLE sub-protocols that feed them.
pub mod aes_prf;
pub mod bytes;
pub mod gf128;
pub mod idcf_model;
pub mod idcf_sender;
pub mod idcf_receiver;
pub mod pre_ot;
pub mod okvs_utils;
pub mod hashing;
pub mod band_system;
pub mod okvs_f2k;
pub mod lpn_f2k;
pub mod two_key_prp;
pub mod spfss_model;
pub mod spfss_receiver_f2k;
pub mod spfss_sender_f2k;
pub mod psi_config;
pub mod psi_sender;
pub mod psi_receiver;
pub mod data_generator;
pub mod psi;
pub mod params;
pub mod cope_f2k;
pub mod mpfss_reg_f2k;
pub mod idcf;
pub mod base_svole_f2k;
pub mod wire;
pub mod points;
pub mod ec_point;
