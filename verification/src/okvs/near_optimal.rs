pub mod band;
pub mod elimination;
pub mod linear;
pub mod okvs;
pub mod sorting;
pub mod value;
