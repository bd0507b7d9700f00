//! Game-specific compression formats that do not follow the BIOS stream
//! header convention.

pub mod wario_land_4;
