//! Records of the EVE Online universe (galaxies, regions, constellations,
//! stargates and solar systems) and the name search over them.
pub mod ranking;
pub mod text;
pub mod universe;
