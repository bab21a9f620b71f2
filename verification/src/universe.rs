//! The objects of the universe: galaxies contain regions, regions contain
//! constellations, constellations contain solar systems, and stargates join
//! solar systems.
pub mod constellation;
pub mod galaxy;
pub mod region;
pub mod stargate;
pub mod system;
