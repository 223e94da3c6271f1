pub mod bounds;
pub mod controls;
pub mod mesh;
pub mod ring;
pub mod stats;
pub mod topology;
pub mod wire;
