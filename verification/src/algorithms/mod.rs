pub mod line;
pub mod los;
pub mod opacity;
pub mod raycast;
pub mod shadowcasting;
pub mod window;
pub mod shadow_reach;
pub mod shadow_beam;
