//! Grid field-of-view, line-of-sight and perception bookkeeping with
//! machine-checked contracts.

pub mod algorithms;
pub mod awareness;
pub mod geometry;
pub mod grid;
pub mod index_order;
pub mod keys;
pub mod layers;
pub mod lists;
pub mod runtime;
pub mod sorting;
pub mod spatial;
pub mod state;
pub mod stealth;
pub mod stimulus;

pub use algorithms::los::{has_grid_line_of_sight, supercover_line};
pub use algorithms::shadowcasting::compute_grid_fov;
pub use awareness::{classify_awareness, AwarenessFacts, AwarenessLevel};
pub use geometry::{IVec2, UVec2};
pub use grid::{
    GridCornerPolicy, GridFovBackend, GridFovConfig, GridFovResult, GridMapSpec, GridOpacityMap,
};
pub use keys::EntityKey;
pub use layers::{VisibilityLayer, VisibilityLayerMask};
pub use runtime::{FovDebugSettings, FovRuntimeConfig, FovStats};
pub use spatial::{
    evaluate_samples, merge_spatial_visibility, SamplePlacement, SpatialFovState,
    VisibilityTestResult,
};
pub use state::{merge_grid_visibility, GridFov, GridFovState};
pub use stealth::{classify_stealth_level, stealth_notices, StealthAwarenessLevel};
