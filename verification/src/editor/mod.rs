pub mod stylization;
pub mod cursor;
pub mod editor_pipeline;
pub mod line_indicator;
pub mod overlays_location;
