//! Rectangle and line detection over a grayscale screenshot, for applications that expose no
//! accessibility tree. The signal is coarse on purpose: it says that something rectangular is
//! there, not what it is.

pub mod boxes;
pub mod dividers;
pub mod edges;
pub mod fullscan;
pub mod growth;
pub mod growth_bounds;
pub mod growth_laws;
pub mod line_laws;
pub mod lines;
pub mod region_laws;
pub mod regions;
pub mod scan_laws;
