//! Annotation masks for images.
//!
//! A mask is a stack of layers, each a set of pixels in one color. Tools edit it through a history
//! of actions that can be undone and redone; the layers are drawn into one image that lies over the
//! annotated one, and are kept in a compact file beside it.
//!
//! Every data type has a model in terms of sets and sequences, and the contracts speak of those
//! models: a region is the set of its pixels, a stack the sequence of its layers, a history the
//! sequence of its actions.
use vstd::prelude::*;

pub mod affected_layer;
pub mod anchor;
pub mod brush;
pub mod builder;
pub mod cluster;
pub mod color;
pub mod commit;
pub mod composite;
pub mod drag;
pub mod history;
pub mod layer_stack;
pub mod mask;
pub mod mask_file;
pub mod mask_records;
pub mod ordered_spans;
pub mod pixel_area;
pub mod preview;
pub mod ranges;
pub mod rect_tool;
pub mod render;
pub mod selection;
pub mod settings;
pub mod span;
pub mod storage;
pub mod stroke;
pub mod tool;
pub mod transform;

pub use affected_layer::AffectedLayer;
pub use brush::BrushTool;
pub use builder::{AddAction, HistoryActionBuilder, MaskActionBuilder, MaskDefaultActions};
pub use color::random_color_from_seed;
pub use drag::DragTool;
pub use history::{
    History, HistoryAction, HistoryActionAdd, HistoryActionClear, HistoryActionKind,
    HistoryActionReplace,
};
pub use layer_stack::{PixelAreaStack, PixelAreaStackIter};
pub use mask::MaskImage;
pub use pixel_area::{Layer, PixelArea};
pub use ranges::{Roi, SortedRanges};
pub use rect_tool::RectTool;
pub use settings::MaskSettings;
pub use span::Span;
pub use storage::FileStorage;
pub use tool::{default_tools, DrawTool, Mode};

verus! {

} // verus!
