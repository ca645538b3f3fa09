//! Fortune slip generation: allocation of fortune texts to slips, template
//! key resolution, slip writing into a markup tree, and merging of page
//! object graphs into one paginated document.

pub mod assoc;
pub mod error;
pub mod fortune_data;
pub mod fortune_slip_writer;
pub mod fortune_slips;
pub mod fortune_splitter;
pub mod markup;
pub mod paths;
pub mod pdf_graph;
pub mod pipeline;
pub mod svg_keys;
pub mod text;
pub mod text_index;

