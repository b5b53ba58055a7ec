//! A directory-tree visualizer: filtering, ordering, tree assembly and text
//! rendering of directory listings, with contracts checked by Verus.
pub mod builder;
pub mod config;
pub mod entry;
pub mod size;
pub mod text;
pub mod tree;

pub use builder::{faithful, BuildStep, SupplyLog, TreeBuilder};
pub use config::{
    create_print_options_from_args, ArgParseError, ArgParseErrorType, Args, ParseError,
    PrintOptions, SortBy, TreeParseError, TreeParseType,
};
pub use entry::{
    create_ordered_row_level_entries, entry_extension, is_visible, sort_meta_entries, EntryMeta,
    FileTime,
};
pub use size::format_size;
pub use tree::{
    build_tree_node_from_entry_meta, entry_style, format_entry_details,
    format_long_fields, metadata_error_note, render_tree, summary_line, EntryStyle, Stats,
    TreeLine, TreeNode,
};
