//! Universe levels, their byte codec and normalization, and the framing of
//! trace corpora.
pub mod bytes;
pub mod level;
pub mod level_codec;
pub mod name_order;
pub mod level_normalize;
pub mod level_normal_form;
pub mod level_value;
pub mod level_fixed_points;
pub mod level_solve;
pub mod level_def_eq;
pub mod format;
pub mod record;
pub mod registry;
pub mod replay;
pub mod compact;
pub mod text;
pub mod args;
