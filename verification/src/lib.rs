//! Named-colour catalogues with a token index and ranked name search.
//!
//! A `Registry` holds the colour tables of an application, one catalogue per
//! origin. It is built once; `search_in_origin` and its companions answer
//! queries from it.

pub mod catalog;
pub mod color_types;
pub mod hex;
pub mod index;
pub mod kelvin;
pub mod laws;
pub mod lookup;
pub mod names;
pub mod origin;
pub mod picker;
pub mod postings;
pub mod ranking;
pub mod rgb;
pub mod search;
pub mod sorting;
pub mod text;
pub mod tokens;
pub mod ui;
pub mod wheel;
pub mod wrap;

pub use catalog::{
    colors_for, colors_for_origin, colors_lc, origin_slice, palette_data, ColorCatalog, ColorEntry,
    ColorsFor, Registry, Table,
};
pub use color_types::{
    convert_to_legacy_format, ColorName, Entity, HexCode, NameOrder, ToLegacyFormat,
};
pub use hex::{
    combine_hex, normalize_hex, normalize_hex_query, sanitize_hex2, split_hex, u8_from_hex,
    u8_from_hex2,
    HexError,
};
pub use index::{build_token_index_for, TokenIndex};
pub use kelvin::{
    extract_integer, extract_kelvin_temp, first_kelvin_temp, name_precedes, sort_by_temperature,
};
pub use lookup::{
    closest_color_name_in, find_closest_color_name, get_closest_color_name_from_hex, get_closest_color_name_from_rgb,
    hex_for_name, hex_for_name_in_origin, lookup_by_name, lookup_by_name_ci, name_for_hex,
    nearest_css_color, nearest_name_r_eq_00, r_eq_00_names,
};
pub use names::{build_rank_map, build_sorted_names, origin_names, origin_rank, RankTable};
pub use origin::{is_heavy_origin, origins_vec, Origin, HEAVY_MIN_QUERY, MAX_RESULTS};
pub use postings::{intersect_sorted_slices, union_sorted_slices};
pub use ranking::{
    is_exact_ci, origin_group_priority, origin_priority_of, sort_dropdown_by_origin,
    sort_results_for_all,
};
pub use rgb::{dist2, format_rgb, hex_to_rgb, rgb_to_hex, CopyFormat, HslRounded, Rgb};
pub use search::{
    search_colors, search_in_origin, search_positions, search_substring, search_tokens_all,
    search_tokens_any, TokenMode,
};
pub use tokens::{tokenize_lc, SUBSTRING_THRESHOLD};
pub use ui::{
    best_first_for_ui, css_exact_match, dropdown_results_for_ui, filtered_names_for_origin,
    retain_selection,
};
pub use picker::{Channel, Key, Msg, Picker, Task, DROPDOWN_MIN_QUERY, DROPDOWN_ROWS};
pub use wheel::{combo_event, wheel_event, ComboState, Outcome, Pointer, WheelState};
pub use wrap::greedy_wrap;
