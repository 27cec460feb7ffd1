//! The state of a colour picker and what each event does to it. The state
//! holds plain values; the registry is handed in with every step.

use vstd::prelude::*;
use crate::catalog::{ColorCatalog, Registry, table_of};
use crate::color_types::{ColorName, HexCode, hexes_of, names_of, rgb_triple, strip_hashes};
use crate::hex::{
    combine_hex, combined_hex, hex_byte_upper, hex_query, normalize_hex_query, option_text,
    sanitize_hex2, sanitized_hex2, upper_hex_digit, without_hash,
};
use crate::index::{all_positions, lemma_positions_where_unique, positions_upto, positions_where};
use crate::lookup::{first_position_like, hex_for_name_in_origin, text_at};
use crate::names::{sorted_names, static_texts};
use crate::origin::{Origin};
use crate::postings::{lemma_push_members, strictly_increasing};
use crate::rgb::{CopyFormat, hex_to_rgb, Rgb, rgb_of_hex};
use crate::search::{capped, result_positions, search_positions, TokenMode};
use crate::text::{
    chars_eq, chars_of, is_prefix, starts_with, string_of, trim, trimmed, unicode_uppercase,
    uppercase,
};
use crate::ui::{filtered_names, filtered_names_for_origin, mode_for, query_mode};

verus! {

/// One of the three colour channels.
#[derive(Debug, Clone, Copy, PartialEq, Eq, Structural)]
pub enum Channel {
    R,
    G,
    B,
}

/// The keys that move or activate the selection.
#[derive(Debug, Clone, Copy, PartialEq, Eq, Structural)]
pub enum Key {
    ArrowUp,
    ArrowDown,
    ArrowLeft,
    ArrowRight,
    Enter,
    /// Any other key.
    Other,
}

/// What the user did.
#[derive(Debug, Clone, PartialEq, Eq)]
pub enum Msg {
    PressedEnter,
    QueryChanged(String),
    PickChanged(String),
    CenterClicked,
    PickedName(String),
    /// A click on a row of the dropdown.
    DropdownClicked(usize),
    RChanged(String),
    GChanged(String),
    BChanged(String),
    WheelChanged(Channel, u8),
    SearchChanged(String),
    Clear,
    CopyHex(String),
    OriginPicked(Origin),
    KeyPressed(Key),
    /// Down by a positive number of rows, up by a negative one.
    MoveSelection(i32),
    ActivateSelection,
    OpenDropdown,
    CloseDropdown,
}

/// What the application has to do after a step.
#[derive(Debug, Clone, PartialEq, Eq)]
pub enum Task {
    /// Nothing.
    Nothing,
    /// Write the text to the clipboard.
    Copy(String),
    /// Scroll the dropdown so that the selected row is in view.
    ScrollToSelected,
}

/// A dropdown shows at most this many rows for a query.
pub const DROPDOWN_ROWS: usize = 200;

/// Queries in all origins together need at least this many characters
/// before the dropdown opens.
pub const DROPDOWN_MIN_QUERY: usize = 2;

/// The state of the picker.
pub struct Picker {
    /// The red, green and blue fields: up to two hex digits each.
    pub rr: String,
    pub gg: String,
    pub bb: String,
    /// The text of the name filter.
    pub search: String,
    pub selected_name: Option<String>,
    pub selected_origin: Origin,
    pub status: String,
    /// The text of the dropdown's query.
    pub query: String,
    /// The rows of the dropdown: positions in the table of the origin.
    pub results_idx: Vec<usize>,
    /// The selected row.
    pub sel_pos: Option<usize>,
    pub dropdown_open: bool,
    pub last_query: String,
    pub last_results_idx: Vec<usize>,
    pub copy_format: CopyFormat,
}

/// The state of the picker as plain values.
pub struct PickerView {
    pub rr: Seq<char>,
    pub gg: Seq<char>,
    pub bb: Seq<char>,
    pub search: Seq<char>,
    pub selected_name: Option<Seq<char>>,
    pub selected_origin: Origin,
    pub status: Seq<char>,
    pub query: Seq<char>,
    pub results_idx: Seq<usize>,
    pub sel_pos: Option<usize>,
    pub dropdown_open: bool,
    pub last_query: Seq<char>,
    pub last_results_idx: Seq<usize>,
    pub copy_format: CopyFormat,
}

impl View for Picker {
    type V = PickerView;

    open spec fn view(&self) -> PickerView {
        PickerView {
            rr: self.rr@,
            gg: self.gg@,
            bb: self.bb@,
            search: self.search@,
            selected_name: option_text(self.selected_name),
            selected_origin: self.selected_origin,
            status: self.status@,
            query: self.query@,
            results_idx: self.results_idx@,
            sel_pos: self.sel_pos,
            dropdown_open: self.dropdown_open,
            last_query: self.last_query@,
            last_results_idx: self.last_results_idx@,
            copy_format: self.copy_format,
        }
    }
}

// ---------------------------------------------------------------------------
// What the steps do, over plain values
// ---------------------------------------------------------------------------

/// The state with the three fields set to a colour.
pub open spec fn with_rgb(s: PickerView, c: Rgb) -> PickerView {
    PickerView { rr: hex_byte_upper(c.r), gg: hex_byte_upper(c.g), bb: hex_byte_upper(c.b), ..s }
}

/// The state with the three fields set from a hex code, where the code
/// spells a colour after trimming and without its leading `#`.
pub open spec fn with_hex(s: PickerView, hex: Seq<char>) -> PickerView {
    match rgb_triple(trimmed(hex)) {
        Some(t) => with_rgb(s, Rgb { r: t.0, g: t.1, b: t.2 }),
        None => s,
    }
}

/// The hex code of the first entry of the origin's table whose name is the
/// text up to the case of ASCII letters.
pub open spec fn hex_of_name(cats: Seq<ColorCatalog>, origin: Origin, name: Seq<char>) -> Option<
    Seq<char>,
> {
    text_at(
        hexes_of(table_of(cats, origin)),
        first_position_like(names_of(table_of(cats, origin)), name, 0),
    )
}

/// The state with the name selected, and with the colour of that name in
/// the fields where the origin's table has the name and its hex code
/// spells `#RRGGBB`.
pub open spec fn with_name(cats: Seq<ColorCatalog>, s: PickerView, name: Seq<char>) -> PickerView {
    let named = PickerView { selected_name: Some(name), ..s };
    match hex_of_name(cats, s.selected_origin, name) {
        Some(hex) => match rgb_of_hex(hex) {
            Some(c) => with_rgb(named, c),
            None => named,
        },
        None => named,
    }
}

/// The state with the selection moved by `delta` rows, around the ends.
pub open spec fn with_selection_moved(s: PickerView, delta: int) -> PickerView {
    if s.results_idx.len() == 0 {
        PickerView { sel_pos: None, ..s }
    } else {
        let cur: int = match s.sel_pos {
            Some(p) => p as int,
            None => 0,
        };
        PickerView { sel_pos: Some(((cur + delta) % (s.results_idx.len() as int)) as usize), ..s }
    }
}

/// The entry that a row of the dropdown shows, where the row is one.
pub open spec fn row_entry(cats: Seq<ColorCatalog>, s: PickerView, row: int) -> Option<
    (HexCode, ColorName),
> {
    let base = table_of(cats, s.selected_origin);
    if 0 <= row < s.results_idx.len() && s.results_idx[row] < base.len() {
        Some(base[s.results_idx[row] as int])
    } else {
        None
    }
}

/// The state with the selected row brought into the fields and the name.
pub open spec fn with_selection_activated(cats: Seq<ColorCatalog>, s: PickerView) -> PickerView {
    match s.sel_pos {
        Some(row) => match row_entry(cats, s, row as int) {
            Some(e) => {
                let filled = match rgb_of_hex(e.0@) {
                    Some(c) => with_rgb(s, c),
                    None => s,
                };
                PickerView { selected_name: Some(e.1@), ..filled }
            },
            None => s,
        },
        None => s,
    }
}

/// The state with a row selected and brought into the fields and the name.
pub open spec fn with_row_selected(cats: Seq<ColorCatalog>, s: PickerView, row: usize) -> PickerView {
    match row_entry(cats, s, row as int) {
        Some(e) => with_hex(PickerView { sel_pos: Some(row), selected_name: Some(e.1@), ..s }, e.0@),
        None => s,
    }
}

/// The state with the first rows of the origin's table in the dropdown, up
/// to the limit, and the first of them selected.
pub open spec fn with_all_rows(cats: Seq<ColorCatalog>, s: PickerView, limit: usize) -> PickerView {
    let base = table_of(cats, s.selected_origin);
    let n = if base.len() < limit {
        base.len()
    } else {
        limit as nat
    };
    PickerView {
        results_idx: all_positions(n),
        sel_pos: if n > 0 {
            Some(0usize)
        } else {
            None
        },
        ..s
    }
}

/// The state with every row of the origin's table in the dropdown, the
/// first of them selected, and the dropdown open.
pub open spec fn with_whole_table(cats: Seq<ColorCatalog>, s: PickerView) -> PickerView {
    let n = table_of(cats, s.selected_origin).len();
    PickerView {
        results_idx: all_positions(n),
        sel_pos: if n > 0 {
            Some(0usize)
        } else {
            None
        },
        dropdown_open: true,
        ..s
    }
}

/// The state with the rows that a search in mode `Any` finds for the
/// query, and with no row for an empty query.
pub open spec fn with_results_rebuilt(cats: Seq<ColorCatalog>, s: PickerView, limit: usize) -> PickerView {
    let q = trimmed(s.query);
    if q.len() == 0 {
        PickerView { results_idx: seq![], sel_pos: None, ..s }
    } else {
        let rows = result_positions(cats, s.selected_origin, q, TokenMode::Any, limit);
        PickerView {
            results_idx: rows,
            sel_pos: if rows.len() > 0 {
                Some(0usize)
            } else {
                None
            },
            ..s
        }
    }
}

/// The state with the first row of the dropdown, if there is one, brought
/// into the fields and the name.
pub open spec fn with_first_row_shown(cats: Seq<ColorCatalog>, s: PickerView) -> PickerView {
    match row_entry(cats, s, 0) {
        Some(e) => with_hex(PickerView { selected_name: Some(e.1@), ..s }, e.0@),
        None => s,
    }
}

/// The positions of the entries whose hex code, without its `#`, starts
/// with the digits, up to `DROPDOWN_ROWS` of them.
pub open spec fn hex_rows(cats: Seq<ColorCatalog>, origin: Origin, digits: Seq<char>) -> Seq<usize> {
    let codes = hexes_of(table_of(cats, origin));
    capped(
        positions_where(codes.len(), |i: int| is_prefix(digits, without_hash(codes[i]))),
        DROPDOWN_ROWS,
    )
}

/// The rows that the dropdown shows for a name query.
pub open spec fn name_rows(
    cats: Seq<ColorCatalog>,
    origin: Origin,
    q: Seq<char>,
    limit: usize,
    rows: usize,
) -> Seq<usize> {
    capped(result_positions(cats, origin, q, mode_for(q), limit), rows)
}

/// The state after the query of the dropdown has changed.
pub open spec fn with_query(
    cats: Seq<ColorCatalog>,
    s: PickerView,
    query: Seq<char>,
    limit: usize,
) -> PickerView {
    let s0 = PickerView { query, ..s };
    let q = trimmed(query);
    match hex_query(q) {
        Some(digits) => {
            let rows = hex_rows(cats, s.selected_origin, digits);
            with_first_row_shown(
                cats,
                PickerView {
                    results_idx: rows,
                    sel_pos: if rows.len() > 0 {
                        Some(0usize)
                    } else {
                        None
                    },
                    dropdown_open: rows.len() > 0,
                    last_query: digits,
                    last_results_idx: rows,
                    ..s0
                },
            )
        },
        None => {
            if q.len() == 0 {
                PickerView {
                    dropdown_open: true,
                    ..with_all_rows(
                        cats,
                        PickerView {
                            selected_name: None,
                            last_query: seq![],
                            last_results_idx: seq![],
                            ..s0
                        },
                        limit,
                    )
                }
            } else if s.selected_origin == Origin::All && q.len() < DROPDOWN_MIN_QUERY {
                PickerView {
                    results_idx: seq![],
                    sel_pos: None,
                    dropdown_open: false,
                    last_query: seq![],
                    last_results_idx: seq![],
                    ..s0
                }
            } else {
                let rows = name_rows(cats, s.selected_origin, q, limit, DROPDOWN_ROWS);
                with_first_row_shown(
                    cats,
                    PickerView {
                        results_idx: rows,
                        sel_pos: if rows.len() > 0 {
                            Some(0usize)
                        } else {
                            None
                        },
                        dropdown_open: rows.len() > 0,
                        last_query: q,
                        last_results_idx: rows,
                        ..s0
                    },
                )
            }
        },
    }
}

/// The state after another origin has been picked.
pub open spec fn with_origin(
    cats: Seq<ColorCatalog>,
    s: PickerView,
    origin: Origin,
    limit: usize,
) -> PickerView {
    let s0 = PickerView {
        selected_origin: origin,
        last_query: seq![],
        last_results_idx: seq![],
        ..s
    };
    let q = trimmed(s.query);
    let listed = if q.len() == 0 {
        with_all_rows(cats, s0, limit)
    } else {
        let rows = name_rows(cats, origin, q, limit, limit);
        PickerView {
            results_idx: rows,
            sel_pos: if rows.len() > 0 {
                Some(0usize)
            } else {
                None
            },
            ..s0
        }
    };
    match row_entry(cats, listed, 0) {
        Some(e) => with_first_row_shown(cats, listed),
        None => PickerView { selected_name: None, ..listed },
    }
}

/// The state with everything but the origin and the copy format cleared.
pub open spec fn cleared(s: PickerView) -> PickerView {
    PickerView {
        rr: seq![],
        gg: seq![],
        bb: seq![],
        search: s.search,
        selected_name: None,
        selected_origin: s.selected_origin,
        status: seq![],
        query: seq![],
        results_idx: seq![],
        sel_pos: None,
        dropdown_open: false,
        last_query: seq![],
        last_results_idx: seq![],
        copy_format: s.copy_format,
    }
}

/// The names that the picker lists for its query: all names of the origin
/// in alphabetical order for an empty query, else the names found, in the
/// order of their ranks.
pub open spec fn listed_names(cats: Seq<ColorCatalog>, s: PickerView, limit: usize) -> Seq<
    Seq<char>,
> {
    if trimmed(s.query).len() == 0 {
        sorted_names(cats, s.selected_origin)
    } else {
        filtered_names(cats, s.selected_origin, s.query, limit)
    }
}

/// The state after the text of the name filter has changed.
pub open spec fn with_search(
    cats: Seq<ColorCatalog>,
    s: PickerView,
    text: Seq<char>,
    limit: usize,
) -> PickerView {
    let s0 = PickerView { search: text, ..s };
    let names = listed_names(cats, s0, limit);
    if names.len() > 0 {
        with_name(cats, s0, names[0])
    } else {
        PickerView { selected_name: None, ..s0 }
    }
}

/// The colour that the wheel shows for a state.
pub open spec fn wheel_color_of(s: PickerView) -> Rgb {
    Rgb {
        r: crate::hex::hex2_value(s.rr),
        g: crate::hex::hex2_value(s.gg),
        b: crate::hex::hex2_value(s.bb),
    }
}

/// The colour that the fields of a state spell.
pub open spec fn typed_color_of(s: PickerView) -> Rgb {
    Rgb {
        r: crate::hex::hex_value(s.rr),
        g: crate::hex::hex_value(s.gg),
        b: crate::hex::hex_value(s.bb),
    }
}

/// The number of rows that a key moves the selection by.
pub open spec fn key_rows(key: Key) -> int {
    match key {
        Key::ArrowDown => 1,
        Key::ArrowUp => -1,
        Key::ArrowRight => 10,
        Key::ArrowLeft => -10,
        _ => 0,
    }
}

/// The state after a key has been pressed.
pub open spec fn with_key(cats: Seq<ColorCatalog>, s: PickerView, key: Key) -> PickerView {
    match key {
        Key::Enter => with_selection_activated(cats, s),
        Key::Other => s,
        _ => with_selection_activated(cats, with_selection_moved(s, key_rows(key))),
    }
}

/// The state after a channel has been set on the wheel.
pub open spec fn with_channel(s: PickerView, ch: Channel, v: u8) -> PickerView {
    match ch {
        Channel::R => PickerView { rr: hex_byte_upper(v), ..s },
        Channel::G => PickerView { gg: hex_byte_upper(v), ..s },
        Channel::B => PickerView { bb: hex_byte_upper(v), ..s },
    }
}

/// The state after a step.
pub open spec fn stepped(
    cats: Seq<ColorCatalog>,
    limit: usize,
    s: PickerView,
    msg: Msg,
) -> PickerView {
    match msg {
        Msg::PressedEnter => with_selection_activated(cats, s),
        Msg::QueryChanged(q) => with_query(cats, s, q@, limit),
        Msg::PickChanged(name) => with_name(cats, s, name@),
        Msg::CenterClicked => s,
        Msg::PickedName(name) => {
            let named = with_name(cats, s, name@);
            match hex_of_name(cats, s.selected_origin, name@) {
                Some(hex) => with_hex(named, hex),
                None => named,
            }
        },
        Msg::DropdownClicked(row) => with_row_selected(cats, s, row),
        Msg::RChanged(t) => PickerView { rr: sanitized_hex2(t@), ..s },
        Msg::GChanged(t) => PickerView { gg: sanitized_hex2(t@), ..s },
        Msg::BChanged(t) => PickerView { bb: sanitized_hex2(t@), ..s },
        Msg::WheelChanged(ch, v) => with_channel(s, ch, v),
        Msg::SearchChanged(t) => with_search(cats, s, t@, limit),
        Msg::Clear => cleared(s),
        Msg::CopyHex(_) => s,
        Msg::OriginPicked(o) => with_origin(cats, s, o, limit),
        Msg::KeyPressed(key) => with_key(cats, s, key),
        Msg::MoveSelection(d) => with_selection_moved(s, d as int),
        Msg::ActivateSelection => with_selection_activated(cats, s),
        Msg::OpenDropdown => PickerView { dropdown_open: true, ..s },
        Msg::CloseDropdown => PickerView { dropdown_open: false, ..s },
    }
}

/// What a task holds, as plain values.
pub enum TaskView {
    Nothing,
    Copy(Seq<char>),
    ScrollToSelected,
}

impl View for Task {
    type V = TaskView;

    open spec fn view(&self) -> TaskView {
        match self {
            Task::Nothing => TaskView::Nothing,
            Task::Copy(t) => TaskView::Copy(t@),
            Task::ScrollToSelected => TaskView::ScrollToSelected,
        }
    }
}

/// What the application has to do after a step: copy the combined fields
/// or the given text, scroll after an arrow key, and nothing else.
pub open spec fn task_of(s: PickerView, msg: Msg) -> TaskView {
    match msg {
        Msg::CenterClicked => TaskView::Copy(combined_hex(s.rr, s.gg, s.bb)),
        Msg::CopyHex(t) => TaskView::Copy(t@),
        Msg::KeyPressed(key) => match key {
            Key::Enter => TaskView::Nothing,
            Key::Other => TaskView::Nothing,
            _ => TaskView::ScrollToSelected,
        },
        _ => TaskView::Nothing,
    }
}

// ---------------------------------------------------------------------------
// The steps
// ---------------------------------------------------------------------------

/// A byte as two uppercase hex digits.
pub fn hex_byte(b: u8) -> (r: String)
    ensures
        r@ == hex_byte_upper(b),
{
    let mut out: Vec<char> = Vec::new();
    out.push(upper_hex_digit(b / 16));
    out.push(upper_hex_digit(b % 16));
    proof {
        assert(out@ =~= hex_byte_upper(b));
    }
    string_of(out.as_slice())
}

fn copy_rows(rows: &Vec<usize>) -> (r: Vec<usize>)
    ensures
        r@ == rows@,
{
    let mut out: Vec<usize> = Vec::new();
    let mut i: usize = 0;
    while i < rows.len()
        invariant
            i <= rows.len(),
            out@ == rows@.take(i as int),
        decreases rows.len() - i,
    {
        out.push(rows[i]);
        proof {
            assert(rows@.take(i + 1) =~= rows@.take(i as int).push(rows@[i as int]));
        }
        i += 1;
    }
    proof {
        assert(rows@.take(rows.len() as int) =~= rows@);
    }
    out
}

/// The rows of the entries whose hex code starts with the digits.
fn rows_by_hex(reg: &Registry, origin: Origin, digits: &[char]) -> (r: Vec<usize>)
    ensures
        r@ == hex_rows(reg@, origin, digits@),
{
    let table = reg.table(origin);
    let ghost codes = table.codes();
    let n = table.len();
    let mut out: Vec<usize> = Vec::new();
    let mut i: usize = 0;
    while i < n
        invariant
            i <= n,
            n == codes.len(),
            codes == table.codes(),
            strictly_increasing(out@),
            forall|k: int| 0 <= k < out.len() ==> #[trigger] out@[k] < i,
            forall|x: usize| #[trigger]
                out@.contains(x) <==> (x < i && is_prefix(digits@, without_hash(codes[x as int]))),
        decreases n - i,
    {
        let code = table.hex_chars(i);
        let ghost prev = out@;
        let found = if code.len() > 0 && code[0] == '#' {
            let rest = crate::text::slice_of(code.as_slice(), 1, code.len());
            proof {
                assert(rest@ =~= without_hash(code@));
            }
            starts_with(rest.as_slice(), digits)
        } else {
            proof {
                assert(code@ == without_hash(code@));
            }
            starts_with(code.as_slice(), digits)
        };
        if found {
            out.push(i);
            proof {
                lemma_push_members(prev, i);
            }
        }
        proof {
            assert forall|x: usize| #[trigger]
                out@.contains(x) <==> (x < i + 1 && is_prefix(
                    digits@,
                    without_hash(codes[x as int]),
                )) by {
                assert(prev.contains(x) <==> (x < i && is_prefix(
                    digits@,
                    without_hash(codes[x as int]),
                )));
            }
        }
        i += 1;
    }
    proof {
        assert(hexes_of(table_of(reg@, origin)).len() == codes.len());
        lemma_positions_where_unique(
            out@,
            codes.len(),
            |k: int| is_prefix(digits@, without_hash(codes[k])),
        );
    }
    crate::search::cap(&mut out, DROPDOWN_ROWS);
    out
}

impl Picker {
    /// A picker with empty fields, no query and the given origin.
    pub fn new(origin: Origin) -> (p: Picker)
        ensures
            p@ == (PickerView {
                rr: seq![],
                gg: seq![],
                bb: seq![],
                search: seq![],
                selected_name: None,
                selected_origin: origin,
                status: seq![],
                query: seq![],
                results_idx: seq![],
                sel_pos: None,
                dropdown_open: false,
                last_query: seq![],
                last_results_idx: seq![],
                copy_format: CopyFormat::Hex,
            }),
    {
        Picker {
            rr: String::new(),
            gg: String::new(),
            bb: String::new(),
            search: String::new(),
            selected_name: None,
            selected_origin: origin,
            status: String::new(),
            query: String::new(),
            results_idx: Vec::new(),
            sel_pos: None,
            dropdown_open: false,
            last_query: String::new(),
            last_results_idx: Vec::new(),
            copy_format: CopyFormat::Hex,
        }
    }

    /// Sets the three fields to a colour.
    pub fn set_rgb(&mut self, c: Rgb)
        ensures
            final(self)@ == with_rgb(old(self)@, c),
    {
        self.rr = hex_byte(c.r);
        self.gg = hex_byte(c.g);
        self.bb = hex_byte(c.b);
    }

    /// Sets the three fields from a hex code such as `#61B3E4` or `61B3E4`.
    pub fn set_from_hex(&mut self, hex: &str)
        ensures
            final(self)@ == with_hex(old(self)@, hex@),
    {
        let cs = chars_of(hex);
        let clean = trim(cs.as_slice());
        match crate::color_types::triple_from_chars(clean.as_slice()) {
            Some((r, g, b)) => self.set_rgb(Rgb { r, g, b }),
            None => {},
        }
    }

    /// Selects a name and shows its colour, where the origin has it.
    pub fn apply_selected_name(&mut self, reg: &Registry, name: &str)
        ensures
            final(self)@ == with_name(reg@, old(self)@, name@),
    {
        self.selected_name = Some(string_of(chars_of(name).as_slice()));
        match hex_for_name_in_origin(reg, self.selected_origin, name) {
            Some(hex) => match hex_to_rgb(hex) {
                Some(c) => self.set_rgb(c),
                None => {},
            },
            None => {},
        }
    }

    /// Moves the selection by `delta` rows, around the ends of the list.
    pub fn move_selection(&mut self, delta: i32)
        ensures
            final(self)@ == with_selection_moved(old(self)@, delta as int),
    {
        let len = self.results_idx.len();
        if len == 0 {
            self.sel_pos = None;
            return ;
        }
        let cur: usize = match self.sel_pos {
            Some(p) => p,
            None => 0,
        };
        let n: u128 = len as u128;
        let c: u128 = (cur as u128) % n;
        let next: u128 = if delta >= 0 {
            let d: u128 = (delta as u128) % n;
            proof {
                vstd::arithmetic::div_mod::lemma_add_mod_noop(cur as int, delta as int, n as int);
            }
            (c + d) % n
        } else {
            let back: u128 = ((0 - (delta as i64)) as u128) % n;
            proof {
                let m = 0 - (delta as int);
                vstd::arithmetic::div_mod::lemma_sub_mod_noop(cur as int, m, n as int);
                vstd::arithmetic::div_mod::lemma_mod_add_multiples_vanish(
                    (c as int) - (back as int),
                    n as int,
                );
                assert(cur as int + delta as int == cur as int - m);
            }
            (c + n - back) % n
        };
        self.sel_pos = Some(next as usize);
    }

    /// The colour that the wheel shows: a field counts where it holds two
    /// hex digits.
    pub fn wheel_color(&self) -> (c: Rgb)
        ensures
            c == wheel_color_of(self@),
    {
        Rgb {
            r: crate::hex::u8_from_hex2(self.rr.as_str()),
            g: crate::hex::u8_from_hex2(self.gg.as_str()),
            b: crate::hex::u8_from_hex2(self.bb.as_str()),
        }
    }

    /// The colour that the fields spell: a field counts with however many
    /// hex digits it holds.
    pub fn typed_color(&self) -> (c: Rgb)
        ensures
            c == typed_color_of(self@),
    {
        Rgb {
            r: crate::hex::u8_from_hex(self.rr.as_str()),
            g: crate::hex::u8_from_hex(self.gg.as_str()),
            b: crate::hex::u8_from_hex(self.bb.as_str()),
        }
    }

    /// The name of the entry of the origin that is nearest to the colour
    /// that the fields spell.
    pub fn get_closest_color_name(&self, reg: &Registry) -> (r: Option<&'static str>)
        ensures
            crate::lookup::nearest_name(
                table_of(reg@, self@.selected_origin),
                typed_color_of(self@),
                crate::lookup::static_text(r),
            ),
    {
        let color = self.typed_color();
        crate::lookup::closest_color_name_in(reg, self.selected_origin, color)
    }

    /// The entry that a row of the dropdown shows.
    pub fn entry_of_row(&self, reg: &Registry, row: usize) -> (r: Option<(HexCode, ColorName)>)
        ensures
            r == row_entry(reg@, self@, row as int),
    {
        if row >= self.results_idx.len() {
            return None;
        }
        let idx = self.results_idx[row];
        let base = reg.entries(self.selected_origin);
        if idx >= base.len() {
            return None;
        }
        Some(base[idx])
    }

    /// Brings the selected row into the fields and the name.
    pub fn activate_selected(&mut self, reg: &Registry)
        ensures
            final(self)@ == with_selection_activated(reg@, old(self)@),
    {
        let row = match self.sel_pos {
            Some(row) => row,
            None => {
                return ;
            },
        };
        match self.entry_of_row(reg, row) {
            Some((hex, name)) => {
                match hex_to_rgb(hex.as_str()) {
                    Some(c) => self.set_rgb(c),
                    None => {},
                }
                self.selected_name = Some(string_of(chars_of(name.as_str()).as_slice()));
            },
            None => {},
        }
    }

    /// Selects a row of the dropdown and shows its colour.
    pub fn select_row(&mut self, reg: &Registry, row: usize)
        ensures
            final(self)@ == with_row_selected(reg@, old(self)@, row),
    {
        match self.entry_of_row(reg, row) {
            Some((hex, name)) => {
                self.sel_pos = Some(row);
                self.selected_name = Some(string_of(chars_of(name.as_str()).as_slice()));
                self.set_from_hex(hex.as_str());
            },
            None => {},
        }
    }

    /// Fills the dropdown with the first rows of the origin's table, up to
    /// the registry's limit, and selects the first.
    pub fn repopulate_full_results_capped(&mut self, reg: &Registry)
        ensures
            final(self)@ == with_all_rows(reg@, old(self)@, reg.limit()),
    {
        let base = reg.entries(self.selected_origin);
        let n = if base.len() < reg.max_results() {
            base.len()
        } else {
            reg.max_results()
        };
        self.results_idx = positions_upto(n);
        self.sel_pos = if n > 0 {
            Some(0)
        } else {
            None
        };
    }

    /// Fills the dropdown with every row of the origin's table, selects
    /// the first and opens the dropdown.
    pub fn repopulate_full_results(&mut self, reg: &Registry)
        ensures
            final(self)@ == with_whole_table(reg@, old(self)@),
    {
        let n = reg.entries(self.selected_origin).len();
        self.results_idx = positions_upto(n);
        self.sel_pos = if n > 0 {
            Some(0)
        } else {
            None
        };
        self.dropdown_open = true;
    }

    /// Empties the dropdown after the origin has changed; the next query
    /// fills it.
    pub fn reindex_origin(&mut self)
        ensures
            final(self)@ == (PickerView { results_idx: seq![], sel_pos: None, ..old(self)@ }),
    {
        self.results_idx = Vec::new();
        self.sel_pos = None;
    }

    /// Fills the dropdown with what a search in mode `Any` finds for the
    /// query.
    pub fn rebuild_results(&mut self, reg: &Registry)
        ensures
            final(self)@ == with_results_rebuilt(reg@, old(self)@, reg.limit()),
    {
        let cs = chars_of(self.query.as_str());
        let q = trim(cs.as_slice());
        if q.len() == 0 {
            self.results_idx = Vec::new();
            self.sel_pos = None;
            return ;
        }
        let qs = string_of(q.as_slice());
        let rows = search_positions(reg, self.selected_origin, qs.as_str(), TokenMode::Any);
        self.sel_pos = if rows.len() > 0 {
            Some(0)
        } else {
            None
        };
        self.results_idx = rows;
    }

    /// Shows the first row of the dropdown, if there is one.
    fn show_first_row(&mut self, reg: &Registry)
        ensures
            final(self)@ == with_first_row_shown(reg@, old(self)@),
    {
        match self.entry_of_row(reg, 0) {
            Some((hex, name)) => {
                self.selected_name = Some(string_of(chars_of(name.as_str()).as_slice()));
                self.set_from_hex(hex.as_str());
            },
            None => {},
        }
    }

    /// Takes a changed query: lists the entries whose hex code starts with
    /// it where it reads as hex digits, else the entries found by name.
    pub fn query_changed(&mut self, reg: &Registry, query: String)
        ensures
            final(self)@ == with_query(reg@, old(self)@, query@, reg.limit()),
    {
        let cs = chars_of(query.as_str());
        let q = trim(cs.as_slice());
        let qs = string_of(q.as_slice());
        self.query = query;
        match normalize_hex_query(qs.as_str()) {
            Some(digits) => {
                let d = chars_of(digits.as_str());
                let rows = rows_by_hex(reg, self.selected_origin, d.as_slice());
                self.sel_pos = if rows.len() > 0 {
                    Some(0)
                } else {
                    None
                };
                self.dropdown_open = rows.len() > 0;
                self.last_query = digits;
                self.last_results_idx = copy_rows(&rows);
                self.results_idx = rows;
                self.show_first_row(reg);
            },
            None => {
                if q.len() == 0 {
                    self.selected_name = None;
                    self.last_query = String::new();
                    self.last_results_idx = Vec::new();
                    self.repopulate_full_results_capped(reg);
                    self.dropdown_open = true;
                } else if self.selected_origin == Origin::All && q.len() < DROPDOWN_MIN_QUERY {
                    self.results_idx = Vec::new();
                    self.sel_pos = None;
                    self.dropdown_open = false;
                    self.last_query = String::new();
                    self.last_results_idx = Vec::new();
                } else {
                    let mode = query_mode(q.as_slice());
                    let mut rows = search_positions(reg, self.selected_origin, qs.as_str(), mode);
                    crate::search::cap(&mut rows, DROPDOWN_ROWS);
                    self.sel_pos = if rows.len() > 0 {
                        Some(0)
                    } else {
                        None
                    };
                    self.dropdown_open = rows.len() > 0;
                    self.last_query = qs;
                    self.last_results_idx = copy_rows(&rows);
                    self.results_idx = rows;
                    self.show_first_row(reg);
                }
            },
        }
    }

    /// Takes another origin and lists its entries for the current query.
    pub fn origin_picked(&mut self, reg: &Registry, origin: Origin)
        ensures
            final(self)@ == with_origin(reg@, old(self)@, origin, reg.limit()),
    {
        self.selected_origin = origin;
        self.last_query = String::new();
        self.last_results_idx = Vec::new();
        let cs = chars_of(self.query.as_str());
        let q = trim(cs.as_slice());
        if q.len() == 0 {
            self.repopulate_full_results_capped(reg);
        } else {
            let qs = string_of(q.as_slice());
            let mode = query_mode(q.as_slice());
            let mut rows = search_positions(reg, origin, qs.as_str(), mode);
            crate::search::cap(&mut rows, reg.max_results());
            self.sel_pos = if rows.len() > 0 {
                Some(0)
            } else {
                None
            };
            self.results_idx = rows;
        }
        match self.entry_of_row(reg, 0) {
            Some(_) => self.show_first_row(reg),
            None => {
                self.selected_name = None;
            },
        }
    }

    /// Clears the fields, the query and the dropdown. The origin stays.
    pub fn clear(&mut self)
        ensures
            final(self)@ == cleared(old(self)@),
    {
        self.rr = String::new();
        self.gg = String::new();
        self.bb = String::new();
        self.query = String::new();
        self.results_idx = Vec::new();
        self.last_query = String::new();
        self.last_results_idx = Vec::new();
        self.sel_pos = None;
        self.dropdown_open = false;
        self.selected_name = None;
        self.status = String::new();
    }

    /// The names that the picker lists for its query.
    pub fn filtered_names(&self, reg: &Registry) -> (r: Vec<&'static str>)
        ensures
            static_texts(r@) == listed_names(reg@, self@, reg.limit()),
    {
        let cs = chars_of(self.query.as_str());
        let q = trim(cs.as_slice());
        if q.len() == 0 {
            crate::names::origin_names(reg, self.selected_origin)
        } else {
            filtered_names_for_origin(reg, self.selected_origin, self.query.as_str())
        }
    }

    /// Takes a changed name filter and selects the first listed name.
    pub fn search_changed(&mut self, reg: &Registry, text: String)
        ensures
            final(self)@ == with_search(reg@, old(self)@, text@, reg.limit()),
    {
        self.search = text;
        let names = self.filtered_names(reg);
        if names.len() > 0 {
            proof {
                assert(static_texts(names@)[0] == names@[0]@);
            }
            self.apply_selected_name(reg, names[0]);
        } else {
            self.selected_name = None;
        }
    }

    /// Whether the colour in the fields is the colour of the selected name.
    pub fn current_color_matches_selected_name(&self, reg: &Registry) -> (r: bool)
        ensures
            r == match self@.selected_name {
                Some(name) => match hex_of_name(reg@, self@.selected_origin, name) {
                    Some(hex) => unicode_uppercase(
                        strip_hashes(combined_hex(self@.rr, self@.gg, self@.bb)),
                    ) == unicode_uppercase(strip_hashes(hex)),
                    None => false,
                },
                None => false,
            },
    {
        let name = match &self.selected_name {
            Some(n) => n,
            None => {
                return false;
            },
        };
        let hex = match hex_for_name_in_origin(reg, self.selected_origin, name.as_str()) {
            Some(h) => h,
            None => {
                return false;
            },
        };
        let current = combine_hex(self.rr.as_str(), self.gg.as_str(), self.bb.as_str());
        let a = strip_leading_hashes(chars_of(current.as_str()).as_slice());
        let b = strip_leading_hashes(chars_of(hex).as_slice());
        let ua = uppercase(a.as_slice());
        let ub = uppercase(b.as_slice());
        chars_eq(ua.as_slice(), ub.as_slice())
    }

    /// Forgets the selected name where the fields hold another colour.
    pub fn clear_name_if_color_mismatch(&mut self, reg: &Registry)
        ensures
            final(self)@.selected_name == if old(self).current_matches(reg@) {
                old(self)@.selected_name
            } else {
                None
            },
            final(self)@ == (PickerView { selected_name: final(self)@.selected_name, ..old(self)@ }),
    {
        if !self.current_color_matches_selected_name(reg) {
            self.selected_name = None;
        }
    }

    /// The colour in the fields is the colour of the selected name.
    pub open spec fn current_matches(&self, cats: Seq<ColorCatalog>) -> bool {
        match self@.selected_name {
            Some(name) => match hex_of_name(cats, self@.selected_origin, name) {
                Some(hex) => unicode_uppercase(
                    strip_hashes(combined_hex(self@.rr, self@.gg, self@.bb)),
                ) == unicode_uppercase(strip_hashes(hex)),
                None => false,
            },
            None => false,
        }
    }

    /// Takes what the user did: changes the state and says what the
    /// application has to do.
    pub fn update(&mut self, reg: &Registry, msg: Msg) -> (task: Task)
        ensures
            final(self)@ == stepped(reg@, reg.limit(), old(self)@, msg),
            task@ == task_of(old(self)@, msg),
    {
        match msg {
            Msg::PressedEnter => {
                self.activate_selected(reg);
                Task::Nothing
            },
            Msg::QueryChanged(q) => {
                self.query_changed(reg, q);
                Task::Nothing
            },
            Msg::PickChanged(name) => {
                self.apply_selected_name(reg, name.as_str());
                Task::Nothing
            },
            Msg::CenterClicked => {
                Task::Copy(combine_hex(self.rr.as_str(), self.gg.as_str(), self.bb.as_str()))
            },
            Msg::PickedName(name) => {
                let origin = self.selected_origin;
                self.apply_selected_name(reg, name.as_str());
                match hex_for_name_in_origin(reg, origin, name.as_str()) {
                    Some(hex) => self.set_from_hex(hex),
                    None => {},
                }
                Task::Nothing
            },
            Msg::DropdownClicked(row) => {
                self.select_row(reg, row);
                Task::Nothing
            },
            Msg::RChanged(t) => {
                self.rr = sanitize_hex2(t.as_str());
                Task::Nothing
            },
            Msg::GChanged(t) => {
                self.gg = sanitize_hex2(t.as_str());
                Task::Nothing
            },
            Msg::BChanged(t) => {
                self.bb = sanitize_hex2(t.as_str());
                Task::Nothing
            },
            Msg::WheelChanged(ch, v) => {
                let hh = hex_byte(v);
                match ch {
                    Channel::R => {
                        self.rr = hh;
                    },
                    Channel::G => {
                        self.gg = hh;
                    },
                    Channel::B => {
                        self.bb = hh;
                    },
                }
                Task::Nothing
            },
            Msg::SearchChanged(t) => {
                self.search_changed(reg, t);
                Task::Nothing
            },
            Msg::Clear => {
                self.clear();
                Task::Nothing
            },
            Msg::CopyHex(t) => Task::Copy(t),
            Msg::OriginPicked(o) => {
                self.origin_picked(reg, o);
                Task::Nothing
            },
            Msg::KeyPressed(key) => {
                match key {
                    Key::Enter => {
                        self.activate_selected(reg);
                        Task::Nothing
                    },
                    Key::Other => Task::Nothing,
                    Key::ArrowDown => {
                        self.move_selection(1);
                        self.activate_selected(reg);
                        Task::ScrollToSelected
                    },
                    Key::ArrowUp => {
                        self.move_selection(-1);
                        self.activate_selected(reg);
                        Task::ScrollToSelected
                    },
                    Key::ArrowRight => {
                        self.move_selection(10);
                        self.activate_selected(reg);
                        Task::ScrollToSelected
                    },
                    Key::ArrowLeft => {
                        self.move_selection(-10);
                        self.activate_selected(reg);
                        Task::ScrollToSelected
                    },
                }
            },
            Msg::MoveSelection(d) => {
                self.move_selection(d);
                Task::Nothing
            },
            Msg::ActivateSelection => {
                self.activate_selected(reg);
                Task::Nothing
            },
            Msg::OpenDropdown => {
                self.dropdown_open = true;
                Task::Nothing
            },
            Msg::CloseDropdown => {
                self.dropdown_open = false;
                Task::Nothing
            },
        }
    }
}

/// The characters without any `#` that they start with.
fn strip_leading_hashes(cs: &[char]) -> (r: Vec<char>)
    ensures
        r@ == strip_hashes(cs@),
{
    let mut start: usize = 0;
    proof {
        assert(cs@.skip(0) =~= cs@);
    }
    while start < cs.len() && cs[start] == '#'
        invariant
            start <= cs.len(),
            strip_hashes(cs@) == strip_hashes(cs@.skip(start as int)),
        decreases cs.len() - start,
    {
        proof {
            assert(cs@.skip(start as int).skip(1) =~= cs@.skip(start + 1));
        }
        start += 1;
    }
    proof {
        assert(strip_hashes(cs@.skip(start as int)) == cs@.skip(start as int));
    }
    crate::text::slice_of(cs, start, cs.len())
}

} // verus!
