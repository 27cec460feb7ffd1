//! Typed colour names and hex codes, as the colour tables hold them.

use vstd::prelude::*;
use crate::hex::hex_pair_value;
use crate::hex::parse_hex_pair;
use crate::origin::Origin;
use crate::text::chars_of;

verus! {

/// What kind of thing a colour is named after.
#[derive(Debug, Clone, Copy, PartialEq, Eq, Structural, Hash)]
pub enum Entity {
    /// A plain colour name such as "red".
    Color,
    /// A physical object such as "tomato".
    Object,
    /// A material such as "copper".
    Material,
    /// A place.
    Place,
    /// A company or brand.
    Brand,
    /// A person.
    Person,
    /// An abstract concept.
    Abstract,
    /// A chemical compound or element.
    Chemical,
    /// A colour temperature.
    Temperature,
    /// Anything else.
    Other,
}

/// By what the names of a table are ordered.
#[derive(Debug, Clone, Copy, PartialEq, Eq, Structural, Hash)]
pub enum NameOrder {
    /// Alphabetically by name.
    Name,
    /// By the temperature in the name.
    Kelvin,
    /// By the first number in the name.
    Integer,
    /// By brightness.
    Brightness,
    /// By hue.
    Hue,
    /// By a priority that the table gives.
    Custom(u16),
}

/// A colour name with what the table says about it.
#[derive(Debug, Clone, Copy, PartialEq, Eq, Hash)]
pub struct ColorName {
    name: &'static str,
    entity: Entity,
    origin: Origin,
    ordering: NameOrder,
}

impl View for ColorName {
    type V = Seq<char>;

    /// The name as text.
    closed spec fn view(&self) -> Seq<char> {
        self.name@
    }
}

impl ColorName {
    /// What the colour is named after.
    pub closed spec fn entity_of(self) -> Entity {
        self.entity
    }

    /// The origin that the table gave the name.
    pub closed spec fn origin_of(self) -> Origin {
        self.origin
    }

    /// By what the name's table is ordered.
    pub closed spec fn ordering_of(self) -> NameOrder {
        self.ordering
    }

    /// A name with everything that a table can say about it.
    pub fn new_full(name: &'static str, entity: Entity, origin: Origin, ordering: NameOrder) -> (r:
        ColorName)
        ensures
            r@ == name@,
            r.entity_of() == entity,
            r.origin_of() == origin,
            r.ordering_of() == ordering,
    {
        ColorName { name, entity, origin, ordering }
    }

    /// A plain colour name of no particular origin, ordered by name.
    pub fn new(name: &'static str) -> (r: ColorName)
        ensures
            r@ == name@,
            r.entity_of() == Entity::Color,
            r.origin_of() == Origin::All,
            r.ordering_of() == NameOrder::Name,
    {
        ColorName { name, entity: Entity::Color, origin: Origin::All, ordering: NameOrder::Name }
    }

    /// The name.
    pub fn as_str(&self) -> (r: &'static str)
        ensures
            r@ == self@,
    {
        self.name
    }

    /// What the colour is named after.
    pub fn entity(&self) -> (r: Entity)
        ensures
            r == self.entity_of(),
    {
        self.entity
    }

    /// The origin that the table gave the name.
    pub fn origin(&self) -> (r: Origin)
        ensures
            r == self.origin_of(),
    {
        self.origin
    }

    /// By what the name's table is ordered.
    pub fn ordering(&self) -> (r: NameOrder)
        ensures
            r == self.ordering_of(),
    {
        self.ordering
    }
}

/// A hex colour code as a table holds it. The text is taken as it is.
#[derive(Debug, Clone, Copy, PartialEq, Eq, Hash)]
pub struct HexCode(&'static str);

impl View for HexCode {
    type V = Seq<char>;

    /// The code as text.
    closed spec fn view(&self) -> Seq<char> {
        self.0@
    }
}

/// `s` without any `#` that it starts with.
pub open spec fn strip_hashes(s: Seq<char>) -> Seq<char>
    decreases s.len(),
{
    if s.len() > 0 && s[0] == '#' {
        strip_hashes(s.skip(1))
    } else {
        s
    }
}

/// The three bytes that six characters spell after any leading `#`.
pub open spec fn rgb_triple(s: Seq<char>) -> Option<(u8, u8, u8)> {
    let d = strip_hashes(s);
    if d.len() != 6 {
        None
    } else {
        match (
            hex_pair_value(d[0], d[1]),
            hex_pair_value(d[2], d[3]),
            hex_pair_value(d[4], d[5]),
        ) {
            (Some(r), Some(g), Some(b)) => Some((r, g, b)),
            _ => None,
        }
    }
}

impl HexCode {
    /// Wraps a hex code. Nothing is checked.
    pub fn new(hex: &'static str) -> (r: HexCode)
        ensures
            r@ == hex@,
    {
        HexCode(hex)
    }

    /// The code.
    pub fn as_str(&self) -> (r: &'static str)
        ensures
            r@ == self@,
    {
        self.0
    }

    /// Red, green and blue, where the code spells three bytes.
    pub fn to_rgb(&self) -> (r: Option<(u8, u8, u8)>)
        ensures
            r == rgb_triple(self@),
    {
        let cs = chars_of(self.0);
        triple_from_chars(cs.as_slice())
    }
}

/// The three bytes that six characters spell after any leading `#`.
pub fn triple_from_chars(cs: &[char]) -> (r: Option<(u8, u8, u8)>)
    ensures
        r == rgb_triple(cs@),
{
    let mut start: usize = 0;
    proof {
        assert(cs@.skip(0) =~= cs@);
    }
    while start < cs.len() && cs[start] == '#'
        invariant
            start <= cs.len(),
            strip_hashes(cs@) == strip_hashes(cs@.skip(start as int)),
        decreases cs.len() - start,
    {
        proof {
            assert(cs@.skip(start as int).skip(1) =~= cs@.skip(start + 1));
        }
        start += 1;
    }
    proof {
        assert(strip_hashes(cs@.skip(start as int)) == cs@.skip(start as int));
    }
    if cs.len() - start != 6 {
        return None;
    }
    let r = match parse_hex_pair(cs[start], cs[start + 1]) {
        Some(v) => v,
        None => {
            return None;
        },
    };
    let g = match parse_hex_pair(cs[start + 2], cs[start + 3]) {
        Some(v) => v,
        None => {
            return None;
        },
    };
    let b = match parse_hex_pair(cs[start + 4], cs[start + 5]) {
        Some(v) => v,
        None => {
            return None;
        },
    };
    Some((r, g, b))
}

/// A colour table: hex codes with their names, in the table's order.
pub type ColorTable = Vec<(HexCode, ColorName)>;

/// The names of a table's entries, as texts.
pub open spec fn names_of(table: Seq<(HexCode, ColorName)>) -> Seq<Seq<char>> {
    table.map_values(|e: (HexCode, ColorName)| e.1@)
}

/// The hex codes of a table's entries, as texts.
pub open spec fn hexes_of(table: Seq<(HexCode, ColorName)>) -> Seq<Seq<char>> {
    table.map_values(|e: (HexCode, ColorName)| e.0@)
}

/// An entry as a pair of plain strings.
pub trait ToLegacyFormat {
    /// The hex code and the name.
    fn to_legacy(&self) -> (r: (&'static str, &'static str));
}

impl ToLegacyFormat for (HexCode, ColorName) {
    fn to_legacy(&self) -> (r: (&'static str, &'static str))
        ensures
            r.0@ == self.0@,
            r.1@ == self.1@,
    {
        (self.0.as_str(), self.1.as_str())
    }
}

/// What a vector of string pairs holds, as texts.
pub open spec fn pair_texts(v: Seq<(&'static str, &'static str)>) -> Seq<(Seq<char>, Seq<char>)> {
    v.map_values(|p: (&'static str, &'static str)| (p.0@, p.1@))
}

/// What a table holds, as texts.
pub open spec fn table_texts(t: Seq<(HexCode, ColorName)>) -> Seq<(Seq<char>, Seq<char>)> {
    t.map_values(|e: (HexCode, ColorName)| (e.0@, e.1@))
}

/// The entries of a table as pairs of plain strings, in the same order.
pub fn convert_to_legacy_format(colors: &[(HexCode, ColorName)]) -> (r: Vec<
    (&'static str, &'static str),
>)
    ensures
        pair_texts(r@) == table_texts(colors@),
{
    let mut out: Vec<(&'static str, &'static str)> = Vec::new();
    let mut i: usize = 0;
    while i < colors.len()
        invariant
            i <= colors.len(),
            out.len() == i,
            forall|k: int|
                0 <= k < i ==> (#[trigger] out@[k]).0@ == colors@[k].0@ && out@[k].1@
                    == colors@[k].1@,
        decreases colors.len() - i,
    {
        out.push(colors[i].to_legacy());
        i += 1;
    }
    proof {
        assert(pair_texts(out@) =~= table_texts(colors@));
    }
    out
}

} // verus!
