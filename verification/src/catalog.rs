//! The registry of colour tables: one catalogue per origin, their
//! concatenation for `Origin::All`, and the search tables built from them.

use vstd::prelude::*;
use crate::color_types::{ColorName, HexCode, hexes_of, names_of};
use crate::index::{build_token_index_for, TokenIndex};
use crate::origin::{MAX_RESULTS, Origin};
use crate::text::{chars_eq, chars_of, lowercase, string_of, unicode_lowercase};
use crate::tokens::texts;

verus! {

/// One colour table with the origin that it belongs to.
pub struct ColorCatalog {
    /// The name under which the table is shown.
    pub name: &'static str,
    /// The origin whose table this is.
    pub origin: Origin,
    /// The entries, in the table's order.
    pub data: Vec<(HexCode, ColorName)>,
}

/// A table that is either borrowed from the registry or owned by the caller.
pub enum ColorsFor<'a> {
    Slice(&'a [(HexCode, ColorName)]),
    Owned(Vec<(HexCode, ColorName)>),
}

impl<'a> View for ColorsFor<'a> {
    type V = Seq<(HexCode, ColorName)>;

    open spec fn view(&self) -> Seq<(HexCode, ColorName)> {
        match self {
            ColorsFor::Slice(s) => s@,
            ColorsFor::Owned(v) => v@,
        }
    }
}

/// A copy of a table.
pub fn copy_table(entries: &[(HexCode, ColorName)]) -> (r: Vec<(HexCode, ColorName)>)
    ensures
        r@ == entries@,
{
    let mut out: Vec<(HexCode, ColorName)> = Vec::new();
    let mut i: usize = 0;
    while i < entries.len()
        invariant
            i <= entries.len(),
            out@ == entries@.take(i as int),
        decreases entries.len() - i,
    {
        out.push(entries[i]);
        proof {
            assert(entries@.take(i + 1) =~= entries@.take(i as int).push(entries@[i as int]));
        }
        i += 1;
    }
    proof {
        assert(entries@.take(entries.len() as int) =~= entries@);
    }
    out
}

impl<'a> ColorsFor<'a> {
    /// The entries, borrowed.
    pub fn as_slice(&self) -> (r: &[(HexCode, ColorName)])
        ensures
            r@ == self@,
    {
        match self {
            ColorsFor::Slice(s) => s,
            ColorsFor::Owned(v) => v.as_slice(),
        }
    }

    /// A copy of the entries.
    pub fn to_vec(&self) -> (r: Vec<(HexCode, ColorName)>)
        ensures
            r@ == self@,
    {
        copy_table(self.as_slice())
    }

    /// The number of entries.
    pub fn len(&self) -> (n: usize)
        ensures
            n == self@.len(),
    {
        self.as_slice().len()
    }

    /// An iterator over the entries, in the table's order.
    pub fn iter(&self) -> (r: std::slice::Iter<'_, (HexCode, ColorName)>)
        ensures
            vstd::std_specs::slice::into_iter_elts(r) == self@,
    {
        let entries = self.as_slice();
        let r = entries.iter();
        proof {
            vstd::std_specs::slice::axiom_spec_slice_iter(entries);
            assert(vstd::std_specs::slice::into_iter_elts(r) =~= entries@);
        }
        r
    }

    /// Whether there is no entry.
    pub fn is_empty(&self) -> (b: bool)
        ensures
            b == (self@.len() == 0),
    {
        self.len() == 0
    }
}

/// All entries of the catalogues, one catalogue after the other.
pub open spec fn combined_of(cats: Seq<ColorCatalog>) -> Seq<(HexCode, ColorName)>
    decreases cats.len(),
{
    if cats.len() == 0 {
        seq![]
    } else {
        combined_of(cats.drop_last()) + cats.last().data@
    }
}

/// The position of the first catalogue at or after `from` that has the
/// origin, or the number of catalogues.
pub open spec fn find_origin(cats: Seq<ColorCatalog>, origin: Origin, from: int) -> int
    decreases cats.len() - from,
{
    if from < 0 || from >= cats.len() {
        cats.len() as int
    } else if cats[from].origin == origin {
        from
    } else {
        find_origin(cats, origin, from + 1)
    }
}

/// The table of an origin: all entries for `All`, else the entries of the
/// first catalogue of that origin, and no entry where there is none.
pub open spec fn table_of(cats: Seq<ColorCatalog>, origin: Origin) -> Seq<(HexCode, ColorName)> {
    if origin == Origin::All {
        combined_of(cats)
    } else {
        let k = find_origin(cats, origin, 0);
        if k < cats.len() {
            cats[k].data@
        } else {
            seq![]
        }
    }
}

/// The position found lies within the catalogues, and what is found has
/// the origin.
pub proof fn lemma_find_origin_bounds(cats: Seq<ColorCatalog>, origin: Origin, from: int)
    requires
        0 <= from <= cats.len(),
    ensures
        from <= find_origin(cats, origin, from) <= cats.len(),
        find_origin(cats, origin, from) < cats.len() ==> cats[find_origin(
            cats,
            origin,
            from,
        )].origin == origin,
    decreases cats.len() - from,
{
    if from < cats.len() && cats[from].origin != origin {
        lemma_find_origin_bounds(cats, origin, from + 1);
    }
}

/// The lowercase names of a table, as texts.
pub open spec fn lowercase_names(names: Seq<Seq<char>>) -> Seq<Seq<char>> {
    names.map_values(|n: Seq<char>| unicode_lowercase(n))
}

/// What a search needs of one table: each hex code and each name as
/// characters, each name in lowercase, and the token index of the names.
pub struct Table {
    hexes: Vec<Vec<char>>,
    plain: Vec<Vec<char>>,
    lower: Vec<Vec<char>>,
    index: TokenIndex,
    names: Ghost<Seq<Seq<char>>>,
    codes: Ghost<Seq<Seq<char>>>,
}

impl Table {
    #[verifier::type_invariant]
    spec fn well_formed(self) -> bool {
        &&& self.index.names() == self.names@
        &&& texts(self.lower@) == lowercase_names(self.names@)
        &&& texts(self.plain@) == self.names@
        &&& texts(self.hexes@) == self.codes@
        &&& self.codes@.len() == self.names@.len()
    }

    /// The names that the table was built from.
    pub closed spec fn names(self) -> Seq<Seq<char>> {
        self.names@
    }

    /// The hex codes that the table was built from.
    pub closed spec fn codes(self) -> Seq<Seq<char>> {
        self.codes@
    }

    /// Builds the search table of a colour table.
    pub fn build(entries: &[(HexCode, ColorName)]) -> (t: Table)
        ensures
            t.names() == names_of(entries@),
            t.codes() == hexes_of(entries@),
    {
        let ghost names = names_of(entries@);
        let ghost codes = hexes_of(entries@);
        let index = build_token_index_for(entries);
        let mut hexes: Vec<Vec<char>> = Vec::new();
        let mut plain: Vec<Vec<char>> = Vec::new();
        let mut lower: Vec<Vec<char>> = Vec::new();
        let mut i: usize = 0;
        while i < entries.len()
            invariant
                i <= entries.len(),
                names == names_of(entries@),
                codes == hexes_of(entries@),
                lower.len() == i,
                plain.len() == i,
                hexes.len() == i,
                forall|k: int| 0 <= k < i ==> (#[trigger] lower@[k])@ == unicode_lowercase(names[k]),
                forall|k: int| 0 <= k < i ==> (#[trigger] plain@[k])@ == names[k],
                forall|k: int| 0 <= k < i ==> (#[trigger] hexes@[k])@ == codes[k],
            decreases entries.len() - i,
        {
            let name = chars_of(entries[i].1.as_str());
            lower.push(lowercase(name.as_slice()));
            plain.push(name);
            hexes.push(chars_of(entries[i].0.as_str()));
            i += 1;
        }
        proof {
            assert(texts(lower@) =~= lowercase_names(names));
            assert(texts(plain@) =~= names);
            assert(texts(hexes@) =~= codes);
        }
        Table { hexes, plain, lower, index, names: Ghost(names), codes: Ghost(codes) }
    }

    /// The number of entries.
    pub fn len(&self) -> (n: usize)
        ensures
            n == self.names().len(),
            n == self.codes().len(),
    {
        proof {
            use_type_invariant(self);
            assert(texts(self.lower@).len() == self.lower@.len());
        }
        self.lower.len()
    }

    /// The lowercase form of the name at a position.
    pub fn lower_name(&self, i: usize) -> (r: &Vec<char>)
        requires
            i < self.names().len(),
        ensures
            r@ == unicode_lowercase(self.names()[i as int]),
    {
        proof {
            use_type_invariant(self);
            assert(texts(self.lower@).len() == self.lower@.len());
            assert(texts(self.lower@)[i as int] == self.lower@[i as int]@);
        }
        &self.lower[i]
    }

    /// The name at a position.
    pub fn name_chars(&self, i: usize) -> (r: &Vec<char>)
        requires
            i < self.names().len(),
        ensures
            r@ == self.names()[i as int],
    {
        proof {
            use_type_invariant(self);
            assert(texts(self.plain@).len() == self.plain@.len());
            assert(texts(self.plain@)[i as int] == self.plain@[i as int]@);
        }
        &self.plain[i]
    }

    /// The hex code at a position.
    pub fn hex_chars(&self, i: usize) -> (r: &Vec<char>)
        requires
            i < self.codes().len(),
        ensures
            r@ == self.codes()[i as int],
    {
        proof {
            use_type_invariant(self);
            assert(texts(self.hexes@).len() == self.hexes@.len());
            assert(texts(self.hexes@)[i as int] == self.hexes@[i as int]@);
        }
        &self.hexes[i]
    }

    /// The token index of the names.
    pub fn index(&self) -> (r: &TokenIndex)
        ensures
            r.names() == self.names(),
    {
        proof {
            use_type_invariant(self);
        }
        &self.index
    }

    /// The first position whose entry has the hex code and the name.
    pub fn find_pair(&self, hex: &[char], name: &[char]) -> (r: Option<usize>)
        ensures
            match r {
                Some(j) => j < self.names().len() && self.codes()[j as int] == hex@
                    && self.names()[j as int] == name@,
                None => forall|j: int|
                    0 <= j < self.names().len() ==> !(self.codes()[j] == hex@
                        && #[trigger] self.names()[j] == name@),
            },
    {
        let n = self.len();
        let mut j: usize = 0;
        while j < n
            invariant
                j <= n,
                n == self.names().len(),
                n == self.codes().len(),
                forall|k: int|
                    0 <= k < j ==> !(self.codes()[k] == hex@ && #[trigger] self.names()[k]
                        == name@),
            decreases n - j,
        {
            if chars_eq(self.name_chars(j).as_slice(), name) && chars_eq(
                self.hex_chars(j).as_slice(),
                hex,
            ) {
                return Some(j);
            }
            j += 1;
        }
        None
    }
}

/// The tables of all catalogues match the catalogues.
pub open spec fn tables_match(tables: Seq<Table>, cats: Seq<ColorCatalog>) -> bool {
    &&& tables.len() == cats.len()
    &&& forall|k: int|
        0 <= k < cats.len() ==> (#[trigger] tables[k]).names() == names_of(cats[k].data@)
            && tables[k].codes() == hexes_of(cats[k].data@)
}

/// The catalogue holds an entry with this hex code and this name.
pub open spec fn catalog_has(cat: ColorCatalog, hex: Seq<char>, name: Seq<char>) -> bool {
    exists|j: int| 0 <= j < cat.data@.len() && cat.data@[j].0@ == hex && cat.data@[j].1@ == name
}

/// The position of the first catalogue at or after `from` that holds the
/// pair, or the number of catalogues.
pub open spec fn priority_from(
    cats: Seq<ColorCatalog>,
    hex: Seq<char>,
    name: Seq<char>,
    from: int,
) -> int
    decreases cats.len() - from,
{
    if from < 0 || from >= cats.len() {
        cats.len() as int
    } else if catalog_has(cats[from], hex, name) {
        from
    } else {
        priority_from(cats, hex, name, from + 1)
    }
}

/// The priority of a colour among the origins: the position of the first
/// catalogue that holds it. Catalogues that were registered earlier come
/// first; a colour that no catalogue holds comes last.
pub open spec fn origin_priority(cats: Seq<ColorCatalog>, hex: Seq<char>, name: Seq<char>) -> int {
    priority_from(cats, hex, name, 0)
}

/// A priority is a position among the catalogues, or their number.
pub proof fn lemma_priority_bounds(
    cats: Seq<ColorCatalog>,
    hex: Seq<char>,
    name: Seq<char>,
    from: int,
)
    requires
        0 <= from <= cats.len(),
    ensures
        from <= priority_from(cats, hex, name, from) <= cats.len(),
    decreases cats.len() - from,
{
    if from < cats.len() && !catalog_has(cats[from], hex, name) {
        lemma_priority_bounds(cats, hex, name, from + 1);
    }
}

/// Scans the tables for the first that holds the pair.
pub(crate) fn priority_scan(
    tables: &Vec<Table>,
    hex: &[char],
    name: &[char],
    Ghost(cats): Ghost<Seq<ColorCatalog>>,
) -> (r: usize)
    requires
        tables_match(tables@, cats),
    ensures
        r == origin_priority(cats, hex@, name@),
        r <= cats.len(),
{
    let mut k: usize = 0;
    while k < tables.len()
        invariant
            k <= tables.len(),
            tables_match(tables@, cats),
            origin_priority(cats, hex@, name@) == priority_from(cats, hex@, name@, k as int),
        decreases tables.len() - k,
    {
        let found = tables[k].find_pair(hex, name);
        proof {
            let cat = cats[k as int];
            let t = tables@[k as int];
            assert(t.names() == names_of(cat.data@));
            assert(t.codes() == hexes_of(cat.data@));
            match found {
                Some(j) => {
                    assert(names_of(cat.data@)[j as int] == cat.data@[j as int].1@);
                    assert(hexes_of(cat.data@)[j as int] == cat.data@[j as int].0@);
                    assert(catalog_has(cat, hex@, name@));
                },
                None => {
                    if catalog_has(cat, hex@, name@) {
                        let j = choose|j: int|
                            0 <= j < cat.data@.len() && cat.data@[j].0@ == hex@ && cat.data@[j].1@
                                == name@;
                        assert(names_of(cat.data@)[j] == cat.data@[j].1@);
                        assert(hexes_of(cat.data@)[j] == cat.data@[j].0@);
                        assert(t.names()[j] == name@);
                        assert(false);
                    }
                },
            }
        }
        if found.is_some() {
            return k;
        }
        k += 1;
    }
    k
}

/// The colour tables of an application, with what is needed to search them.
/// It is built once and only read afterwards.
pub struct Registry {
    catalogs: Vec<ColorCatalog>,
    combined: Vec<(HexCode, ColorName)>,
    tables: Vec<Table>,
    all: Table,
    nothing: Table,
    none: Vec<(HexCode, ColorName)>,
    priorities: Vec<usize>,
    limit: usize,
}

/// The priorities of the given entries, in their order.
pub open spec fn priorities_of(cats: Seq<ColorCatalog>, entries: Seq<(HexCode, ColorName)>) -> Seq<
    usize,
> {
    entries.map_values(|e: (HexCode, ColorName)| origin_priority(cats, e.0@, e.1@) as usize)
}

impl View for Registry {
    type V = Seq<ColorCatalog>;

    /// The catalogues, in the order in which they were registered.
    closed spec fn view(&self) -> Seq<ColorCatalog> {
        self.catalogs@
    }
}

impl Registry {
    #[verifier::type_invariant]
    spec fn well_formed(self) -> bool {
        &&& self.combined@ == combined_of(self.catalogs@)
        &&& tables_match(self.tables@, self.catalogs@)
        &&& self.all.names() == names_of(self.combined@)
        &&& self.nothing.names() == Seq::<Seq<char>>::empty()
        &&& self.nothing.codes() == Seq::<Seq<char>>::empty()
        &&& self.none@ == Seq::<(HexCode, ColorName)>::empty()
        &&& self.all.codes() == hexes_of(self.combined@)
        &&& self.priorities@ == priorities_of(self.catalogs@, self.combined@)
    }

    /// The greatest number of entries that a search returns.
    pub closed spec fn limit(self) -> usize {
        self.limit
    }

    /// A registry of the given catalogues whose searches return at most
    /// `MAX_RESULTS` entries.
    pub fn new(catalogs: Vec<ColorCatalog>) -> (r: Registry)
        ensures
            r@ == catalogs@,
            r.limit() == MAX_RESULTS,
    {
        Registry::with_limit(catalogs, MAX_RESULTS)
    }

    /// A registry of the given catalogues whose searches return at most
    /// `limit` entries.
    pub fn with_limit(catalogs: Vec<ColorCatalog>, limit: usize) -> (r: Registry)
        ensures
            r@ == catalogs@,
            r.limit() == limit,
    {
        let mut combined: Vec<(HexCode, ColorName)> = Vec::new();
        let mut tables: Vec<Table> = Vec::new();
        let mut k: usize = 0;
        proof {
            assert(catalogs@.take(0) =~= Seq::<ColorCatalog>::empty());
        }
        while k < catalogs.len()
            invariant
                k <= catalogs.len(),
                combined@ == combined_of(catalogs@.take(k as int)),
                tables.len() == k,
                forall|j: int|
                    0 <= j < k ==> (#[trigger] tables@[j]).names() == names_of(catalogs@[j].data@)
                        && tables@[j].codes() == hexes_of(catalogs@[j].data@),
            decreases catalogs.len() - k,
        {
            let data = &catalogs[k].data;
            let ghost before = combined@;
            let mut i: usize = 0;
            while i < data.len()
                invariant
                    i <= data.len(),
                    combined@ == before + data@.take(i as int),
                decreases data.len() - i,
            {
                combined.push(data[i]);
                proof {
                    assert(data@.take(i + 1) =~= data@.take(i as int).push(data@[i as int]));
                    assert(combined@ =~= before + data@.take(i + 1));
                }
                i += 1;
            }
            proof {
                assert(data@.take(data.len() as int) =~= data@);
                let next = catalogs@.take(k + 1);
                assert(next.drop_last() =~= catalogs@.take(k as int));
                assert(next.last() == catalogs@[k as int]);
            }
            tables.push(Table::build(data.as_slice()));
            k += 1;
        }
        proof {
            assert(catalogs@.take(catalogs.len() as int) =~= catalogs@);
        }
        let all = Table::build(combined.as_slice());
        let none: Vec<(HexCode, ColorName)> = Vec::new();
        let nothing = Table::build(none.as_slice());
        proof {
            assert(names_of(none@) =~= Seq::<Seq<char>>::empty());
            assert(hexes_of(none@) =~= Seq::<Seq<char>>::empty());
        }
        let mut priorities: Vec<usize> = Vec::new();
        let n = all.len();
        let mut i: usize = 0;
        while i < n
            invariant
                i <= n,
                n == combined.len(),
                all.names() == names_of(combined@),
                all.codes() == hexes_of(combined@),
                tables_match(tables@, catalogs@),
                priorities.len() == i,
                forall|j: int|
                    0 <= j < i ==> #[trigger] priorities@[j] == origin_priority(
                        catalogs@,
                        combined@[j].0@,
                        combined@[j].1@,
                    ),
            decreases n - i,
        {
            let p = priority_scan(
                &tables,
                all.hex_chars(i).as_slice(),
                all.name_chars(i).as_slice(),
                Ghost(catalogs@),
            );
            priorities.push(p);
            i += 1;
        }
        proof {
            assert(priorities@ =~= priorities_of(catalogs@, combined@));
        }
        Registry { catalogs, combined, tables, all, nothing, none, priorities, limit }
    }

    /// The greatest number of entries that a search returns.
    pub fn max_results(&self) -> (n: usize)
        ensures
            n == self.limit(),
    {
        self.limit
    }

    /// The catalogues, in the order in which they were registered.
    pub fn catalogs(&self) -> (r: &Vec<ColorCatalog>)
        ensures
            r@ == self@,
    {
        &self.catalogs
    }

    /// The position of the first catalogue of an origin, if there is one.
    pub fn position_of(&self, origin: Origin) -> (r: Option<usize>)
        ensures
            match r {
                Some(k) => k < self@.len() && k == find_origin(self@, origin, 0),
                None => find_origin(self@, origin, 0) == self@.len(),
            },
    {
        let mut k: usize = 0;
        while k < self.catalogs.len()
            invariant
                k <= self.catalogs.len(),
                find_origin(self.catalogs@, origin, 0) == find_origin(
                    self.catalogs@,
                    origin,
                    k as int,
                ),
            decreases self.catalogs.len() - k,
        {
            if self.catalogs[k].origin == origin {
                return Some(k);
            }
            k += 1;
        }
        None
    }

    /// The table of an origin.
    pub fn entries(&self, origin: Origin) -> (r: &[(HexCode, ColorName)])
        ensures
            r@ == table_of(self@, origin),
    {
        proof {
            use_type_invariant(self);
        }
        if origin == Origin::All {
            self.combined.as_slice()
        } else {
            match self.position_of(origin) {
                Some(k) => self.catalogs[k].data.as_slice(),
                None => self.none.as_slice(),
            }
        }
    }

    /// The search tables of the catalogues, in the catalogues' order.
    pub fn tables(&self) -> (r: &Vec<Table>)
        ensures
            tables_match(r@, self@),
    {
        proof {
            use_type_invariant(self);
        }
        &self.tables
    }

    /// The priority of the entry at a position of the combined table.
    pub fn priority_at(&self, i: usize) -> (r: usize)
        requires
            i < combined_of(self@).len(),
        ensures
            r == origin_priority(self@, combined_of(self@)[i as int].0@, combined_of(
                self@,
            )[i as int].1@),
    {
        proof {
            use_type_invariant(self);
            let e = self.combined@[i as int];
            lemma_priority_bounds(self.catalogs@, e.0@, e.1@, 0);
            assert(self.catalogs@.len() == self.catalogs.len());
            assert(self.priorities@[i as int] == origin_priority(self.catalogs@, e.0@, e.1@) as usize);
        }
        self.priorities[i]
    }

    /// The search table of an origin.
    pub fn table(&self, origin: Origin) -> (r: &Table)
        ensures
            r.names() == names_of(table_of(self@, origin)),
            r.codes() == hexes_of(table_of(self@, origin)),
    {
        proof {
            use_type_invariant(self);
        }
        if origin == Origin::All {
            &self.all
        } else {
            match self.position_of(origin) {
                Some(k) => &self.tables[k],
                None => {
                    proof {
                        assert(names_of(Seq::<(HexCode, ColorName)>::empty()) =~= Seq::<
                            Seq<char>,
                        >::empty());
                        assert(hexes_of(Seq::<(HexCode, ColorName)>::empty()) =~= Seq::<
                            Seq<char>,
                        >::empty());
                    }
                    &self.nothing
                },
            }
        }
    }
}

/// The table of an origin: every entry for `Origin::All`.
pub fn origin_slice(reg: &Registry, origin: Origin) -> (r: &[(HexCode, ColorName)])
    ensures
        r@ == table_of(reg@, origin),
{
    reg.entries(origin)
}

/// The table of an origin, borrowed from the registry.
pub fn colors_for_origin(reg: &Registry, origin: Origin) -> (r: &[(HexCode, ColorName)])
    ensures
        r@ == table_of(reg@, origin),
{
    reg.entries(origin)
}

/// The table of an origin: a copy of all entries for `Origin::All`, and the
/// registry's own table for every other origin.
pub fn colors_for(reg: &Registry, origin: Origin) -> (r: ColorsFor<'_>)
    ensures
        r@ == table_of(reg@, origin),
        r is Owned <==> origin == Origin::All,
{
    if origin == Origin::All {
        ColorsFor::Owned(copy_table(reg.entries(origin)))
    } else {
        ColorsFor::Slice(reg.entries(origin))
    }
}

/// An entry with its name in lowercase.
pub struct ColorEntry {
    pub hex: &'static str,
    pub name: &'static str,
    /// The lowercase form of the name.
    pub name_lc: String,
}

/// The entry stands for the table's entry, with its name in lowercase.
pub open spec fn is_entry_of(c: ColorEntry, e: (HexCode, ColorName)) -> bool {
    c.hex@ == e.0@ && c.name@ == e.1@ && c.name_lc@ == unicode_lowercase(e.1@)
}

/// Every entry of all origins together, each with its lowercase name.
pub fn colors_lc(reg: &Registry) -> (r: Vec<ColorEntry>)
    ensures
        r.len() == combined_of(reg@).len(),
        forall|i: int| 0 <= i < r.len() ==> is_entry_of(#[trigger] r@[i], combined_of(reg@)[i]),
{
    let entries = reg.entries(Origin::All);
    let table = reg.table(Origin::All);
    proof {
        assert(names_of(entries@).len() == entries@.len());
    }
    let mut out: Vec<ColorEntry> = Vec::new();
    let mut i: usize = 0;
    while i < entries.len()
        invariant
            i <= entries.len(),
            entries@ == combined_of(reg@),
            table.names() == names_of(entries@),
            out.len() == i,
            forall|k: int| 0 <= k < i ==> is_entry_of(#[trigger] out@[k], entries@[k]),
        decreases entries.len() - i,
    {
        proof {
            assert(names_of(entries@)[i as int] == entries@[i as int].1@);
        }
        let name_lc = string_of(table.lower_name(i).as_slice());
        out.push(ColorEntry { hex: entries[i].0.as_str(), name: entries[i].1.as_str(), name_lc });
        i += 1;
    }
    out
}

/// The table of an origin in the older form of pairs of strings. The
/// registry keeps no table in that form: the result is empty for every
/// origin.
pub fn palette_data(origin: Origin) -> (r: Vec<(&'static str, &'static str)>)
    ensures
        r@.len() == 0,
{
    Vec::new()
}

} // verus!
