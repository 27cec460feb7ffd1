//! The categories that colour tables belong to.

use vstd::prelude::*;

verus! {

/// A category of named colours. `All` stands for every table together.
#[derive(Debug, Clone, Copy, PartialEq, Eq, Structural, Hash)]
pub enum Origin {
    All,
    Css,
    Hindi,
    Persian,
    Pantone,
    XKCD,
    ItalianBrands,
    National,
    Brands,
    MetalFlames,
    KelvinColors,
    GitHub,
    Seasons,
    CanadianProvinces,
}

impl Default for Origin {
    fn default() -> (r: Origin)
        ensures
            r == Origin::All,
    {
        Origin::All
    }
}

/// Every origin, in the order in which a picker offers them.
pub open spec fn all_origins() -> Seq<Origin> {
    seq![
        Origin::All,
        Origin::Css,
        Origin::XKCD,
        Origin::Pantone,
        Origin::Hindi,
        Origin::Persian,
        Origin::National,
        Origin::Brands,
        Origin::ItalianBrands,
        Origin::MetalFlames,
        Origin::KelvinColors,
        Origin::GitHub,
        Origin::Seasons,
        Origin::CanadianProvinces,
    ]
}

/// Every origin, `All` first.
pub fn origins_vec() -> (r: Vec<Origin>)
    ensures
        r@ == all_origins(),
{
    let mut v: Vec<Origin> = Vec::new();
    v.push(Origin::All);
    v.push(Origin::Css);
    v.push(Origin::XKCD);
    v.push(Origin::Pantone);
    v.push(Origin::Hindi);
    v.push(Origin::Persian);
    v.push(Origin::National);
    v.push(Origin::Brands);
    v.push(Origin::ItalianBrands);
    v.push(Origin::MetalFlames);
    v.push(Origin::KelvinColors);
    v.push(Origin::GitHub);
    v.push(Origin::Seasons);
    v.push(Origin::CanadianProvinces);
    proof {
        assert(v@ =~= all_origins());
    }
    v
}

/// Every origin is offered exactly where `all_origins` lists it.
pub proof fn lemma_all_origins_complete(o: Origin)
    ensures
        all_origins().contains(o),
{
    let s = all_origins();
    match o {
        Origin::All => assert(s[0] == o),
        Origin::Css => assert(s[1] == o),
        Origin::XKCD => assert(s[2] == o),
        Origin::Pantone => assert(s[3] == o),
        Origin::Hindi => assert(s[4] == o),
        Origin::Persian => assert(s[5] == o),
        Origin::National => assert(s[6] == o),
        Origin::Brands => assert(s[7] == o),
        Origin::ItalianBrands => assert(s[8] == o),
        Origin::MetalFlames => assert(s[9] == o),
        Origin::KelvinColors => assert(s[10] == o),
        Origin::GitHub => assert(s[11] == o),
        Origin::Seasons => assert(s[12] == o),
        Origin::CanadianProvinces => assert(s[13] == o),
    }
}

/// An origin so large that an empty or too short query is not answered with
/// its whole table: the union of all tables, and the GitHub data set.
pub open spec fn heavy(origin: Origin) -> bool {
    origin == Origin::All || origin == Origin::GitHub
}

/// Queries against a heavy origin need at least this many characters.
pub const HEAVY_MIN_QUERY: usize = 1;

/// No search returns more entries than this.
pub const MAX_RESULTS: usize = 4000;

/// Whether short queries against this origin are held back.
pub fn is_heavy_origin(origin: Origin) -> (r: bool)
    ensures
        r == heavy(origin),
{
    match origin {
        Origin::All => true,
        Origin::GitHub => true,
        _ => false,
    }
}

impl Origin {
    /// The label that a picker shows for this origin.
    pub open spec fn label(self) -> Seq<char> {
        match self {
            Origin::All => "all"@,
            Origin::Css => "Css"@,
            Origin::Hindi => "Hindi"@,
            Origin::Persian => "Persian"@,
            Origin::Pantone => "Pantone"@,
            Origin::XKCD => "Xkcd"@,
            Origin::National => "National"@,
            Origin::Brands => "Brands"@,
            Origin::ItalianBrands => "Italian Brands"@,
            Origin::MetalFlames => "Metal Flames"@,
            Origin::KelvinColors => "Kelvin Colors"@,
            Origin::GitHub => "github"@,
            Origin::Seasons => "Seasons"@,
            Origin::CanadianProvinces => "Canadian Provinces"@,
        }
    }

    /// The label as a static string.
    pub fn as_str(&self) -> (r: &'static str)
        ensures
            r@ == self.label(),
    {
        match self {
            Origin::All => "all",
            Origin::Css => "Css",
            Origin::Hindi => "Hindi",
            Origin::Persian => "Persian",
            Origin::Pantone => "Pantone",
            Origin::XKCD => "Xkcd",
            Origin::National => "National",
            Origin::Brands => "Brands",
            Origin::ItalianBrands => "Italian Brands",
            Origin::MetalFlames => "Metal Flames",
            Origin::KelvinColors => "Kelvin Colors",
            Origin::GitHub => "github",
            Origin::Seasons => "Seasons",
            Origin::CanadianProvinces => "Canadian Provinces",
        }
    }

    /// The label as an owned string.
    pub fn to_string(&self) -> (r: String)
        ensures
            r@ == self.label(),
    {
        String::from_str(self.as_str())
    }
}

} // verus!
