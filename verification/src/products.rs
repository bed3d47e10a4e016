//! What products are known by, and their data as it is read.
use crate::model::{Aggregation, BandSpec, LngLatGrid};
use crate::text::same;
use vstd::prelude::*;

verus! {

/// How the values of a product came about.
#[derive(Clone, Copy, Debug, PartialEq, Eq, Structural)]
pub enum GeneratingProcessType {
    Analysis,
    Forecast,
    Other(u8),
}

/// The member of an ensemble that a product belongs to.
#[derive(Clone, Copy, Debug, PartialEq, Eq, Structural)]
pub struct Ensemble {
    pub perturbation_number: u8,
    pub ensemble_type: u8,
}

/// A kind of product, as the catalogue of products has it.
#[derive(Debug)]
pub struct ProductKind {
    /// The first part of the name that selects the product.
    pub data_kind: String,
    /// The second part of the name, or nothing.
    pub value_kind: String,
    pub base_z: u8,
    pub grid: LngLatGrid,
    pub aggregation: Aggregation,
    /// The names of the bands.
    pub bands: Vec<String>,
}

/// What a product is known by.
#[derive(Debug)]
pub struct GpvProductIdentifier {
    pub kind: ProductKind,
    /// When the product was made, in seconds since the beginning of 1970.
    pub reference_datetime: i64,
    /// What time the product is about, in seconds since the beginning of 1970.
    pub datetime: i64,
    pub generating_process: GeneratingProcessType,
    pub surface: String,
    pub ensemble: Option<Ensemble>,
    pub variant: Option<String>,
    /// The name of the product.
    pub path: String,
    /// The name of the product's kind.
    pub kind_path: String,
}

/// What tells one product from another.
pub struct ProductKey {
    pub data_kind: Seq<char>,
    pub value_kind: Seq<char>,
    pub reference_datetime: i64,
    pub datetime: i64,
    pub generating_process: GeneratingProcessType,
    pub surface: Seq<char>,
    pub ensemble: Option<Ensemble>,
    pub variant: Option<Seq<char>>,
}

/// The characters of a text that may be missing.
pub open spec fn optional_text(text: Option<String>) -> Option<Seq<char>> {
    match text {
        Some(text) => Some(text@),
        None => None,
    }
}

impl GpvProductIdentifier {
    /// What tells the product from others.
    pub open spec fn key(self) -> ProductKey {
        ProductKey {
            data_kind: self.kind.data_kind@,
            value_kind: self.kind.value_kind@,
            reference_datetime: self.reference_datetime,
            datetime: self.datetime,
            generating_process: self.generating_process,
            surface: self.surface@,
            ensemble: self.ensemble,
            variant: optional_text(self.variant),
        }
    }

    /// Whether two identifiers are those of one product.
    pub fn same_product(&self, other: &GpvProductIdentifier) -> (answer: bool)
        ensures
            answer == (self.key() == other.key()),
    {
        let variants = match (&self.variant, &other.variant) {
            (None, None) => true,
            (Some(a), Some(b)) => same(a.as_str(), b.as_str()),
            _ => false,
        };
        let ensembles = match (&self.ensemble, &other.ensemble) {
            (None, None) => true,
            (Some(a), Some(b)) => *a == *b,
            _ => false,
        };
        same(self.kind.data_kind.as_str(), other.kind.data_kind.as_str()) && same(
            self.kind.value_kind.as_str(),
            other.kind.value_kind.as_str(),
        ) && self.reference_datetime == other.reference_datetime && self.datetime == other.datetime
            && self.generating_process == other.generating_process && same(
            self.surface.as_str(),
            other.surface.as_str(),
        ) && ensembles && variants
    }

    /// The name that selects the product.
    pub open spec fn selector(self) -> Seq<char> {
        if self.kind.value_kind@.len() == 0 {
            self.kind.data_kind@
        } else {
            self.kind.data_kind@ + "/"@ + self.kind.value_kind@
        }
    }

    /// The name that selects the product.
    pub fn product_selector(&self) -> (name: String)
        ensures
            name@ == self.selector(),
    {
        let mut name = self.kind.data_kind.clone();
        if !self.kind.value_kind.as_str().is_empty() {
            name.append("/");
            name.append(self.kind.value_kind.as_str());
        }
        name
    }
}

/// A value of one band in one cell, as it is read.
#[derive(Clone, Copy, Debug, PartialEq, Eq, Structural)]
pub struct PointValue {
    pub x: u16,
    pub y: u16,
    /// The position of the cell along the curve through the grid.
    pub point_id: u32,
    pub value: i32,
    pub band_idx: u8,
    /// The power of two that is the cell's width.
    pub point_power: u8,
}

/// The data of a product, as it is read.
#[derive(Debug)]
pub struct ProductData {
    pub points: Vec<PointValue>,
    pub band_specs: Vec<BandSpec>,
}

/// The name that selects a product begins with the kind of its data, and tells the kinds apart: two
/// products whose kinds of data have no slash in them share it only where they share both kinds.
pub proof fn law_names_tell_kinds_apart(a: GpvProductIdentifier, b: GpvProductIdentifier)
    requires
        !a.kind.data_kind@.contains('/'),
        !b.kind.data_kind@.contains('/'),
    ensures
        a.selector().take(a.kind.data_kind@.len() as int) == a.kind.data_kind@,
        a.selector() == b.selector() ==> a.kind.data_kind@ == b.kind.data_kind@
            && a.kind.value_kind@ == b.kind.value_kind@,
        a.kind.value_kind@.len() > 0 ==> a.selector().skip(a.kind.data_kind@.len() as int + 1)
            == a.kind.value_kind@,
{
    reveal_strlit("/");
    let (s, t) = (a.selector(), b.selector());
    let (m, n) = (a.kind.data_kind@.len() as int, b.kind.data_kind@.len() as int);
    assert(s.take(m) =~= a.kind.data_kind@);
    assert(t.take(n) =~= b.kind.data_kind@);
    if a.kind.value_kind@.len() > 0 {
        assert(s[m] == '/');
        assert(s.skip(m + 1) =~= a.kind.value_kind@);
    }
    if b.kind.value_kind@.len() > 0 {
        assert(t[n] == '/');
        assert(t.skip(n + 1) =~= b.kind.value_kind@);
    }
    if s == t {
        if m < n {
            assert(t[m] == b.kind.data_kind@[m]);
            assert(s[m] == '/');
        } else if n < m {
            assert(s[n] == a.kind.data_kind@[n]);
            assert(t[n] == '/');
        }
        assert(a.kind.value_kind@ =~= b.kind.value_kind@);
    }
}

/// Two identifiers are those of one product exactly where they agree in the kinds of data and value,
/// both times, the process, the surface, the ensemble and the variant.
pub proof fn law_products_agree_in_everything(a: GpvProductIdentifier, b: GpvProductIdentifier)
    ensures
        a.key() == b.key() <==> {
            &&& a.kind.data_kind@ == b.kind.data_kind@
            &&& a.kind.value_kind@ == b.kind.value_kind@
            &&& a.reference_datetime == b.reference_datetime
            &&& a.datetime == b.datetime
            &&& a.generating_process == b.generating_process
            &&& a.surface@ == b.surface@
            &&& a.ensemble == b.ensemble
            &&& a.variant is Some == b.variant is Some
            &&& a.variant is Some ==> a.variant->Some_0@ == b.variant->Some_0@
        },
{
}

} // verus!
