use rust_decimal::Decimal;
use std::time::Duration;
use vstd::prelude::*;

verus! {

/// rust_decimal's exact decimal, held opaque: amounts are carried, never
/// computed with.
#[verifier::external_type_specification]
#[verifier::external_body]
pub struct ExDecimal(Decimal);

/// Relies on Duration's Clone: Duration is Copy, so a clone is the same value.
pub assume_specification[ <std::time::Duration as std::clone::Clone>::clone ](d: &std::time::Duration) -> (r: std::time::Duration)
    ensures
        r == *d,
;

/// An exact decimal quantity of an item.
pub type ItemAmount = Decimal;

/// A named resource or product; `natural` marks a base resource.
#[derive(Debug, Clone, PartialEq, Eq, Hash)]
pub struct Item {
    pub name: String,
    pub natural: bool,
}

/// The kind of factory a recipe is crafted in.
#[derive(Debug, Clone, Copy, PartialEq, Eq, Structural, Hash)]
pub enum FactoryKind {
    Assembler,
    OilRefinery,
    ChemicalPlant,
    Centrifuge,
    Smelter,
    RocketSilo,
}

/// A named transformation. Ingredients and results are pairs of an amount and
/// the index of an item in the owning data set's item table.
#[derive(Debug, Clone, PartialEq, Eq, Hash)]
pub struct Recipe {
    pub name: String,
    pub results: Vec<(ItemAmount, usize)>,
    pub ingredients: Vec<(ItemAmount, usize)>,
    pub time: Duration,
    pub factory_kind: FactoryKind,
}

} // verus!
