//! The catalogue of items and recipes that a crafting graph is built from.
use crate::entities::{FactoryKind, Item, ItemAmount, Recipe};
use rust_decimal::prelude::FromPrimitive;
use rust_decimal::Decimal;
use std::time::Duration;
use vstd::prelude::*;

verus! {

/// Items and recipes; recipes name their ingredients and results by index
/// into `items`.
pub struct DataSet {
    pub recipes: Vec<Recipe>,
    pub items: Vec<Item>,
}

/// Indices `0..n` of the natural items among `items`, in increasing order.
pub open spec fn natural_prefix(items: Seq<Item>, n: int) -> Seq<usize>
    decreases n,
{
    if n <= 0 {
        Seq::empty()
    } else if items[n - 1].natural {
        natural_prefix(items, n - 1).push((n - 1) as usize)
    } else {
        natural_prefix(items, n - 1)
    }
}

/// The natural indices below `n` are exactly the natural items below `n`.
pub proof fn lemma_natural_prefix(items: Seq<Item>, n: int, i: usize)
    requires
        0 <= n <= items.len(),
        items.len() <= usize::MAX,
    ensures
        natural_prefix(items, n).contains(i) <==> (i < n && items[i as int].natural),
    decreases n,
{
    if n > 0 {
        lemma_natural_prefix(items, n - 1, i);
        let rest = natural_prefix(items, n - 1);
        if items[n - 1].natural {
            let s = rest.push((n - 1) as usize);
            if rest.contains(i) {
                let k = choose|k: int| 0 <= k < rest.len() && rest[k] == i;
                assert(s[k] == i);
            }
            if s.contains(i) {
                let k = choose|k: int| 0 <= k < s.len() && s[k] == i;
                if k < rest.len() {
                    assert(rest[k] == i);
                }
            }
            if i == n - 1 {
                assert(s[rest.len() as int] == i);
            }
        }
    }
}

/// The amount given with the first entry of `entries` (from `k` on) that
/// names item `i`.
pub open spec fn amount_from(entries: Seq<(ItemAmount, usize)>, i: usize, k: int) -> ItemAmount
    decreases entries.len() - k,
{
    if k < 0 || k >= entries.len() {
        arbitrary()
    } else if entries[k].1 == i {
        entries[k].0
    } else {
        amount_from(entries, i, k + 1)
    }
}

/// Whether some entry of `entries` names item `i`.
pub open spec fn lists(entries: Seq<(ItemAmount, usize)>, i: usize) -> bool {
    exists|k: int| 0 <= k < entries.len() && #[trigger] entries[k].1 == i
}

/// The kind of factory a recipe category is crafted in; an unknown category
/// falls back to an assembler.
pub open spec fn kind_of_category(c: Seq<char>) -> FactoryKind {
    if c == "crafting"@ || c == "crafting-with-fluid"@ || c == "advanced-crafting"@ {
        FactoryKind::Assembler
    } else if c == "oil-processing"@ {
        FactoryKind::OilRefinery
    } else if c == "smelting"@ {
        FactoryKind::Smelter
    } else if c == "centrifuging"@ {
        FactoryKind::Centrifuge
    } else if c == "chemistry"@ {
        FactoryKind::ChemicalPlant
    } else if c == "rocket-building"@ {
        FactoryKind::RocketSilo
    } else {
        FactoryKind::Assembler
    }
}

/// The largest number of results of any recipe.
pub open spec fn max_results(recipes: Seq<Recipe>) -> nat
    decreases recipes.len(),
{
    if recipes.len() == 0 {
        0
    } else {
        let m = max_results(recipes.drop_last());
        let l = recipes.last().results@.len();
        if l > m {
            l
        } else {
            m
        }
    }
}

/// No recipe has more results than the largest number.
pub proof fn lemma_max_results(recipes: Seq<Recipe>, r: int)
    requires
        0 <= r < recipes.len(),
    ensures
        recipes[r].results@.len() <= max_results(recipes),
    decreases recipes.len(),
{
    if r < recipes.len() - 1 {
        lemma_max_results(recipes.drop_last(), r);
    }
}

/// An amount of a named item, as a recipe record lists it.
#[derive(Debug, Clone, PartialEq, Eq, PartialOrd, Ord, Hash)]
pub struct ItemJson {
    pub name: String,
    pub amount: usize,
}

/// The ingredients of a recipe record; a recipe without ingredients may be
/// recorded as an empty object.
#[derive(Debug, Clone, PartialEq, Eq, PartialOrd, Ord, Hash)]
pub enum IngredientField {
    Regular(Vec<ItemJson>),
    Empty {},
}

/// A recipe as a catalogue records it: items by name, amounts as counts.
pub struct RecipeRecord {
    pub name: String,
    pub ingredients: IngredientField,
    pub category: String,
    pub products: Vec<ItemJson>,
    pub time: Duration,
}

/// Errors in turning recipe records into a data set.
#[derive(Debug, Clone, PartialEq, Eq)]
pub enum FactoryError {
    /// An amount has no exact decimal representation.
    CantRepresentAmountAsDecimal(usize),
}

/// The decimal that rust_decimal gives for a count, if any.
pub uninterp spec fn decimal_of(n: usize) -> Option<Decimal>;

/// Relies on rust_decimal's `FromPrimitive::from_usize` for `Decimal`: the
/// result depends on the count alone.
#[verifier::external_body]
fn decimal_from_usize(n: usize) -> (r: Option<Decimal>)
    ensures
        r == decimal_of(n),
{
    Decimal::from_usize(n)
}

/// The entries of an ingredient field.
pub open spec fn entries_of(f: IngredientField) -> Seq<ItemJson> {
    match f {
        IngredientField::Regular(v) => v@,
        IngredientField::Empty {} => Seq::empty(),
    }
}

/// Some entry of `names` is `name`.
pub open spec fn names_contain(names: Seq<String>, name: Seq<char>) -> bool {
    exists|k: int| 0 <= k < names.len() && #[trigger] names[k]@ == name
}

/// Some entry of `entries` names `name`.
pub open spec fn names_entry(entries: Seq<ItemJson>, name: Seq<char>) -> bool {
    exists|k: int| 0 <= k < entries.len() && #[trigger] entries[k].name@ == name
}

/// Record `rr` mentions an item named `name` among its ingredients or
/// products.
pub open spec fn mentions(rr: RecipeRecord, name: Seq<char>) -> bool {
    names_entry(entries_of(rr.ingredients), name) || names_entry(rr.products@, name)
}

/// Every amount of `entries` has a decimal.
pub open spec fn all_decimal(entries: Seq<ItemJson>) -> bool {
    forall|k: int| 0 <= k < entries.len() ==> (#[trigger] decimal_of(entries[k].amount)) is Some
}

/// Every amount of every record has a decimal.
pub open spec fn records_decimal(records: Seq<RecipeRecord>) -> bool {
    forall|r: int|
        0 <= r < records.len() ==> all_decimal(entries_of((#[trigger] records[r]).ingredients)) && all_decimal(
            records[r].products@,
        )
}

/// `got` lists, in order, the decimals of the amounts of `entries` and the
/// items of `items` that bear their names.
pub open spec fn entries_match(got: Seq<(ItemAmount, usize)>, entries: Seq<ItemJson>, items: Seq<Item>) -> bool {
    &&& got.len() == entries.len()
    &&& forall|k: int|
        0 <= k < got.len() ==> {
            &&& Some((#[trigger] got[k]).0) == decimal_of(entries[k].amount)
            &&& got[k].1 < items.len()
            &&& items[got[k].1 as int].name@ == entries[k].name@
        }
}

/// No two items share a name.
pub open spec fn names_unique(items: Seq<Item>) -> bool {
    forall|a: int, b: int| 0 <= a < items.len() && 0 <= b < items.len() && a != b ==> (#[trigger] items[a]).name@ != (#[trigger] items[b]).name@
}

/// An item is natural exactly when its name is among `names`.
pub open spec fn naturals_marked(items: Seq<Item>, names: Seq<String>) -> bool {
    forall|i: int| 0 <= i < items.len() ==> (#[trigger] items[i]).natural == names_contain(names, items[i].name@)
}

/// The index of the item named `name`, added (natural when `names` holds
/// it) if the table has none.
fn intern(items: &mut Vec<Item>, name: &String, names: &Vec<String>) -> (r: usize)
    requires
        names_unique(old(items)@),
        naturals_marked(old(items)@, names@),
    ensures
        r < final(items)@.len(),
        final(items)@[r as int].name@ == name@,
        names_unique(final(items)@),
        naturals_marked(final(items)@, names@),
        final(items)@.len() >= old(items)@.len(),
        forall|i: int| 0 <= i < old(items)@.len() ==> #[trigger] final(items)@[i] == old(items)@[i],
        forall|i: int| old(items)@.len() <= i < final(items)@.len() ==> (#[trigger] final(items)@[i]).name@ == name@,
        (exists|i: int| 0 <= i < old(items)@.len() && old(items)@[i].name@ == name@) ==> final(items)@ == old(items)@,
{
    let mut i: usize = 0;
    while i < items.len()
        invariant
            i <= items@.len(),
            items@ == old(items)@,
            names_unique(items@),
            naturals_marked(items@, names@),
            forall|j: int| 0 <= j < i ==> items@[j].name@ != name@,
        decreases items@.len() - i,
    {
        if items[i].name == *name {
            return i;
        }
        i = i + 1;
    }
    let mut natural = false;
    let mut k: usize = 0;
    while k < names.len()
        invariant
            k <= names@.len(),
            items@ == old(items)@,
            names_unique(items@),
            naturals_marked(items@, names@),
            forall|j: int| 0 <= j < items@.len() ==> items@[j].name@ != name@,
            natural == exists|j: int| 0 <= j < k && #[trigger] names@[j]@ == name@,
        decreases names@.len() - k,
    {
        if names[k] == *name {
            natural = true;
        }
        k = k + 1;
    }
    let ghost before = items@;
    items.push(Item { name: name.clone(), natural });
    proof {
        assert forall|a: int, b: int| 0 <= a < items@.len() && 0 <= b < items@.len() && a != b implies (#[trigger] items@[a]).name@
            != (#[trigger] items@[b]).name@ by {
            if a < before.len() && b < before.len() {
                assert(before[a] == items@[a] && before[b] == items@[b]);
            }
        }
    }
    items.len() - 1
}

/// The ingredients or results of a record, by item index, with decimal
/// amounts; `Err` with the first amount that has no decimal.
fn convert_entries(entries: &Vec<ItemJson>, items: &mut Vec<Item>, names: &Vec<String>) -> (r: Result<Vec<(ItemAmount, usize)>, FactoryError>)
    requires
        names_unique(old(items)@),
        naturals_marked(old(items)@, names@),
    ensures
        names_unique(final(items)@),
        naturals_marked(final(items)@, names@),
        final(items)@.len() >= old(items)@.len(),
        forall|i: int| 0 <= i < old(items)@.len() ==> #[trigger] final(items)@[i] == old(items)@[i],
        forall|i: int| old(items)@.len() <= i < final(items)@.len() ==> names_entry(entries@, (#[trigger] final(items)@[i]).name@),
        r is Ok <==> all_decimal(entries@),
        r is Ok ==> entries_match(r->Ok_0@, entries@, final(items)@),
        r is Err ==> exists|k: int| 0 <= k < entries@.len() && decimal_of(entries@[k].amount) is None
            && r->Err_0 == FactoryError::CantRepresentAmountAsDecimal(entries@[k].amount),
{
    let mut got: Vec<(ItemAmount, usize)> = Vec::new();
    let mut k: usize = 0;
    while k < entries.len()
        invariant
            k <= entries@.len(),
            names_unique(items@),
            naturals_marked(items@, names@),
            items@.len() >= old(items)@.len(),
            forall|i: int| 0 <= i < old(items)@.len() ==> #[trigger] items@[i] == old(items)@[i],
            forall|i: int| old(items)@.len() <= i < items@.len() ==> names_entry(entries@, (#[trigger] items@[i]).name@),
            all_decimal(entries@.take(k as int)),
            entries_match(got@, entries@.take(k as int), items@),
        decreases entries@.len() - k,
    {
        let amount = match decimal_from_usize(entries[k].amount) {
            Some(d) => d,
            None => {
                return Err(FactoryError::CantRepresentAmountAsDecimal(entries[k].amount));
            },
        };
        let ghost items0 = items@;
        let i = intern(items, &entries[k].name, names);
        got.push((amount, i));
        proof {
            assert forall|j: int| old(items)@.len() <= j < items@.len() implies names_entry(entries@, (#[trigger] items@[j]).name@) by {
                if j >= items0.len() {
                    assert(entries@[k as int].name@ == items@[j].name@);
                } else {
                    assert(items@[j] == items0[j]);
                }
            }
            assert forall|q: int| 0 <= q < got@.len() implies {
                &&& Some((#[trigger] got@[q]).0) == decimal_of(entries@.take(k + 1)[q].amount)
                &&& got@[q].1 < items@.len()
                &&& items@[got@[q].1 as int].name@ == entries@.take(k + 1)[q].name@
            } by {
                if q < k {
                    assert(entries@.take(k + 1)[q] == entries@.take(k as int)[q]);
                    assert(items@[got@[q].1 as int] == items0[got@[q].1 as int]);
                }
            }
            assert forall|q: int| 0 <= q < k + 1 implies (#[trigger] decimal_of(entries@.take(k + 1)[q].amount)) is Some by {
                if q < k {
                    assert(entries@.take(k + 1)[q] == entries@.take(k as int)[q]);
                }
            }
        }
        k = k + 1;
    }
    assert(entries@.take(entries@.len() as int) =~= entries@);
    Ok(got)
}

/// Whether a recipe category has a factory kind of its own (otherwise it
/// falls back to an assembler).
pub open spec fn category_known(c: Seq<char>) -> bool {
    c == "crafting"@ || c == "crafting-with-fluid"@ || c == "advanced-crafting"@ || c == "oil-processing"@
        || c == "smelting"@ || c == "centrifuging"@ || c == "chemistry"@ || c == "rocket-building"@
}

impl DataSet {
    /// Every ingredient and result names an item of the table.
    pub open spec fn wf(&self) -> bool {
        &&& forall|r: int, k: int|
            0 <= r < self.recipes@.len() && 0 <= k < self.recipes@[r].ingredients@.len()
                ==> #[trigger] self.recipes@[r].ingredients@[k].1 < self.items@.len()
        &&& forall|r: int, k: int|
            0 <= r < self.recipes@.len() && 0 <= k < self.recipes@[r].results@.len()
                ==> #[trigger] self.recipes@[r].results@[k].1 < self.items@.len()
    }

    /// Recipe `r` lists item `i` among its ingredients.
    pub open spec fn consumes(&self, r: int, i: usize) -> bool {
        0 <= r < self.recipes@.len() && lists(self.recipes@[r].ingredients@, i)
    }

    /// Recipe `r` lists item `i` among its results.
    pub open spec fn produces(&self, r: int, i: usize) -> bool {
        0 <= r < self.recipes@.len() && lists(self.recipes@[r].results@, i)
    }

    /// The amount of item `i` that one craft of recipe `r` consumes (its first
    /// mention among the ingredients).
    pub open spec fn ingredient_amount(&self, r: int, i: usize) -> ItemAmount {
        amount_from(self.recipes@[r].ingredients@, i, 0)
    }

    /// A data set small enough that the node and edge counts of its graph
    /// fit in a `usize`.
    pub open spec fn fits(&self) -> bool {
        let total = self.items@.len() + self.recipes@.len();
        &&& total < crate::graph::MAX_INDEX
        &&& total * (self.recipes@.len() + max_results(self.recipes@)) < crate::graph::MAX_INDEX
    }

    /// Indices of the natural items, in increasing order.
    pub fn natural_items(&self) -> (r: Vec<usize>)
        ensures
            r@ == natural_prefix(self.items@, self.items@.len() as int),
    {
        let mut r: Vec<usize> = Vec::new();
        let mut i: usize = 0;
        while i < self.items.len()
            invariant
                i <= self.items@.len(),
                r@ == natural_prefix(self.items@, i as int),
            decreases self.items@.len() - i,
        {
            if self.items[i].natural {
                r.push(i);
            }
            i = i + 1;
        }
        r
    }

    /// Index of the first item with the given name.
    pub fn try_get_item(&self, name: &String) -> (r: Option<usize>)
        ensures
            match r {
                Some(i) => i < self.items@.len() && self.items@[i as int].name@ == name@
                    && forall|j: int| 0 <= j < i ==> self.items@[j].name@ != name@,
                None => forall|j: int| 0 <= j < self.items@.len() ==> self.items@[j].name@ != name@,
            },
    {
        let mut i: usize = 0;
        while i < self.items.len()
            invariant
                i <= self.items@.len(),
                forall|j: int| 0 <= j < i ==> self.items@[j].name@ != name@,
            decreases self.items@.len() - i,
        {
            if self.items[i].name == *name {
                return Some(i);
            }
            i = i + 1;
        }
        None
    }

    /// Index of the item with the given name, which must be present.
    pub fn get_item(&self, name: &String) -> (r: usize)
        requires
            exists|j: int| 0 <= j < self.items@.len() && self.items@[j].name@ == name@,
        ensures
            r < self.items@.len(),
            self.items@[r as int].name@ == name@,
            forall|j: int| 0 <= j < r ==> self.items@[j].name@ != name@,
    {
        match self.try_get_item(name) {
            Some(i) => i,
            None => 0,
        }
    }

    /// Index of the first recipe with the given name.
    pub fn try_get_recipe(&self, name: &String) -> (r: Option<usize>)
        ensures
            match r {
                Some(i) => i < self.recipes@.len() && self.recipes@[i as int].name@ == name@
                    && forall|j: int| 0 <= j < i ==> self.recipes@[j].name@ != name@,
                None => forall|j: int|
                    0 <= j < self.recipes@.len() ==> self.recipes@[j].name@ != name@,
            },
    {
        let mut i: usize = 0;
        while i < self.recipes.len()
            invariant
                i <= self.recipes@.len(),
                forall|j: int| 0 <= j < i ==> self.recipes@[j].name@ != name@,
            decreases self.recipes@.len() - i,
        {
            if self.recipes[i].name == *name {
                return Some(i);
            }
            i = i + 1;
        }
        None
    }

    /// Index of the recipe with the given name, which must be present.
    pub fn get_recipe(&self, name: &String) -> (r: usize)
        requires
            exists|j: int| 0 <= j < self.recipes@.len() && self.recipes@[j].name@ == name@,
        ensures
            r < self.recipes@.len(),
            self.recipes@[r as int].name@ == name@,
            forall|j: int| 0 <= j < r ==> self.recipes@[j].name@ != name@,
    {
        match self.try_get_recipe(name) {
            Some(i) => i,
            None => 0,
        }
    }

    /// Whether the category is one that `category_into_factory_kind` knows,
    /// rather than one it falls back on an assembler for.
    pub fn category_is_known(category: &String) -> (r: bool)
        ensures
            r == category_known(category@),
    {
        proof {
            reveal_strlit("crafting");
            reveal_strlit("crafting-with-fluid");
            reveal_strlit("advanced-crafting");
            reveal_strlit("oil-processing");
            reveal_strlit("smelting");
            reveal_strlit("centrifuging");
            reveal_strlit("chemistry");
            reveal_strlit("rocket-building");
        }
        *category == "crafting".to_string() || *category == "crafting-with-fluid".to_string()
            || *category == "advanced-crafting".to_string() || *category == "oil-processing".to_string()
            || *category == "smelting".to_string() || *category == "centrifuging".to_string()
            || *category == "chemistry".to_string() || *category == "rocket-building".to_string()
    }

    /// The factory kind of a recipe category; unknown categories fall back to
    /// an assembler.
    pub fn category_into_factory_kind(category: &String) -> (r: FactoryKind)
        ensures
            r == kind_of_category(category@),
    {
        proof {
            reveal_strlit("crafting");
            reveal_strlit("crafting-with-fluid");
            reveal_strlit("advanced-crafting");
            reveal_strlit("oil-processing");
            reveal_strlit("smelting");
            reveal_strlit("centrifuging");
            reveal_strlit("chemistry");
            reveal_strlit("rocket-building");
        }
        if *category == "crafting".to_string() || *category == "crafting-with-fluid".to_string()
            || *category == "advanced-crafting".to_string() {
            FactoryKind::Assembler
        } else if *category == "oil-processing".to_string() {
            FactoryKind::OilRefinery
        } else if *category == "smelting".to_string() {
            FactoryKind::Smelter
        } else if *category == "centrifuging".to_string() {
            FactoryKind::Centrifuge
        } else if *category == "chemistry".to_string() {
            FactoryKind::ChemicalPlant
        } else if *category == "rocket-building".to_string() {
            FactoryKind::RocketSilo
        } else {
            FactoryKind::Assembler
        }
    }
}

proof fn lemma_entries_match_grow(got: Seq<(ItemAmount, usize)>, entries: Seq<ItemJson>, items: Seq<Item>, items2: Seq<Item>)
    requires
        entries_match(got, entries, items),
        items2.len() >= items.len(),
        forall|i: int| 0 <= i < items.len() ==> #[trigger] items2[i] == items[i],
    ensures
        entries_match(got, entries, items2),
{
    assert forall|k: int| 0 <= k < got.len() implies items2[(#[trigger] got[k]).1 as int].name@ == entries[k].name@ by {
        assert(items2[got[k].1 as int] == items[got[k].1 as int]);
    }
}

/// `d` holds the records `records` as recipes over an item table with one
/// item per name, natural exactly when `names` holds its name.
pub open spec fn holds_records(d: DataSet, records: Seq<RecipeRecord>, names: Seq<String>) -> bool {
    &&& d.wf()
    &&& names_unique(d.items@)
    &&& naturals_marked(d.items@, names)
    &&& d.recipes@.len() == records.len()
    &&& forall|r: int| 0 <= r < records.len() ==> recipe_holds(#[trigger] d.recipes@[r], records[r], d.items@)
    &&& forall|i: int| 0 <= i < d.items@.len() ==> mentioned(records, records.len() as int, (#[trigger] d.items@[i]).name@)
}

/// One of the first `q` records mentions an item named `name`.
pub open spec fn mentioned(records: Seq<RecipeRecord>, q: int, name: Seq<char>) -> bool {
    exists|r: int| 0 <= r < q && #[trigger] mentions(records[r], name)
}

/// Recipe `rec` is record `rr` over the item table `items`.
pub open spec fn recipe_holds(rec: Recipe, rr: RecipeRecord, items: Seq<Item>) -> bool {
    &&& rec.name@ == rr.name@
    &&& rec.time == rr.time
    &&& rec.factory_kind == kind_of_category(rr.category@)
    &&& entries_match(rec.ingredients@, entries_of(rr.ingredients), items)
    &&& entries_match(rec.results@, rr.products@, items)
}

impl DataSet {
    /// The data set of a catalogue of recipe records: an item for every name
    /// an ingredient or product mentions (natural when `natural_item_names`
    /// holds it), a recipe for every record. `Err` when an amount has no
    /// exact decimal.
    pub fn from_records(records: &Vec<RecipeRecord>, natural_item_names: &Vec<String>) -> (r: Result<DataSet, FactoryError>)
        ensures
            r is Ok <==> records_decimal(records@),
            r is Ok ==> holds_records(r->Ok_0, records@, natural_item_names@),
            r is Err ==> match r->Err_0 {
                FactoryError::CantRepresentAmountAsDecimal(a) => exists|q: int|
                    0 <= q < records@.len() && lacks_decimal(#[trigger] records@[q], a),
            },
    {
        let mut items: Vec<Item> = Vec::new();
        let mut recipes: Vec<Recipe> = Vec::new();
        let no_entries: Vec<ItemJson> = Vec::new();
        let mut q: usize = 0;
        while q < records.len()
            invariant
                q <= records@.len(),
                no_entries@.len() == 0,
                names_unique(items@),
                naturals_marked(items@, natural_item_names@),
                recipes@.len() == q,
                forall|j: int| 0 <= j < q ==> recipe_holds(#[trigger] recipes@[j], records@[j], items@),
                forall|i: int| 0 <= i < items@.len() ==> mentioned(records@, q as int, (#[trigger] items@[i]).name@),
                forall|j: int| 0 <= j < q ==> #[trigger] records_decimal_at(records@, j),
            decreases records@.len() - q,
        {
            let rec = &records[q];
            let entries = match &rec.ingredients {
                IngredientField::Regular(v) => v,
                IngredientField::Empty {} => &no_entries,
            };
            assert(entries@ == entries_of(rec.ingredients));
            let ghost items0 = items@;
            let ingredients = match convert_entries(entries, &mut items, natural_item_names) {
                Ok(v) => v,
                Err(e) => {
                    proof {
                        assert(lacks_decimal(records@[q as int], match e { FactoryError::CantRepresentAmountAsDecimal(a) => a }));
                    }
                    return Err(e);
                },
            };
            let ghost items1 = items@;
            let results = match convert_entries(&rec.products, &mut items, natural_item_names) {
                Ok(v) => v,
                Err(e) => {
                    proof {
                        assert(lacks_decimal(records@[q as int], match e { FactoryError::CantRepresentAmountAsDecimal(a) => a }));
                        assert(!records_decimal(records@)) by {
                            assert(!records_decimal_at(records@, q as int));
                        }
                    }
                    return Err(e);
                },
            };
            let ghost recipes0 = recipes@;
            recipes.push(Recipe {
                name: rec.name.clone(),
                results,
                ingredients,
                time: rec.time,
                factory_kind: DataSet::category_into_factory_kind(&rec.category),
            });
            proof {
                lemma_entries_match_grow(ingredients@, entries@, items1, items@);
                assert forall|j: int| 0 <= j < q + 1 implies recipe_holds(#[trigger] recipes@[j], records@[j], items@) by {
                    if j < q {
                        assert(recipes@[j] == recipes0[j]);
                        assert(recipe_holds(recipes0[j], records@[j], items0));
                        lemma_entries_match_grow(recipes0[j].ingredients@, entries_of(records@[j].ingredients), items0, items@);
                        lemma_entries_match_grow(recipes0[j].results@, records@[j].products@, items0, items@);
                    }
                }
                assert(records_decimal_at(records@, q as int));
                assert forall|i: int| 0 <= i < items@.len() implies mentioned(records@, q + 1, (#[trigger] items@[i]).name@) by {
                    if i < items0.len() {
                        assert(items@[i] == items0[i]);
                        assert(mentioned(records@, q as int, items0[i].name@));
                        let r = choose|r: int| 0 <= r < q && #[trigger] mentions(records@[r], items0[i].name@);
                        assert(mentions(records@[r], items@[i].name@));
                    } else if i < items1.len() {
                        assert(items@[i] == items1[i]);
                        assert(names_entry(entries@, items1[i].name@));
                        assert(mentions(records@[q as int], items@[i].name@));
                    } else {
                        assert(names_entry(rec.products@, items@[i].name@));
                        assert(mentions(records@[q as int], items@[i].name@));
                    }
                }
            }
            q = q + 1;
        }
        let d = DataSet { recipes, items };
        proof {
            assert forall|r: int, k: int|
                0 <= r < d.recipes@.len() && 0 <= k < d.recipes@[r].ingredients@.len()
                    implies #[trigger] d.recipes@[r].ingredients@[k].1 < d.items@.len() by {
                assert(recipe_holds(d.recipes@[r], records@[r], d.items@));
            }
            assert forall|r: int, k: int|
                0 <= r < d.recipes@.len() && 0 <= k < d.recipes@[r].results@.len()
                    implies #[trigger] d.recipes@[r].results@[k].1 < d.items@.len() by {
                assert(recipe_holds(d.recipes@[r], records@[r], d.items@));
            }
            assert forall|r: int| 0 <= r < records@.len() implies all_decimal(entries_of((#[trigger] records@[r]).ingredients)) && all_decimal(
                records@[r].products@) by {
                assert(records_decimal_at(records@, r));
            }
        }
        Ok(d)
    }
}

/// Record `rr` lists amount `a`, which has no decimal.
pub open spec fn lacks_decimal(rr: RecipeRecord, a: usize) -> bool {
    &&& decimal_of(a) is None
    &&& (exists|k: int| 0 <= k < entries_of(rr.ingredients).len() && #[trigger] entries_of(rr.ingredients)[k].amount == a)
        || (exists|k: int| 0 <= k < rr.products@.len() && #[trigger] rr.products@[k].amount == a)
}

/// Every amount of record `r` has a decimal.
pub open spec fn records_decimal_at(records: Seq<RecipeRecord>, r: int) -> bool {
    all_decimal(entries_of(records[r].ingredients)) && all_decimal(records[r].products@)
}

} // verus!
