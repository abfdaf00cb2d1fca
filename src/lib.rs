//! Production-chain planning over a catalogue of recipes.
//!
//! A [`data::DataSet`] lists items and recipes. [`crafting::CraftingGraph::from_dataset`]
//! builds the bipartite graph of every item and recipe reachable from the
//! natural items and assigns tiers (chain depths, natural items at tier 0;
//! see [`tiers`]). [`crafting::CraftingGraph::get_crafting_trees`] then
//! enumerates, cheapest first, up to a given number of distinct ways of
//! crafting a target item or recipe.
pub mod crafting;
pub mod data;
pub mod entities;
pub mod enumerate;
pub mod graph;
pub mod laws;
pub mod queries;
pub mod tiers;

mod builder;
mod counting;
