use factory_lib::crafting::CraftingGraph;
use factory_lib::data::{DataSet, FactoryError, IngredientField, ItemJson, RecipeRecord};
use factory_lib::entities::{FactoryKind, Item, Recipe};
use factory_lib::graph::Node;
use factory_lib::tiers::UNKNOWN_TIER;
use rust_decimal::Decimal;
use std::time::Duration;

fn item(name: &str, natural: bool) -> Item {
    Item { name: name.to_string(), natural }
}

fn recipe(name: &str, time: f64, inputs: &[(i64, usize)], outputs: &[(i64, usize)]) -> Recipe {
    Recipe {
        name: name.to_string(),
        results: outputs.iter().map(|&(a, i)| (Decimal::from(a), i)).collect(),
        ingredients: inputs.iter().map(|&(a, i)| (Decimal::from(a), i)).collect(),
        time: Duration::from_secs_f64(time),
        factory_kind: FactoryKind::Assembler,
    }
}

/// Natural copper and iron ore, and the four recipes of an electronic
/// circuit.
fn circuit_data() -> DataSet {
    let items = vec![
        item("iron-ore", true),
        item("copper-ore", true),
        item("iron-plate", false),
        item("copper-plate", false),
        item("copper-cable", false),
        item("electronic-circuit", false),
    ];
    let recipes = vec![
        recipe("copper-plate", 3.2, &[(1, 1)], &[(1, 3)]),
        recipe("copper-cable", 0.5, &[(1, 3)], &[(2, 4)]),
        recipe("iron-plate", 3.2, &[(1, 0)], &[(1, 2)]),
        recipe("electronic-circuit", 0.5, &[(3, 4), (1, 2)], &[(1, 5)]),
    ];
    DataSet { recipes, items }
}

fn name(s: &str) -> String {
    s.to_string()
}

fn item_tier(graph: &CraftingGraph, data: &DataSet, item_name: &str) -> Option<usize> {
    let i = data.try_get_item(&name(item_name))?;
    graph.iter_nodes().into_iter().find_map(|n| match n {
        Node::Item(e, t) if e == i => Some(t),
        _ => None,
    })
}

fn recipe_tier(graph: &CraftingGraph, data: &DataSet, recipe_name: &str) -> Option<usize> {
    let r = data.try_get_recipe(&name(recipe_name))?;
    graph.iter_nodes().into_iter().find_map(|n| match n {
        Node::Recipe(e, t) if e == r => Some(t),
        _ => None,
    })
}

#[test]
fn test_crafting_graph_structure() {
    let data = circuit_data();
    let graph = CraftingGraph::from_dataset(&data);
    assert_eq!(graph.iter_nodes().len(), data.recipes.len() + data.items.len());

    for (i, item) in data.items.iter().enumerate() {
        assert_eq!(data.try_get_item(&item.name), Some(i));
    }

    for (r, recipe) in data.recipes.iter().enumerate() {
        assert_eq!(data.try_get_recipe(&recipe.name), Some(r));
    }
}

#[test]
fn test_tiers() {
    let data = circuit_data();
    let graph = CraftingGraph::from_dataset(&data);
    let expected_item_tiers = [
        ("copper-ore", 0),
        ("copper-plate", 2),
        ("iron-ore", 0),
        ("iron-plate", 2),
        ("copper-cable", 4),
        // copper cable (4) + iron plate (2) + 1 for the recipe, + 1 for the item
        ("electronic-circuit", 8),
    ];
    let expected_recipe_tiers = [
        ("copper-plate", 1),
        ("iron-plate", 1),
        ("copper-cable", 3),
        ("electronic-circuit", 7),
    ];

    for (item, tier) in expected_item_tiers {
        assert_eq!(
            item_tier(&graph, &data, item),
            Some(tier),
            "Item {} with tier {} was not present in nodes",
            item,
            tier
        );
    }

    for (recipe, tier) in expected_recipe_tiers {
        assert_eq!(
            recipe_tier(&graph, &data, recipe),
            Some(tier),
            "Item {} with tier {} was not present in nodes",
            recipe,
            tier
        );
    }
}

#[test]
fn every_node_reachable_and_unreachable_recipes_left_out() {
    let mut data = circuit_data();
    data.items.push(item("stone", false));
    data.items.push(item("stone-brick", false));
    data.recipes.push(recipe("stone-brick", 3.2, &[(2, 6)], &[(1, 7)]));
    let graph = CraftingGraph::from_dataset(&data);
    assert_eq!(graph.iter_nodes().len(), 6 + 4);
    assert_eq!(item_tier(&graph, &data, "stone"), None);
    assert_eq!(recipe_tier(&graph, &data, "stone-brick"), None);
}

#[test]
fn every_edge_joins_an_item_and_a_recipe() {
    let data = circuit_data();
    let graph = CraftingGraph::from_dataset(&data);
    let nodes = graph.iter_nodes();
    assert_eq!(graph.data.edge_count(), 9);
    for edge in graph.data.raw_edges() {
        let a = nodes[edge.source().index()];
        let b = nodes[edge.target().index()];
        assert_ne!(matches!(a, Node::Item(..)), matches!(b, Node::Item(..)));
    }
}

#[test]
fn edge_weights_are_the_recipe_amounts() {
    let data = circuit_data();
    let graph = CraftingGraph::from_dataset(&data);
    let nodes = graph.iter_nodes();
    let cable = data.try_get_item(&name("copper-cable")).unwrap();
    let circuit = data.try_get_recipe(&name("electronic-circuit")).unwrap();
    let cable_recipe = data.try_get_recipe(&name("copper-cable")).unwrap();
    let mut seen = 0;
    for edge in graph.data.raw_edges() {
        match (nodes[edge.source().index()], nodes[edge.target().index()]) {
            (Node::Item(i, _), Node::Recipe(r, _)) if i == cable && r == circuit => {
                assert_eq!(edge.weight, Decimal::from(3));
                seen += 1;
            }
            (Node::Recipe(r, _), Node::Item(i, _)) if i == cable && r == cable_recipe => {
                assert_eq!(edge.weight, Decimal::from(2));
                seen += 1;
            }
            _ => {}
        }
    }
    assert_eq!(seen, 2);
}

#[test]
fn reassigning_tiers_changes_nothing() {
    let data = circuit_data();
    let mut graph = CraftingGraph::from_dataset(&data);
    let before = graph.iter_nodes();
    graph.adjust_tiers();
    assert_eq!(graph.iter_nodes(), before);
}

/// Copper ore gives copper plate; plate and wire are converted into each
/// other by two recipes, and a third recipe needs wire and a catalyst that
/// only it produces.
fn cyclic_data() -> DataSet {
    let items = vec![
        item("copper-ore", true),
        item("copper-plate", false),
        item("copper-wire", false),
        item("catalyst", false),
        item("coil", false),
    ];
    let recipes = vec![
        recipe("copper-plate", 1.0, &[(1, 0)], &[(1, 1)]),
        recipe("wire", 1.0, &[(1, 1)], &[(1, 2)]),
        recipe("unwire", 1.0, &[(1, 2)], &[(1, 1)]),
        recipe("coil", 1.0, &[(1, 2), (1, 3)], &[(1, 4), (1, 3)]),
    ];
    DataSet { recipes, items }
}

#[test]
fn tiers_terminate_on_cycles() {
    let data = cyclic_data();
    let graph = CraftingGraph::from_dataset(&data);
    assert_eq!(item_tier(&graph, &data, "copper-plate"), Some(2));
    assert_eq!(recipe_tier(&graph, &data, "wire"), Some(3));
    assert_eq!(item_tier(&graph, &data, "copper-wire"), Some(4));
    assert_eq!(recipe_tier(&graph, &data, "unwire"), Some(5));
    assert_eq!(recipe_tier(&graph, &data, "coil"), Some(UNKNOWN_TIER));
    assert_eq!(item_tier(&graph, &data, "catalyst"), Some(UNKNOWN_TIER));
    assert_eq!(item_tier(&graph, &data, "coil"), Some(UNKNOWN_TIER));
}

#[test]
fn one_solution_for_the_circuit() {
    let data = circuit_data();
    let graph = CraftingGraph::from_dataset(&data);
    let target = graph.get_item_node(&data, &name("electronic-circuit"));
    let solutions = graph.get_crafting_trees(target, 10).expect("target is in the graph");
    assert_eq!(solutions.len(), 1);
    // the circuit and its recipe, cable, copper plate and iron plate with
    // their recipes, and the two ores
    assert_eq!(solutions[0].data.node_count(), 10);
    assert_eq!(solutions[0].data.edge_count(), 9);
    assert_eq!(solutions[0].iter_nodes()[0], target);
}

#[test]
fn absent_target_is_not_found() {
    let data = circuit_data();
    let graph = CraftingGraph::from_dataset(&data);
    assert!(graph.get_crafting_trees(Node::Item(99, 0), 10).is_none());
    let circuit = data.try_get_item(&name("electronic-circuit")).unwrap();
    assert!(graph.get_crafting_trees(Node::Item(circuit, 0), 10).is_none());
}

fn two_way_data() -> DataSet {
    let mut data = circuit_data();
    // a second, longer way to iron plate
    data.items.push(item("iron-gear", false));
    data.recipes.push(recipe("iron-gear", 1.0, &[(2, 0)], &[(1, 6)]));
    data.recipes.push(recipe("plate-from-gear", 1.0, &[(1, 6)], &[(2, 2)]));
    data
}

#[test]
fn each_alternative_recipe_is_a_solution() {
    let data = two_way_data();
    let graph = CraftingGraph::from_dataset(&data);
    let target = graph.get_item_node(&data, &name("electronic-circuit"));
    let solutions = graph.get_crafting_trees(target, 10).unwrap();
    assert_eq!(solutions.len(), 2);
    let mut sizes: Vec<usize> = solutions.iter().map(|s| s.data.node_count()).collect();
    sizes.sort();
    assert_eq!(sizes, vec![10, 12]);
}

#[test]
fn solution_count_is_capped() {
    let data = two_way_data();
    let graph = CraftingGraph::from_dataset(&data);
    let target = graph.get_item_node(&data, &name("electronic-circuit"));
    assert_eq!(graph.get_crafting_trees(target, 1).unwrap().len(), 1);
    assert_eq!(graph.get_crafting_trees(target, 0).unwrap().len(), 0);
}

#[test]
fn recipe_target_and_natural_target() {
    let data = circuit_data();
    let graph = CraftingGraph::from_dataset(&data);
    let target = graph.get_recipe_node(&data, &name("iron-plate"));
    let solutions = graph.get_crafting_trees(target, 5).unwrap();
    assert_eq!(solutions.len(), 1);
    assert_eq!(solutions[0].data.node_count(), 2);
    let ore = graph.get_item_node(&data, &name("iron-ore"));
    let solutions = graph.get_crafting_trees(ore, 5).unwrap();
    assert_eq!(solutions.len(), 1);
    assert_eq!(solutions[0].data.node_count(), 1);
}

#[test]
fn cycles_are_cut_during_enumeration() {
    let data = cyclic_data();
    let graph = CraftingGraph::from_dataset(&data);
    let target = graph.get_item_node(&data, &name("copper-wire"));
    let solutions = graph.get_crafting_trees(target, 10).unwrap();
    // wire <- wire recipe <- plate, and plate comes from ore or from unwire,
    // whose wire ingredient repeats the root and is left unexpanded
    assert_eq!(solutions.len(), 2);
    let mut sizes: Vec<usize> = solutions.iter().map(|s| s.data.node_count()).collect();
    sizes.sort();
    assert_eq!(sizes, vec![5, 5]);
}

#[test]
fn neighbours_are_ordered_by_tier() {
    let data = two_way_data();
    let graph = CraftingGraph::from_dataset(&data);
    let plate = graph.get_item_node(&data, &name("iron-plate"));
    let producers = graph.get_recipes_with_item_in_outputs(plate).unwrap();
    assert_eq!(producers.len(), 2);
    let nodes = graph.iter_nodes();
    let tiers: Vec<usize> = producers.iter().map(|&i| match nodes[i] {
        Node::Recipe(_, t) => t,
        Node::Item(..) => panic!("a producer is a recipe"),
    }).collect();
    assert!(tiers[0] <= tiers[1]);
    assert_eq!(tiers, vec![1, 3]);
    let circuit = graph.get_recipe_node(&data, &name("electronic-circuit"));
    assert_eq!(graph.get_ingredients_for_recipe_idx(circuit).unwrap().len(), 2);
    assert_eq!(graph.get_results_for_recipe_idxs(circuit).unwrap().len(), 1);
    assert!(graph.get_ingredients_for_recipe_idx(plate).is_none());
    assert_eq!(graph.get_items_as_ingredients_in_recipes_idxs(plate).unwrap().len(), 1);
}

#[test]
fn lookups_by_name() {
    let data = circuit_data();
    let graph = CraftingGraph::from_dataset(&data);
    assert_eq!(data.natural_items(), vec![0, 1]);
    assert_eq!(data.get_item(&name("copper-cable")), 4);
    assert_eq!(data.get_recipe(&name("iron-plate")), 2);
    assert_eq!(data.try_get_item(&name("uranium")), None);
    let idx = graph.get_item_idx_from_name(&data, &name("iron-plate")).unwrap();
    assert!(matches!(graph.iter_nodes()[idx], Node::Item(2, _)));
    assert!(graph.get_recipe_idx_from_name(&data, &name("nothing")).is_none());
    let node = graph.iter_nodes()[idx];
    assert_eq!(graph.get_node_idx(node), Some(idx));
    assert_eq!(graph.indices_to_nodes(&vec![idx]), vec![node]);
}

#[test]
fn categories_map_to_factory_kinds() {
    assert_eq!(DataSet::category_into_factory_kind(&name("crafting")), FactoryKind::Assembler);
    assert_eq!(DataSet::category_into_factory_kind(&name("advanced-crafting")), FactoryKind::Assembler);
    assert_eq!(DataSet::category_into_factory_kind(&name("oil-processing")), FactoryKind::OilRefinery);
    assert_eq!(DataSet::category_into_factory_kind(&name("smelting")), FactoryKind::Smelter);
    assert_eq!(DataSet::category_into_factory_kind(&name("centrifuging")), FactoryKind::Centrifuge);
    assert_eq!(DataSet::category_into_factory_kind(&name("chemistry")), FactoryKind::ChemicalPlant);
    assert_eq!(DataSet::category_into_factory_kind(&name("rocket-building")), FactoryKind::RocketSilo);
    assert_eq!(DataSet::category_into_factory_kind(&name("juggling")), FactoryKind::Assembler);
    assert!(DataSet::category_is_known(&name("chemistry")));
    assert!(!DataSet::category_is_known(&name("juggling")));
}

fn entry(n: &str, amount: usize) -> ItemJson {
    ItemJson { name: n.to_string(), amount }
}

#[test]
fn records_become_a_data_set() {
    let records = vec![
        RecipeRecord {
            name: name("iron-plate"),
            ingredients: IngredientField::Regular(vec![entry("iron-ore", 1)]),
            category: name("smelting"),
            products: vec![entry("iron-plate", 1)],
            time: Duration::from_millis(3200),
        },
        RecipeRecord {
            name: name("iron-gear-wheel"),
            ingredients: IngredientField::Regular(vec![entry("iron-plate", 2)]),
            category: name("crafting"),
            products: vec![entry("iron-gear-wheel", 1)],
            time: Duration::from_millis(500),
        },
        RecipeRecord {
            name: name("water"),
            ingredients: IngredientField::Empty {},
            category: name("pumping"),
            products: vec![entry("water", 1200)],
            time: Duration::from_millis(1000),
        },
    ];
    let naturals = vec![name("iron-ore"), name("water")];
    let data = DataSet::from_records(&records, &naturals).expect("all amounts are decimals");
    assert_eq!(data.items.len(), 4);
    assert_eq!(data.natural_items().len(), 2);
    let gear = &data.recipes[1];
    assert_eq!(gear.ingredients, vec![(Decimal::from(2), data.get_item(&name("iron-plate")))]);
    assert_eq!(gear.factory_kind, FactoryKind::Assembler);
    assert_eq!(data.recipes[0].factory_kind, FactoryKind::Smelter);
    assert!(data.recipes[2].ingredients.is_empty());
    assert_eq!(data.recipes[2].results[0].0, Decimal::from(1200));
    let graph = CraftingGraph::from_dataset(&data);
    // the water recipe has no ingredient, so nothing leads to it
    assert_eq!(graph.iter_nodes().len(), 4 + 2);
    let _ = FactoryError::CantRepresentAmountAsDecimal(0);
}

#[test]
fn solutions_are_trees_of_graph_copies() {
    let data = two_way_data();
    let graph = CraftingGraph::from_dataset(&data);
    let target = graph.get_item_node(&data, &name("electronic-circuit"));
    let full_nodes = graph.iter_nodes();
    for solution in graph.get_crafting_trees(target, 10).unwrap() {
        let nodes = solution.iter_nodes();
        assert_eq!(nodes[0], target);
        assert_eq!(solution.data.edge_count() + 1, nodes.len());
        for (k, edge) in solution.data.raw_edges().iter().enumerate() {
            assert_eq!(edge.source().index(), k + 1);
            assert!(edge.target().index() < edge.source().index());
            let a = nodes[edge.source().index()];
            let b = nodes[edge.target().index()];
            assert_ne!(matches!(a, Node::Item(..)), matches!(b, Node::Item(..)));
            assert!(full_nodes.contains(&a) && full_nodes.contains(&b));
        }
        // every derived item has exactly one recipe hanging from it
        for (i, n) in nodes.iter().enumerate() {
            let children = solution.data.raw_edges().iter().filter(|e| e.target().index() == i).count();
            match n {
                Node::Item(e, _) if data.items[*e].natural => assert_eq!(children, 0),
                Node::Item(..) => assert_eq!(children, 1),
                Node::Recipe(r, _) => assert_eq!(children, data.recipes[*r].ingredients.len()),
            }
        }
    }
}

#[test]
fn tier_sum_adds_all_tiers() {
    let data = circuit_data();
    let graph = CraftingGraph::from_dataset(&data);
    // items 0 + 0 + 2 + 2 + 4 + 8, recipes 1 + 3 + 1 + 7
    assert_eq!(graph.tier_sum(), 28);
    let target = graph.get_item_node(&data, &name("electronic-circuit"));
    let solution = &graph.get_crafting_trees(target, 1).unwrap()[0];
    assert_eq!(solution.tier_sum(), 28);
}

#[test]
fn producers_come_cheapest_first_whatever_the_edge_order() {
    let mut g = petgraph::graph::Graph::<Node, Decimal, petgraph::Directed, usize>::with_capacity(0, 0);
    let plate = g.add_node(Node::Item(0, 5));
    let slow = g.add_node(Node::Recipe(0, 9));
    let fast = g.add_node(Node::Recipe(1, 2));
    g.add_edge(slow, plate, Decimal::from(1));
    g.add_edge(fast, plate, Decimal::from(1));
    let graph = CraftingGraph { data: g, natural_items: vec![] };
    let producers = graph.get_recipes_with_item_in_outputs(Node::Item(0, 5)).unwrap();
    assert_eq!(producers, vec![fast.index(), slow.index()]);
}
