use fooddb::{Food, SearchIndex};

fn bootstrap_foods() -> Vec<Food> {
    let mut food_db = vec![];

    let mut sugar = Food::default();
    sugar.id = 0;
    sugar.name = "Sugar".to_string();
    sugar.manufacturer = "Old Mill".to_string();
    food_db.push(sugar);

    let mut splenda = Food::default();
    splenda.id = 1;
    splenda.name = "splenda".to_string();
    food_db.push(splenda);

    let mut generic_food = Food::default();
    generic_food.id = 2;
    generic_food.name = "food".to_string();
    food_db.push(generic_food);

    food_db
}

#[test]
fn test_search() {
    let foods = bootstrap_foods();
    let index = SearchIndex::new(&foods);

    let _search_results = index.search(&"sugar".to_string(), None);
}

#[test]
fn search_test_search() {
    let foods = bootstrap_foods();
    let index = SearchIndex::new(&foods);

    let _search_results = index.search(&"sugar".to_string(), None);
}

#[test]
fn exact_match_priority() {
    let foods = bootstrap_foods();
    let index = SearchIndex::new(&foods);

    let results = index.search(&"Sugar".to_string(), None);
    assert!(results.len() >= 1);
    assert_eq!(results[0].relevance, 1);
    assert_eq!(results[0].id, 0);
    assert_eq!(results[0].name, "Sugar");
    for r in results.iter().skip(1) {
        assert_eq!(r.relevance, 0);
    }
}

#[test]
fn inexact_query_has_no_relevance_one_entry() {
    let foods = bootstrap_foods();
    let index = SearchIndex::new(&foods);

    // Exact matching is case-sensitive; only prefix matches come back.
    let results = index.search(&"sugar".to_string(), None);
    assert!(!results.is_empty());
    for r in &results {
        assert_eq!(r.relevance, 0);
        assert_eq!(r.name, "Sugar");
        assert_eq!(r.id, 0);
    }
}

#[test]
fn reindex_is_idempotent() {
    let foods = bootstrap_foods();
    let mut index = SearchIndex::new(&foods);

    let queries = ["s", "Sugar", "sugar", "food", "asdf", ""];
    let before: Vec<Vec<(u64, String, u32)>> = queries
        .iter()
        .map(|q| {
            index
                .search(&q.to_string(), None)
                .into_iter()
                .map(|r| (r.id, r.name, r.relevance))
                .collect()
        })
        .collect();

    index.reindex(&foods);
    index.reindex(&foods);

    let after: Vec<Vec<(u64, String, u32)>> = queries
        .iter()
        .map(|q| {
            index
                .search(&q.to_string(), None)
                .into_iter()
                .map(|r| (r.id, r.name, r.relevance))
                .collect()
        })
        .collect();

    assert_eq!(before, after);
}

#[test]
fn reindex_drops_old_entries() {
    let foods = bootstrap_foods();
    let mut index = SearchIndex::new(&foods);
    assert!(!index.search(&"Sugar".to_string(), None).is_empty());

    let mut renamed = bootstrap_foods();
    renamed[0].name = "Honey".to_string();
    index.reindex(&renamed);

    assert!(index.search(&"Sugar".to_string(), None).is_empty());
    let honey = index.search(&"Honey".to_string(), None);
    assert_eq!(honey[0].id, 0);
    assert_eq!(honey[0].relevance, 1);
}

#[test]
fn later_entry_shadows_earlier_name() {
    let mut foods = bootstrap_foods();
    let mut other_sugar = Food::default();
    other_sugar.id = 3;
    other_sugar.name = "Sugar".to_string();
    foods.push(other_sugar);

    let index = SearchIndex::new(&foods);
    let results = index.search(&"Sugar".to_string(), None);
    assert_eq!(results[0].relevance, 1);
    assert_eq!(results[0].id, 3);
}
