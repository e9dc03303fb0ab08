use fooddb::{Food, PrefixTree};

fn bootstrap_foods() -> Vec<Food> {
    let mut food_db = vec![];

    let mut sugar = Food::default();
    sugar.name = "Sugar".to_string();
    sugar.manufacturer = "Old Mill".to_string();
    food_db.push(sugar);

    let mut splenda = Food::default();
    splenda.name = "splenda".to_string();
    food_db.push(splenda);

    let mut generic_food = Food::default();
    generic_food.name = "food".to_string();
    food_db.push(generic_food);

    food_db
}

#[test]
fn test_prefix_tree() {
    let mut autocomplete = PrefixTree::new();
    let foods = bootstrap_foods();
    for f in &foods {
        autocomplete.add_word(f.name.clone());
    }

    // Should find both splenda and sugar, but not 'food'.
    let res: Vec<String> = autocomplete.fuzzy_matches(&"s".to_string(), 10);
    assert!(res.contains(&"Sugar".to_string()));
    assert!(res.contains(&"splenda".to_string()));
    assert!(!res.contains(&"food".to_string()));

    let empty: Vec<String> = autocomplete.fuzzy_matches(&"asdf".to_string(), 10);
    assert!(empty.is_empty());

    let just_food: Vec<String> = autocomplete.fuzzy_matches(&"food".to_string(), 10);
    assert_eq!(vec!["food"], just_food);
}

#[test]
fn case_folded_lookup() {
    let mut autocomplete = PrefixTree::new();
    autocomplete.add_word("Sugar".to_string());

    // Traversal is over case-folded characters, so a mixed-case prefix
    // still reaches the case-preserved word.
    let res = autocomplete.fuzzy_matches(&"sU".to_string(), 10);
    assert_eq!(res, vec!["Sugar"]);
    let res = autocomplete.fuzzy_matches(&"SUGAR".to_string(), 10);
    assert_eq!(res, vec!["Sugar"]);
}

#[test]
fn soft_cap_can_overshoot() {
    let mut autocomplete = PrefixTree::new();
    autocomplete.add_word("xa".to_string());
    autocomplete.add_word("xb".to_string());
    autocomplete.add_word("xc".to_string());
    autocomplete.add_word("xd".to_string());

    // The cap is checked only after a whole child subtree is merged,
    // so the result may exceed it by the last batch.
    let res = autocomplete.fuzzy_matches(&"x".to_string(), 2);
    assert_eq!(res.len(), 3);
    assert_eq!(res, vec!["xa", "xb", "xc"]);
}

#[test]
fn duplicate_words_are_kept() {
    let mut autocomplete = PrefixTree::new();
    autocomplete.add_word("pear".to_string());
    autocomplete.add_word("pear".to_string());

    let res = autocomplete.fuzzy_matches(&"pe".to_string(), 10);
    assert_eq!(res, vec!["pear", "pear"]);
}

#[test]
fn empty_prefix_returns_everything() {
    let mut autocomplete = PrefixTree::new();
    autocomplete.add_word("ab".to_string());
    autocomplete.add_word("cd".to_string());

    let res = autocomplete.fuzzy_matches(&"".to_string(), 10);
    assert_eq!(res.len(), 2);
    assert!(res.contains(&"ab".to_string()));
    assert!(res.contains(&"cd".to_string()));
}
