use fooddb::datepicker::{days_in_month, DatePicker};
use fooddb::{Date, FoodDB, FoodQuantity};

#[test]
fn make_empty_food_db() {
    let mut db = FoodDB::new();
    let _new_food = db.new_food();
    // Persistence is the host's concern; the store itself only
    // guarantees the record exists at the next id.
    assert_eq!(db.food_count(), 1);
}

#[test]
fn lib_make_empty_food_db() {
    let mut db = FoodDB::new();
    let _new_food = db.new_food();
    assert_eq!(db.food_count(), 1);
}

#[test]
fn make_single_entry_food_db() {
    let mut db = FoodDB::new();
    {
        let food = db.new_food();
        food.name = "Tasty Food".to_string();
        food.nutrition.proteins = 20_000; // 20 g, in milligrams.
        food.nutrition.fats = 20_000;
        food.nutrition.carbohydrates = 60_000;
        food.nutrition.calories = 9 * 20 + 4 * 20; // 9 calories per gram of fat.  4 per gram of carbs.
    }
    db.reindex();
    assert_eq!(db.food_count(), 1);
    db.reindex();
    assert_eq!(
        db.get_autocomplete_suggestions("Tasty".to_string()).len(),
        1
    );
}

#[test]
fn aggregator_consistency() {
    let mut db = FoodDB::new();
    let food_id = {
        let food = db.new_food();
        food.nutrition.calories = 200; // per 100 g
        food.id
    };
    let meal_id = db.new_meal();

    let ok = db.add_food_to_meal(meal_id, food_id, FoodQuantity::Mass(50));
    assert!(ok);

    let meal = db.get_meal_from_id(meal_id).unwrap();
    assert_eq!(meal.nutrients.calories, 100);
    assert_eq!(meal.foods, vec![(food_id, FoodQuantity::Mass(50))]);
}

#[test]
fn missing_record_safety() {
    let mut db = FoodDB::new();
    let food_id = {
        let food = db.new_food();
        food.nutrition.calories = 200;
        food.id
    };
    let meal_id = db.new_meal();
    assert!(db.add_food_to_meal(meal_id, food_id, FoodQuantity::Mass(10)));
    let calories_before = db.get_meal_from_id(meal_id).unwrap().nutrients.calories;
    let log_before = db.get_meal_from_id(meal_id).unwrap().foods.clone();

    // Non-existent food id: failure, nothing changes.
    assert!(!db.add_food_to_meal(meal_id, 99, FoodQuantity::Mass(10)));
    assert_eq!(
        db.get_meal_from_id(meal_id).unwrap().nutrients.calories,
        calories_before
    );
    assert_eq!(db.get_meal_from_id(meal_id).unwrap().foods, log_before);

    // Non-existent meal id: failure, nothing changes.
    assert!(!db.add_food_to_meal(99, food_id, FoodQuantity::Mass(10)));
    assert_eq!(
        db.get_meal_from_id(meal_id).unwrap().nutrients.calories,
        calories_before
    );
    assert_eq!(db.get_meal_from_id(meal_id).unwrap().foods, log_before);
}

#[test]
fn unsupported_unit_commits_nothing() {
    let mut db = FoodDB::new();
    let food_id = {
        let food = db.new_food();
        food.nutrition.calories = 200;
        food.volume_of_100g = 0; // no volume equivalence recorded
        food.id
    };
    let meal_id = db.new_meal();

    assert!(!db.add_food_to_meal(meal_id, food_id, FoodQuantity::Volume(250)));
    let meal = db.get_meal_from_id(meal_id).unwrap();
    assert_eq!(meal.nutrients.calories, 0);
    assert!(meal.foods.is_empty());
}

#[test]
fn ids_are_positions() {
    let mut db = FoodDB::new();
    assert_eq!(db.new_food().id, 0);
    assert_eq!(db.new_food().id, 1);
    assert_eq!(db.new_meal(), 0);
    assert_eq!(db.new_meal(), 1);
    assert_eq!(db.get_food_from_id(1).unwrap().id, 1);
    assert!(db.get_food_from_id(2).is_none());
    assert_eq!(db.get_meal_from_id(0).unwrap().id, 0);
    assert!(db.get_meal_from_id(2).is_none());
}

#[test]
fn new_meal_is_dated() {
    let mut db = FoodDB::new();
    let meal_id = db.new_meal();
    let meal = db.get_meal_from_id(meal_id).unwrap();
    assert!((1..=12).contains(&meal.time.month));
    assert!((1..=31).contains(&meal.time.day));
    assert!(meal.foods.is_empty());
    assert_eq!(meal.nutrients.calories, 0);
}

#[test]
fn meals_from_date_scans_in_store_order() {
    let mut db = FoodDB::new();
    let first = db.new_meal();
    let second = db.new_meal();
    let third = db.new_meal();

    db.get_meal_mut_from_id(first).unwrap().time = Date {
        year: 2020,
        month: 1,
        day: 15,
    };
    db.get_meal_mut_from_id(second).unwrap().time = Date {
        year: 2020,
        month: 2,
        day: 15,
    };
    db.get_meal_mut_from_id(third).unwrap().time = Date {
        year: 2020,
        month: 1,
        day: 15,
    };

    assert_eq!(db.get_meals_from_date(2020, 1, 15), vec![first, third]);
    assert_eq!(db.get_meals_from_date(2020, 2, 15), vec![second]);
    assert!(db.get_meals_from_date(1999, 1, 15).is_empty());
}

#[test]
fn autocomplete_suggestions_resolve_ids() {
    let mut db = FoodDB::new();
    {
        let food = db.new_food();
        food.name = "Oats".to_string();
    }
    {
        let food = db.new_food();
        food.name = "Olive Oil".to_string();
    }
    db.reindex();

    let suggestions = db.get_autocomplete_suggestions("o".to_string());
    assert_eq!(suggestions.len(), 2);
    assert!(suggestions.contains(&(0, "Oats".to_string())));
    assert!(suggestions.contains(&(1, "Olive Oil".to_string())));

    assert!(db
        .get_autocomplete_suggestions("zz".to_string())
        .is_empty());
}

#[test]
fn days_in_month_values() {
    assert_eq!(days_in_month(2023, 1), 31);
    assert_eq!(days_in_month(2023, 2), 28);
    assert_eq!(days_in_month(2024, 2), 29); // divisible by 4
    assert_eq!(days_in_month(1900, 2), 28); // century, not by 400
    assert_eq!(days_in_month(2000, 2), 29); // divisible by 400
    assert_eq!(days_in_month(2023, 4), 30);
    assert_eq!(days_in_month(2023, 12), 31);
}

#[test]
fn date_picker_wraps() {
    let mut picker = DatePicker::new();
    assert_eq!((picker.year, picker.month, picker.day), (2000, 1, 1));

    picker.month = 13;
    picker.wrap_month();
    assert_eq!(picker.month, 1);

    picker.month = 0;
    picker.wrap_month();
    assert_eq!(picker.month, 12);

    picker.month = 2;
    picker.day = 30;
    picker.wrap_day();
    assert_eq!(picker.day, 1);

    picker.day = 0;
    picker.wrap_day();
    assert_eq!(picker.day, 29); // February 2000 had 29 days.
}
