use fooddb::{ConversionError, Food, FoodQuantity, Nutrients};

#[test]
fn test_amount_scaling() {
    let mut sugar = Food::default();
    sugar.name = String::from("sugar");

    sugar.mass = 100; // This should be 100 by default.
    sugar.volume_of_100g = 118290; // 118.29 mL, in thousandths of a millilitre.
    sugar.servings_in_100g = 3570; // 3.57 servings (a serving is 28 g), in thousandths.

    sugar.nutrition.calories = 387; // 387 calories per 100g.
    sugar.nutrition.carbohydrates = 10_000; // 10 g, in milligrams.
    sugar.nutrition.fats = 10_000;
    sugar.nutrition.proteins = 10_000;

    // Scale sugar.
    let sugar_5g = sugar.get_nutrition(FoodQuantity::Mass(5)).unwrap();
    let sugar_1tsp = sugar.get_nutrition(FoodQuantity::Volume(4900)).unwrap(); // 1 tsp = 4.9 mL
    // 16 calories in 1 tsp sugar (which is about 4.2 g).
    assert_eq!(sugar_5g.calories, 387 / 20);
    assert_eq!(sugar_1tsp.calories, 16);
}

#[test]
fn conversion_linearity() {
    let mut food = Food::default();
    food.mass = 100;
    food.nutrition.calories = 387;

    assert_eq!(
        food.get_nutrition(FoodQuantity::Mass(5)).unwrap().calories,
        19
    );
    assert_eq!(
        food.get_nutrition(FoodQuantity::Mass(200)).unwrap().calories,
        774
    );
}

#[test]
fn zero_denominator_guard() {
    let mut food = Food::default();
    food.nutrition.calories = 100;
    food.volume_of_100g = 0;

    let r = food.get_nutrition(FoodQuantity::Volume(250));
    assert_eq!(r, Err(ConversionError::UnsupportedUnit));

    food.servings_in_100g = 0;
    let r = food.get_nutrition(FoodQuantity::Serving(1000));
    assert_eq!(r, Err(ConversionError::UnsupportedUnit));

    food.mass = 0;
    let r = food.get_nutrition(FoodQuantity::Mass(50));
    assert_eq!(r, Err(ConversionError::UnsupportedUnit));
}

#[test]
fn conversion_does_not_mutate_the_food() {
    let mut food = Food::default();
    food.nutrition.calories = 250;
    food.nutrition.fats = 1_500;
    let _ = food.get_nutrition(FoodQuantity::Mass(30)).unwrap();
    assert_eq!(food.nutrition.calories, 250);
    assert_eq!(food.nutrition.fats, 1_500);
    assert_eq!(food.mass, 100);
}

#[test]
fn scaling_all_fields() {
    let n = Nutrients {
        calories: 200,
        fats: 9_000,
        carbohydrates: 30_000,
        proteins: 11_000,
    };
    let half = n.scaled(50, 100);
    assert_eq!(half.calories, 100);
    assert_eq!(half.fats, 4_500);
    assert_eq!(half.carbohydrates, 15_000);
    assert_eq!(half.proteins, 5_500);

    // Rounding is to the nearest integer: 387 * 5 / 100 = 19.35.
    let n2 = Nutrients {
        calories: 387,
        fats: 0,
        carbohydrates: 0,
        proteins: 0,
    };
    assert_eq!(n2.scaled(5, 100).calories, 19);
    // 1 / 3 scaled by 2: 0.67 rounds to 1.
    let n3 = Nutrients {
        calories: 2,
        fats: 2,
        carbohydrates: 2,
        proteins: 2,
    };
    assert_eq!(n3.scaled(1, 3).calories, 1);
}

#[test]
fn adding_saturates() {
    let a = Nutrients {
        calories: u32::MAX - 5,
        fats: 10,
        carbohydrates: 0,
        proteins: 0,
    };
    let b = Nutrients {
        calories: 10,
        fats: 20,
        carbohydrates: 7,
        proteins: 0,
    };
    let sum = a.plus(&b);
    assert_eq!(sum.calories, u32::MAX);
    assert_eq!(sum.fats, 30);
    assert_eq!(sum.carbohydrates, 7);
}
