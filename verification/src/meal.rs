//! Meal records: a running nutrient total plus an append-only log of
//! the foods that were added, stamped with the calendar date the meal
//! was created on.

use vstd::prelude::*;

use chrono::Datelike;

use crate::food::{FoodID, FoodQuantity};
use crate::nutrition::Nutrients;

verus! {

pub type MealID = usize;

/// A calendar date in the proleptic Gregorian calendar, as plain
/// values: year, month (1 through 12) and day of month (1 through 31).
#[derive(Clone, Copy, PartialEq, Eq, Structural, Debug)]
pub struct Date {
    pub year: i32,
    pub month: u32,
    pub day: u32,
}

/// One meal. `nutrients` is the running total over everything in
/// `foods`, updated only when a food is added; it is never recomputed
/// from the log, so it reflects the food records as they were at the
/// time each entry was appended.
#[derive(Clone, Debug)]
pub struct Meal {
    pub id: MealID,
    pub name: String,
    pub tags: String,
    /// The date the meal was created on.
    pub time: Date,
    /// Free-text slot label: breakfast, lunch, and so on.
    pub meal_name: String,
    /// Running total of everything added so far.
    pub nutrients: Nutrients,
    /// Append-only log of what was added, in order.
    pub foods: Vec<(FoodID, FoodQuantity)>,
}

/// The current date in UTC.
///
/// Relies on `chrono::Utc::now` and the `chrono::Datelike` accessors:
/// `month` is documented to range over 1 through 12 and `day` over 1
/// through 31. Nothing more can be said of the clock's value.
#[verifier::external_body]
pub fn today_utc() -> (d: Date)
    ensures
        1 <= d.month <= 12,
        1 <= d.day <= 31,
{
    let now = chrono::Utc::now();
    Date { year: now.year(), month: now.month(), day: now.day() }
}

impl Default for Meal {
    /// An unnamed, empty meal dated to the calendar origin.
    fn default() -> (r: Meal)
        ensures
            r.id == 0,
            r.name@ == Seq::<char>::empty(),
            r.tags@ == Seq::<char>::empty(),
            r.time == (Date { year: 0, month: 1, day: 1 }),
            r.meal_name@ == Seq::<char>::empty(),
            r.nutrients == (Nutrients {
                calories: 0u32,
                fats: 0u32,
                carbohydrates: 0u32,
                proteins: 0u32,
            }),
            r.foods@ == Seq::<(FoodID, FoodQuantity)>::empty(),
    {
        Meal {
            id: 0,
            name: String::new(),
            tags: String::new(),
            time: Date { year: 0, month: 1, day: 1 },
            meal_name: String::new(),
            nutrients: Nutrients::zero(),
            foods: Vec::new(),
        }
    }
}

} // verus!
