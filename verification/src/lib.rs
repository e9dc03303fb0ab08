//! In-memory nutrition catalog: a record store of foods and meals,
//! unit conversion between mass, volume and serving quantities, and a
//! rebuildable search index (exact-match map plus a prefix trie for
//! autocomplete).
//!
//! The store owns the authoritative collections; each record's id is
//! its position. The search index is a derived projection, rebuilt
//! wholesale by `reindex` after any mutation that changes food names.

use vstd::prelude::*;

pub mod datepicker;
pub mod food;
pub mod meal;
pub mod nutrition;
pub mod search;

pub use food::{ConversionError, Food, FoodID, FoodQuantity};
pub use meal::{Date, Meal, MealID};
pub use nutrition::Nutrients;
pub use search::{FoodSearchResult, PrefixTree, SearchIndex};

use crate::food::{quantity_denominator, spec_converted};
use crate::meal::today_utc;
use crate::nutrition::spec_plus;
use crate::search::{spec_index_of, spec_search, SpecIndex};

verus! {

/// The authoritative store: foods, meals, and the derived search
/// index over the food names.
pub struct FoodDB {
    foods: Vec<Food>,
    meals: Vec<Meal>,
    food_index: SearchIndex,
}

/// Meal ids of the meals dated `(y, m, d)`, in store order.
pub open spec fn spec_meals_on(meals: Seq<Meal>, y: int, m: int, d: int) -> Seq<MealID>
    decreases meals.len(),
{
    if meals.len() == 0 {
        Seq::empty()
    } else {
        spec_meals_on(meals.drop_last(), y, m, d) + (if meals.last().time.year == y
            && meals.last().time.month == m && meals.last().time.day == d {
            seq![meals.last().id]
        } else {
            Seq::<MealID>::empty()
        })
    }
}

/// Search results trimmed to id and name, as autocomplete suggestions.
pub open spec fn spec_suggestions(idx: SpecIndex, name: Seq<char>) -> Seq<(u64, Seq<char>)> {
    spec_search(idx, name, 10).map_values(|x: (u64, Seq<char>, u32)| (x.0, x.1))
}

/// Suggestion vector to suggestion views, index-wise.
pub open spec fn suggestion_views(s: Seq<(FoodID, String)>) -> Seq<(u64, Seq<char>)> {
    s.map_values(|p: (FoodID, String)| (p.0, p.1@))
}

impl FoodDB {
    /// The food records, in id order.
    pub closed spec fn foods(self) -> Seq<Food> {
        self.foods@
    }

    /// The meal records, in id order.
    pub closed spec fn meals(self) -> Seq<Meal> {
        self.meals@
    }

    /// The ghost shape of the search index.
    pub closed spec fn index(self) -> SpecIndex {
        self.food_index@
    }

    /// An empty store.
    pub fn new() -> (r: FoodDB)
        ensures
            r.foods() == Seq::<Food>::empty(),
            r.meals() == Seq::<Meal>::empty(),
            r.index() == spec_index_of(Seq::<Food>::empty()),
    {
        FoodDB::default()
    }

    /// How many food records the store holds.
    pub fn food_count(&self) -> (n: usize)
        ensures
            n == self.foods().len(),
    {
        self.foods.len()
    }

    /// How many meal records the store holds.
    pub fn meal_count(&self) -> (n: usize)
        ensures
            n == self.meals().len(),
    {
        self.meals.len()
    }

    /// Append a default meal dated today at the next sequential id and
    /// return that id.
    pub fn new_meal(&mut self) -> (r: MealID)
        ensures
            r == old(self).meals().len(),
            final(self).foods() == old(self).foods(),
            final(self).index() == old(self).index(),
            final(self).meals().len() == old(self).meals().len() + 1,
            final(self).meals().drop_last() == old(self).meals(),
            final(self).meals().last().id == r,
            final(self).meals().last().name@ == Seq::<char>::empty(),
            final(self).meals().last().tags@ == Seq::<char>::empty(),
            final(self).meals().last().meal_name@ == Seq::<char>::empty(),
            final(self).meals().last().nutrients == (Nutrients {
                calories: 0u32,
                fats: 0u32,
                carbohydrates: 0u32,
                proteins: 0u32,
            }),
            final(self).meals().last().foods@ == Seq::<(FoodID, FoodQuantity)>::empty(),
            1 <= final(self).meals().last().time.month <= 12,
            1 <= final(self).meals().last().time.day <= 31,
    {
        let next_meal_id = self.meals.len();
        let mut created = Meal::default();
        created.id = next_meal_id;
        created.time = today_utc();
        self.meals.push(created);
        proof {
            assert(self.meals@.drop_last() =~= old(self).meals@);
        }
        next_meal_id
    }

    /// Append a default food (user-defined, conventional 100-gram
    /// basis) at the next sequential id, rebuild the search index, and
    /// return a mutable view so the caller can populate the record in
    /// place. The index reflects the record as returned; repopulating
    /// its name requires a `reindex`.
    pub fn new_food(&mut self) -> (food: &mut Food)
        ensures
            food.id == old(self).foods().len() as u64,
            food.user_defined == true,
            food.name@ == Seq::<char>::empty(),
            food.manufacturer@ == Seq::<char>::empty(),
            food.tags@ == Seq::<char>::empty(),
            food.nutrition == (Nutrients {
                calories: 0u32,
                fats: 0u32,
                carbohydrates: 0u32,
                proteins: 0u32,
            }),
            food.mass == 100,
            food.volume_of_100g == 0,
            food.servings_in_100g == 0,
            food.ingredients@ == Seq::<(FoodID, FoodQuantity)>::empty(),
            final(self).foods() == old(self).foods().push(*final(food)),
            final(self).meals() == old(self).meals(),
            final(self).index() == spec_index_of(old(self).foods().push(*food)),
    {
        let next_food_id = self.foods.len();
        let mut created = Food::default();
        created.id = next_food_id as u64;
        created.user_defined = true;
        self.foods.push(created);
        self.food_index.reindex(&self.foods);
        &mut self.foods[next_food_id]
    }

    /// Convert `quantity` of the food `food` and fold the result into
    /// the meal `meal`: add it to the running nutrient total and append
    /// the pair to the meal's food log.
    ///
    /// Returns true exactly when the food id and meal id both resolve
    /// and the food supports the quantity's unit; on any failure
    /// nothing is changed.
    pub fn add_food_to_meal(&mut self, meal: MealID, food: FoodID, quantity: FoodQuantity) -> (r:
        bool)
        ensures
            r == (food < old(self).foods().len() && meal < old(self).meals().len()
                && quantity_denominator(old(self).foods()[food as int], quantity) != 0),
            !r ==> *final(self) == *old(self),
            r ==> final(self).foods() == old(self).foods() && final(self).index() == old(
                self,
            ).index() && final(self).meals().len() == old(self).meals().len() && (forall|k: int|
                0 <= k < old(self).meals().len() && k != meal ==> final(self).meals()[k] == old(
                    self,
                ).meals()[k]) && {
                let before = old(self).meals()[meal as int];
                let after = final(self).meals()[meal as int];
                &&& after.id == before.id
                &&& after.name == before.name
                &&& after.tags == before.tags
                &&& after.time == before.time
                &&& after.meal_name == before.meal_name
                &&& after.nutrients == spec_plus(
                    before.nutrients,
                    spec_converted(old(self).foods()[food as int], quantity),
                )
                &&& after.foods@ == before.foods@.push((food, quantity))
            },
    {
        if food >= self.foods.len() as u64 {
            return false;
        }
        let nutrition = match self.foods[food as usize].get_nutrition(quantity) {
            Ok(n) => n,
            Err(_) => {
                return false;
            },
        };
        if meal >= self.meals.len() {
            return false;
        }
        let target = &mut self.meals[meal];
        let total = target.nutrients.plus(&nutrition);
        target.nutrients = total;
        target.foods.push((food, quantity));
        true
    }

    /// The food stored at `food_id`, if that id is in range. Ids are
    /// positions, so this is a bounds-checked lookup; a record whose
    /// stored id disagrees with its position is still returned, and the
    /// contract exposes the record so a caller can report the mismatch.
    pub fn get_food_from_id(&self, food_id: FoodID) -> (r: Option<&Food>)
        ensures
            r is Some <==> food_id < self.foods().len(),
            r is Some ==> *r.unwrap() == self.foods()[food_id as int],
    {
        if food_id >= self.foods.len() as u64 {
            None
        } else {
            Some(&self.foods[food_id as usize])
        }
    }

    /// Mutable view of the food stored at `food_id`. The stored id
    /// must agree with the position (a disagreement is an internal
    /// consistency violation).
    pub fn get_food_mut_from_id(&mut self, food_id: FoodID) -> (r: Option<&mut Food>)
        requires
            food_id < old(self).foods().len() ==> old(self).foods()[food_id as int].id == food_id,
        ensures
            match r {
                Some(f) => food_id < old(self).foods().len() && *f == old(self).foods()[
                food_id as int] && final(self).foods() == old(self).foods().update(
                    food_id as int,
                    *final(f),
                ) && final(self).meals() == old(self).meals() && final(self).index() == old(
                    self,
                ).index(),
                None => food_id >= old(self).foods().len() && *final(self) == *old(self),
            },
    {
        if food_id >= self.foods.len() as u64 {
            None
        } else {
            Some(&mut self.foods[food_id as usize])
        }
    }

    /// The meal stored at `meal_id`, if that id is in range.
    pub fn get_meal_from_id(&self, meal_id: MealID) -> (r: Option<&Meal>)
        ensures
            r is Some <==> meal_id < self.meals().len(),
            r is Some ==> *r.unwrap() == self.meals()[meal_id as int],
    {
        if meal_id >= self.meals.len() {
            None
        } else {
            Some(&self.meals[meal_id])
        }
    }

    /// Mutable view of the meal stored at `meal_id`, if in range.
    pub fn get_meal_mut_from_id(&mut self, meal_id: MealID) -> (r: Option<&mut Meal>)
        ensures
            match r {
                Some(m) => meal_id < old(self).meals().len() && *m == old(self).meals()[
                meal_id as int] && final(self).meals() == old(self).meals().update(
                    meal_id as int,
                    *final(m),
                ) && final(self).foods() == old(self).foods() && final(self).index() == old(
                    self,
                ).index(),
                None => meal_id >= old(self).meals().len() && *final(self) == *old(self),
            },
    {
        if meal_id >= self.meals.len() {
            None
        } else {
            Some(&mut self.meals[meal_id])
        }
    }

    /// Ids of every meal dated `(year, month, day)`, by linear scan,
    /// in store order.
    pub fn get_meals_from_date(&self, year: i32, month: u32, day: u32) -> (r: Vec<MealID>)
        ensures
            r@ == spec_meals_on(self.meals(), year as int, month as int, day as int),
    {
        let mut results: Vec<MealID> = Vec::new();
        let n = self.meals.len();
        proof {
            assert(self.meals@.take(0) =~= Seq::<Meal>::empty());
            assert(results@ =~= spec_meals_on(
                self.meals@.take(0),
                year as int,
                month as int,
                day as int,
            ));
        }
        let mut i: usize = 0;
        while i < n
            invariant
                n == self.meals@.len(),
                i <= n,
                results@ == spec_meals_on(
                    self.meals@.take(i as int),
                    year as int,
                    month as int,
                    day as int,
                ),
            decreases n - i,
        {
            let ghost pre = results@;
            let m = &self.meals[i];
            if m.time.year == year && m.time.month == month && m.time.day == day {
                results.push(m.id);
            }
            proof {
                assert(self.meals@.take(i + 1).drop_last() =~= self.meals@.take(i as int));
                assert(self.meals@.take(i + 1).last() == self.meals@[i as int]);
                if self.meals@[i as int].time.year == year && self.meals@[i as int].time.month
                    == month && self.meals@[i as int].time.day == day {
                    assert(results@ == pre.push(self.meals@[i as int].id));
                    assert(results@ =~= spec_meals_on(
                        self.meals@.take(i + 1),
                        year as int,
                        month as int,
                        day as int,
                    ));
                } else {
                    assert(results@ =~= spec_meals_on(
                        self.meals@.take(i + 1),
                        year as int,
                        month as int,
                        day as int,
                    ));
                }
            }
            i += 1;
        }
        proof {
            assert(self.meals@.take(n as int) =~= self.meals@);
        }
        results
    }

    /// Autocomplete suggestions for a partial food name: the id and
    /// name of every search hit, in search order (the default soft cap
    /// of ten applies).
    pub fn get_autocomplete_suggestions(&self, food_name: String) -> (r: Vec<(FoodID, String)>)
        ensures
            suggestion_views(r@) == spec_suggestions(self.index(), food_name@),
    {
        let hits = self.food_index.search(&food_name, None);
        let ghost full = crate::search::result_views(hits@);
        let mut results: Vec<(FoodID, String)> = Vec::new();
        proof {
            assert(suggestion_views(results@) =~= full.map_values(
                |x: (u64, Seq<char>, u32)| (x.0, x.1),
            ).take(0));
        }
        let n = hits.len();
        let mut i: usize = 0;
        while i < n
            invariant
                n == hits@.len(),
                full == crate::search::result_views(hits@),
                i <= n,
                suggestion_views(results@) == full.map_values(
                    |x: (u64, Seq<char>, u32)| (x.0, x.1),
                ).take(i as int),
            decreases n - i,
        {
            let ghost pre = results@;
            proof {
                let f = |x: (u64, Seq<char>, u32)| (x.0, x.1);
                assert(suggestion_views(pre).len() == pre.len());
                assert(full.map_values(f).take(i as int).len() == i);
            }
            let hit = &hits[i];
            results.push((hit.id, hit.name.clone()));
            proof {
                let f = |x: (u64, Seq<char>, u32)| (x.0, x.1);
                assert(results@ == pre.push((hits@[i as int].id, hits@[i as int].name)));
                assert(full[i as int] == (hits@[i as int].id, hits@[i as int].name@, hits@[
                i as int].relevance));
                assert forall|k: int| 0 <= k < i + 1 implies suggestion_views(results@)[k]
                    == full.map_values(f).take(i + 1)[k] by {
                    assert(full.map_values(f).take(i + 1)[k] == f(full[k]));
                    assert(suggestion_views(results@)[k] == (results@[k].0, results@[k].1@));
                    if k < i {
                        assert(results@[k] == pre[k]);
                        assert(suggestion_views(pre)[k] == (pre[k].0, pre[k].1@));
                        assert(full.map_values(f).take(i as int)[k] == f(full[k]));
                    } else {
                        assert(results@[k] == (hits@[i as int].id, hits@[i as int].name));
                    }
                }
                assert(suggestion_views(results@) =~= full.map_values(f).take(i + 1));
            }
            i += 1;
        }
        proof {
            let f = |x: (u64, Seq<char>, u32)| (x.0, x.1);
            assert(full.map_values(f).take(n as int) =~= full.map_values(f));
        }
        results
    }

    /// Rebuild the search index from the current food collection.
    pub fn reindex(&mut self)
        ensures
            final(self).foods() == old(self).foods(),
            final(self).meals() == old(self).meals(),
            final(self).index() == spec_index_of(old(self).foods()),
    {
        self.food_index.reindex(&self.foods);
    }
}

impl Default for FoodDB {
    /// An empty store.
    fn default() -> (r: FoodDB)
        ensures
            r.foods() == Seq::<Food>::empty(),
            r.meals() == Seq::<Meal>::empty(),
            r.index() == spec_index_of(Seq::<Food>::empty()),
    {
        let r = FoodDB { foods: Vec::new(), meals: Vec::new(), food_index: SearchIndex::empty() };
        proof {
            assert(r.foods() =~= Seq::<Food>::empty());
            assert(r.meals() =~= Seq::<Meal>::empty());
        }
        r
    }
}

} // verus!
