//! Food records and unit conversion: a food stores its nutrients per a
//! canonical 100-unit basis, and a requested quantity (mass, volume or
//! servings) is converted to nutrients by a rational rescaling.

use vstd::prelude::*;

use crate::nutrition::{spec_scaled, Nutrients};

verus! {

/// How much of a food is requested.
///
/// `Mass` is in grams. `Volume` is in thousandths of a millilitre and
/// `Serving` in thousandths of a serving, so that fractional amounts
/// are exact integers.
#[derive(Clone, Copy, PartialEq, Eq, Structural, Debug)]
pub enum FoodQuantity {
    Mass(u32),
    Volume(u32),
    Serving(u32),
}

pub type FoodID = u64;

/// Why a conversion request was rejected.
#[derive(Clone, Copy, PartialEq, Eq, Structural, Debug)]
pub enum ConversionError {
    /// The food has no equivalence recorded for the requested unit
    /// (the stored denominator is zero), so no finite scale exists.
    UnsupportedUnit,
}

/// One food record. `nutrition` is always per the 100-unit basis:
/// `mass` grams, `volume_of_100g` thousandths of a millilitre, or
/// `servings_in_100g` thousandths of a serving are all descriptions of
/// that same reference quantity.
#[derive(Clone, Debug)]
pub struct Food {
    pub parent_id: FoodID,
    pub id: FoodID,
    pub name: String,
    pub manufacturer: String,
    /// Pipe-delimited tag set.
    pub tags: String,
    /// Nutrients in the canonical 100-unit basis.
    pub nutrition: Nutrients,
    /// Grams in the 100-unit basis; normally 100.
    pub mass: u32,
    /// Thousandths of a millilitre equivalent to the 100-unit basis;
    /// zero when never populated.
    pub volume_of_100g: u32,
    /// Thousandths of a serving equivalent to the 100-unit basis;
    /// zero when never populated.
    pub servings_in_100g: u32,
    pub user_defined: bool,
    /// For composite foods: what they are made of.
    pub ingredients: Vec<(FoodID, FoodQuantity)>,
}

/// The requested amount, in the unit picked by the quantity's tag.
pub open spec fn quantity_amount(q: FoodQuantity) -> u32 {
    match q {
        FoodQuantity::Mass(g) => g,
        FoodQuantity::Volume(v) => v,
        FoodQuantity::Serving(s) => s,
    }
}

/// The food's 100-unit equivalence in the same unit as the quantity:
/// the denominator of the scale factor.
pub open spec fn quantity_denominator(f: Food, q: FoodQuantity) -> u32 {
    match q {
        FoodQuantity::Mass(_) => f.mass,
        FoodQuantity::Volume(_) => f.volume_of_100g,
        FoodQuantity::Serving(_) => f.servings_in_100g,
    }
}

/// What a successful conversion returns: the stored per-100-unit
/// nutrients scaled by `amount / denominator`.
pub open spec fn spec_converted(f: Food, q: FoodQuantity) -> Nutrients {
    spec_scaled(f.nutrition, quantity_amount(q), quantity_denominator(f, q))
}

impl Food {
    /// Nutrients for `amount` of this food.
    ///
    /// Succeeds exactly when the food's equivalence for the requested
    /// unit is populated (non-zero); a zero denominator is rejected as
    /// `UnsupportedUnit` rather than divided by. The food itself is
    /// never changed.
    pub fn get_nutrition(&self, amount: FoodQuantity) -> (r: Result<
        Nutrients,
        ConversionError,
    >)
        ensures
            r is Ok <==> quantity_denominator(*self, amount) != 0,
            r is Ok ==> r == Ok::<Nutrients, ConversionError>(spec_converted(*self, amount)),
            r is Err ==> r == Err::<Nutrients, ConversionError>(ConversionError::UnsupportedUnit),
    {
        let (num, den): (u32, u32) = match amount {
            FoodQuantity::Mass(grams) => (grams, self.mass),
            FoodQuantity::Volume(milli_ml) => (milli_ml, self.volume_of_100g),
            FoodQuantity::Serving(milli_servings) => (milli_servings, self.servings_in_100g),
        };
        if den == 0 {
            Err(ConversionError::UnsupportedUnit)
        } else {
            Ok(self.nutrition.scaled(num, den))
        }
    }
}

impl Default for Food {
    /// An unnamed food with the conventional 100-gram basis and no
    /// volume or serving equivalence.
    fn default() -> (r: Food)
        ensures
            r.parent_id == 0,
            r.id == 1,
            r.name@ == Seq::<char>::empty(),
            r.manufacturer@ == Seq::<char>::empty(),
            r.tags@ == Seq::<char>::empty(),
            r.nutrition == (Nutrients {
                calories: 0u32,
                fats: 0u32,
                carbohydrates: 0u32,
                proteins: 0u32,
            }),
            r.mass == 100,
            r.volume_of_100g == 0,
            r.servings_in_100g == 0,
            r.user_defined == false,
            r.ingredients@ == Seq::<(FoodID, FoodQuantity)>::empty(),
    {
        Food {
            parent_id: 0,
            id: 1,
            name: String::new(),
            manufacturer: String::new(),
            tags: String::new(),
            nutrition: Nutrients::zero(),
            mass: 100,
            volume_of_100g: 0,
            servings_in_100g: 0,
            user_defined: false,
            ingredients: Vec::new(),
        }
    }
}

} // verus!
