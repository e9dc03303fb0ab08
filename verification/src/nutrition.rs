//! The four-field nutrient vector and its arithmetic: scaling by a
//! rational factor (rounded to the nearest integer, saturating at the
//! type's maximum) and field-wise saturating addition.

use vstd::prelude::*;

verus! {

/// Nutrient content of some quantity of food.
///
/// `calories` is in integer calorie units; `fats`, `carbohydrates` and
/// `proteins` are in milligrams, so that fractional gram amounts are
/// exact integers.
#[derive(Clone, Copy, PartialEq, Eq, Structural, Debug)]
pub struct Nutrients {
    pub calories: u32,
    pub fats: u32,
    pub carbohydrates: u32,
    pub proteins: u32,
}

/// `a / d` rounded to the nearest integer (halves round up); `d > 0`.
pub open spec fn rounded_div(a: int, d: int) -> int {
    (a + d / 2) / d
}

/// Clamp a non-negative integer into `u32`.
pub open spec fn sat_u32(x: int) -> u32 {
    if x > u32::MAX {
        u32::MAX as u32
    } else {
        x as u32
    }
}

/// One nutrient field scaled by `num / den`, rounded to nearest, saturating.
pub open spec fn spec_scaled_field(value: u32, num: u32, den: u32) -> u32 {
    sat_u32(rounded_div(value * num, den as int))
}

/// `a + b` with saturation, on one field.
pub open spec fn spec_add_field(a: u32, b: u32) -> u32 {
    sat_u32(a + b)
}

/// The whole vector scaled by `num / den`.
pub open spec fn spec_scaled(n: Nutrients, num: u32, den: u32) -> Nutrients {
    Nutrients {
        calories: spec_scaled_field(n.calories, num, den),
        fats: spec_scaled_field(n.fats, num, den),
        carbohydrates: spec_scaled_field(n.carbohydrates, num, den),
        proteins: spec_scaled_field(n.proteins, num, den),
    }
}

/// Field-wise saturating sum of two vectors.
pub open spec fn spec_plus(a: Nutrients, b: Nutrients) -> Nutrients {
    Nutrients {
        calories: spec_add_field(a.calories, b.calories),
        fats: spec_add_field(a.fats, b.fats),
        carbohydrates: spec_add_field(a.carbohydrates, b.carbohydrates),
        proteins: spec_add_field(a.proteins, b.proteins),
    }
}

/// Scale one field by `num / den` in 64-bit arithmetic; no overflow is
/// possible since both products fit well below `u64::MAX`.
fn scaled_field(value: u32, num: u32, den: u32) -> (r: u32)
    requires
        den > 0,
    ensures
        r == spec_scaled_field(value, num, den),
{
    proof {
        assert(value * num <= u32::MAX * u32::MAX) by (nonlinear_arith)
            requires
                value <= u32::MAX,
                num <= u32::MAX,
        ;
    }
    let wide: u64 = (value as u64) * (num as u64) + (den as u64) / 2;
    let q: u64 = wide / (den as u64);
    if q > u32::MAX as u64 {
        u32::MAX
    } else {
        q as u32
    }
}

impl Nutrients {
    /// The all-zero vector.
    pub fn zero() -> (r: Nutrients)
        ensures
            r == (Nutrients { calories: 0u32, fats: 0u32, carbohydrates: 0u32, proteins: 0u32 }),
    {
        Nutrients { calories: 0, fats: 0, carbohydrates: 0, proteins: 0 }
    }

    /// All four fields multiplied by the rational factor `num / den`,
    /// each rounded to the nearest integer and saturating at `u32::MAX`.
    pub fn scaled(&self, num: u32, den: u32) -> (r: Nutrients)
        requires
            den > 0,
        ensures
            r == spec_scaled(*self, num, den),
    {
        Nutrients {
            calories: scaled_field(self.calories, num, den),
            fats: scaled_field(self.fats, num, den),
            carbohydrates: scaled_field(self.carbohydrates, num, den),
            proteins: scaled_field(self.proteins, num, den),
        }
    }

    /// Field-wise sum, saturating at `u32::MAX`.
    pub fn plus(&self, other: &Nutrients) -> (r: Nutrients)
        ensures
            r == spec_plus(*self, *other),
    {
        Nutrients {
            calories: self.calories.saturating_add(other.calories),
            fats: self.fats.saturating_add(other.fats),
            carbohydrates: self.carbohydrates.saturating_add(other.carbohydrates),
            proteins: self.proteins.saturating_add(other.proteins),
        }
    }
}

impl Default for Nutrients {
    /// The all-zero vector.
    fn default() -> (r: Nutrients)
        ensures
            r == (Nutrients { calories: 0u32, fats: 0u32, carbohydrates: 0u32, proteins: 0u32 }),
    {
        Nutrients { calories: 0, fats: 0, carbohydrates: 0, proteins: 0 }
    }
}

} // verus!
