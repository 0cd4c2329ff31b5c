//! Text as UTF-16 code units, text selections over them, and the
//! text-measurement service the layout engine consults.

use vstd::prelude::*;

use crate::geometry::GEOM_BOUND;

verus! {

/// A piece of text stored as UTF-16 code units. Selection indices and caret
/// positions count these units.
#[derive(Debug)]
pub struct Text16 {
    pub units: Vec<u16>,
}

impl Clone for Text16 {
    fn clone(&self) -> (r: Text16)
        ensures
            r@ == self@,
    {
        Text16 { units: self.units.clone() }
    }
}

impl View for Text16 {
    type V = Seq<u16>;

    open spec fn view(&self) -> Seq<u16> {
        self.units@
    }
}

impl PartialEq for Text16 {
    fn eq(&self, other: &Text16) -> (r: bool) {
        let mut i: usize = 0;
        if self.units.len() != other.units.len() {
            return false;
        }
        while i < self.units.len()
            invariant
                0 <= i <= self.units.len(),
                self.units.len() == other.units.len(),
                forall|j: int| 0 <= j < i ==> self.units@[j] == other.units@[j],
            decreases self.units.len() - i,
        {
            if self.units[i] != other.units[i] {
                return false;
            }
            i += 1;
        }
        proof {
            assert(self.units@ =~= other.units@);
        }
        true
    }
}

impl vstd::std_specs::cmp::PartialEqSpecImpl for Text16 {
    open spec fn obeys_eq_spec() -> bool {
        true
    }

    open spec fn eq_spec(&self, other: &Text16) -> bool {
        self.units@ == other.units@
    }
}

impl Text16 {
    /// The empty text.
    pub fn new() -> (r: Text16)
        ensures
            r@ == Seq::<u16>::empty(),
    {
        Text16 { units: Vec::new() }
    }

    pub fn from_units(units: Vec<u16>) -> (r: Text16)
        ensures
            r@ == units@,
    {
        Text16 { units }
    }

    /// The length in UTF-16 code units.
    pub fn len(&self) -> (r: usize)
        ensures
            r == self@.len(),
    {
        self.units.len()
    }

    pub fn is_empty(&self) -> (r: bool)
        ensures
            r == (self@.len() == 0),
    {
        self.units.len() == 0
    }

    /// Removes the unit at `index`.
    pub fn remove(&mut self, index: usize)
        requires
            index < old(self)@.len(),
        ensures
            final(self)@ == old(self)@.subrange(0, index as int) + old(self)@.subrange(
                index as int + 1,
                old(self)@.len() as int,
            ),
    {
        self.units.remove(index);
        proof {
            assert(final(self)@ =~= old(self)@.subrange(0, index as int) + old(self)@.subrange(
                index as int + 1,
                old(self)@.len() as int,
            ));
        }
    }

    /// Inserts `other` at `index`, shifting the tail right.
    pub fn insert_str(&mut self, index: usize, other: &Text16)
        requires
            index <= old(self)@.len(),
            old(self)@.len() + other@.len() <= usize::MAX,
        ensures
            final(self)@ == old(self)@.subrange(0, index as int) + other@ + old(self)@.subrange(
                index as int,
                old(self)@.len() as int,
            ),
    {
        let mut k: usize = 0;
        while k < other.units.len()
            invariant
                0 <= k <= other.units@.len(),
                index <= old(self)@.len(),
                old(self)@.len() + other@.len() <= usize::MAX,
                self.units@.len() == old(self)@.len() + k,
                self.units@ =~= old(self)@.subrange(0, index as int) + other@.subrange(0, k as int)
                    + old(self)@.subrange(index as int, old(self)@.len() as int),
            decreases other.units@.len() - k,
        {
            self.units.insert(index + k, other.units[k]);
            proof {
                assert(self.units@ =~= old(self)@.subrange(0, index as int) + other@.subrange(
                    0,
                    k as int + 1,
                ) + old(self)@.subrange(index as int, old(self)@.len() as int));
            }
            k += 1;
        }
        proof {
            assert(other@.subrange(0, other@.len() as int) =~= other@);
        }
    }

    /// The units from `from` (inclusive) to `to` (exclusive), or `None` when
    /// the range does not lie inside the text.
    pub fn get_string(&self, from: usize, to: usize) -> (r: Option<Text16>)
        ensures
            (from <= to <= self@.len()) ==> (r matches Some(part) && part@ == self@.subrange(
                from as int,
                to as int,
            )),
            !(from <= to <= self@.len()) ==> r is None,
    {
        if from > to || to > self.units.len() {
            return None;
        }
        let mut part: Vec<u16> = Vec::new();
        let mut k: usize = from;
        while k < to
            invariant
                from <= k <= to <= self.units@.len(),
                part@ =~= self.units@.subrange(from as int, k as int),
            decreases to - k,
        {
            part.push(self.units[k]);
            proof {
                assert(part@ =~= self.units@.subrange(from as int, k as int + 1));
            }
            k += 1;
        }
        Some(Text16 { units: part })
    }
}

impl Default for Text16 {
    fn default() -> (r: Text16)
        ensures
            r@ == Seq::<u16>::empty(),
    {
        Text16::new()
    }
}

/// A selection over the UTF-16 units of a text value: the caret sits at
/// `start_index`; `length` units after it are highlighted.
#[derive(Clone, Copy, Debug, PartialEq, Eq, Structural)]
pub struct TextSelection {
    pub start_index: usize,
    pub length: usize,
}

impl TextSelection {
    pub fn new(start_index: usize, length: usize) -> (r: TextSelection)
        ensures
            r == (TextSelection { start_index, length }),
    {
        TextSelection { start_index, length }
    }
}

impl Default for TextSelection {
    fn default() -> (r: TextSelection)
        ensures
            r == (TextSelection { start_index: 0, length: 0 }),
    {
        TextSelection { start_index: 0, length: 0 }
    }
}

/// The text-measurement service. Arrange passes consult it synchronously; the
/// result must be a pure function of the text, the font size and the font
/// name, and must stay inside the coordinate range — layout correctness
/// depends on stable measurement.
pub trait TextMeasurer: Sized {
    /// The width this measurer gives to a run of text.
    spec fn spec_width(&self, text: Seq<u16>, font_size: int, font: Seq<char>) -> int;

    /// Every measured width is a size in range.
    proof fn width_in_range(&self, text: Seq<u16>, font_size: int, font: Seq<char>)
        ensures
            0 <= self.spec_width(text, font_size, font) <= GEOM_BOUND as int,
    ;

    /// Measures the units of `text` from `from` (inclusive) to `to`
    /// (exclusive).
    fn measure(&self, text: &Text16, from: usize, to: usize, font_size: i64, font: &String) -> (r:
        i64)
        requires
            from <= to <= text@.len(),
        ensures
            r as int == self.spec_width(
                text@.subrange(from as int, to as int),
                font_size as int,
                font@,
            ),
    ;
}

/// A measurer that gives every code unit the same width: the fixed-pitch
/// model used by the tests. Widths clamp to the coordinate range.
pub struct UniformMeasurer {
    pub unit_width: i64,
}

impl UniformMeasurer {
    pub fn new(unit_width: i64) -> (r: UniformMeasurer)
        ensures
            r.unit_width == unit_width,
    {
        UniformMeasurer { unit_width }
    }
}

impl TextMeasurer for UniformMeasurer {
    open spec fn spec_width(&self, text: Seq<u16>, font_size: int, font: Seq<char>) -> int {
        let raw = self.unit_width * text.len();
        if self.unit_width <= 0 {
            0
        } else if raw > GEOM_BOUND as int {
            GEOM_BOUND as int
        } else {
            raw
        }
    }

    proof fn width_in_range(&self, text: Seq<u16>, font_size: int, font: Seq<char>) {
        if self.unit_width > 0 {
            assert(self.unit_width * text.len() >= 0) by (nonlinear_arith)
                requires
                    self.unit_width > 0,
                    text.len() >= 0,
            ;
        }
    }

    fn measure(&self, text: &Text16, from: usize, to: usize, font_size: i64, font: &String) -> (r:
        i64)
    {
        if self.unit_width <= 0 {
            return 0;
        }
        let n: usize = to - from;
        proof {
            let w = self.unit_width as int;
            let m = n as int;
            assert(w * m < 0x80000000000000000000000000000000int) by (nonlinear_arith)
                requires
                    0 < w < 0x8000000000000000int,
                    0 <= m < 0x10000000000000000int,
            ;
        }
        let raw: u128 = (self.unit_width as u128) * (n as u128);
        proof {
            assert(text@.subrange(from as int, to as int).len() == n);
        }
        if raw > GEOM_BOUND as u128 {
            GEOM_BOUND
        } else {
            raw as i64
        }
    }
}

} // verus!
