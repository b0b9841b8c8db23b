//! A decoded pattern as a list of living cells, and moving it across the grid.
use crate::parsers::{parse_rle_string, pattern_atoms, MalformedPattern, RleSymbol};
use vstd::prelude::*;

verus! {

/// Why a pattern could not be turned into cells.
#[derive(Debug, Clone, Copy, PartialEq, Eq, Structural)]
pub enum PatternError {
    /// The text does not follow the pattern grammar.
    Malformed(MalformedPattern),
    /// A cell of the pattern lies beyond the `u32` coordinate range.
    TooLarge,
}

/// The living cells of a pattern, as `(x, y)` pairs in the order decoded.
#[derive(Clone, Debug, PartialEq, Eq)]
pub struct Shape {
    pub alive_cells: Vec<(u32, u32)>,
}

/// The cursor and the cells that `syms` grow from the origin, applied left to
/// right; `None` when the cursor would leave the `u32` range.
pub open spec fn grown(syms: Seq<RleSymbol>) -> Option<((u32, u32), Seq<(u32, u32)>)>
    decreases syms.len(),
{
    if syms.len() == 0 {
        Some(((0u32, 0u32), Seq::empty()))
    } else {
        match grown(syms.drop_last()) {
            Some((offset, cells)) => if syms.last().fits(offset) {
                Some((syms.last().next_offset(offset), cells + syms.last().emitted(offset)))
            } else {
                None
            },
            None => None,
        }
    }
}

/// The cells that the pattern text `s` describes, or why it describes none.
pub open spec fn decoded(s: Seq<char>) -> Result<Seq<(u32, u32)>, PatternError> {
    match pattern_atoms(s) {
        Ok(syms) => match grown(syms) {
            Some((_, cells)) => Ok(cells),
            None => Err(PatternError::TooLarge),
        },
        Err(e) => Err(PatternError::Malformed(e)),
    }
}

/// Whether every cell of `cells` moved by `d` stays within `u32`.
pub open spec fn shift_fits(cells: Seq<(u32, u32)>, d: (u32, u32)) -> bool {
    forall|i: int| 0 <= i < cells.len() ==> #[trigger] cells[i].0 + d.0 <= u32::MAX
        && cells[i].1 + d.1 <= u32::MAX
}

/// `cells`, each moved by `d`, in the same order.
pub open spec fn shifted(cells: Seq<(u32, u32)>, d: (u32, u32)) -> Seq<(u32, u32)> {
    Seq::new(cells.len(), |i: int| ((cells[i].0 + d.0) as u32, (cells[i].1 + d.1) as u32))
}

impl Shape {
    /// Decodes pattern text into the cells it makes alive, counted from the
    /// origin: `x` grows along a row, `y` from row to row.
    pub fn from_rle_string(rle_string: &str) -> (r: Result<Self, PatternError>)
        ensures
            r is Ok <==> decoded(rle_string@) is Ok,
            r is Ok ==> r->Ok_0.alive_cells@ == decoded(rle_string@)->Ok_0,
            r is Err ==> r->Err_0 == decoded(rle_string@)->Err_0,
    {
        let symbols = match parse_rle_string(rle_string) {
            Ok((_, symbols)) => symbols,
            Err(e) => {
                return Err(PatternError::Malformed(e));
            },
        };
        let ghost syms = symbols@;
        let mut offset: (u32, u32) = (0, 0);
        let mut alive_cells: Vec<(u32, u32)> = Vec::new();
        let mut i: usize = 0;
        assert(syms.take(0) =~= Seq::<RleSymbol>::empty());
        while i < symbols.len()
            invariant
                syms == symbols@,
                pattern_atoms(rle_string@) is Ok,
                syms == pattern_atoms(rle_string@)->Ok_0,
                i <= syms.len(),
                grown(syms.take(i as int)) == Some((offset, alive_cells@)),
            decreases symbols.len() - i,
        {
            let atom = symbols[i];
            assert(syms.take(i + 1).drop_last() =~= syms.take(i as int));
            let fits = match atom {
                RleSymbol::Dollar(n) => n <= u32::MAX - offset.1,
                RleSymbol::B(n) => n <= u32::MAX - offset.0,
                RleSymbol::O(n) => n <= u32::MAX - offset.0,
            };
            if !fits {
                proof {
                    assert(syms.take(i + 1).last() == atom);
                    assert(!atom.fits(offset));
                    assert(grown(syms.take(i + 1)) is None);
                    lemma_grown_stays_none(syms, (i + 1) as nat);
                }
                return Err(PatternError::TooLarge);
            }
            atom.grow_pattern(&mut offset, &mut alive_cells);
            i = i + 1;
        }
        assert(syms.take(i as int) =~= syms);
        Ok(Shape { alive_cells })
    }

    /// Whether `shift` can move every cell without leaving the `u32` range.
    pub fn can_shift(&self, shift: (u32, u32)) -> (r: bool)
        ensures
            r == shift_fits(self.alive_cells@, shift),
    {
        let mut i: usize = 0;
        while i < self.alive_cells.len()
            invariant
                i <= self.alive_cells@.len(),
                shift_fits(self.alive_cells@.take(i as int), shift),
            decreases self.alive_cells.len() - i,
        {
            let cell = self.alive_cells[i];
            if cell.0 > u32::MAX - shift.0 || cell.1 > u32::MAX - shift.1 {
                assert(!(self.alive_cells@[i as int].0 + shift.0 <= u32::MAX
                    && self.alive_cells@[i as int].1 + shift.1 <= u32::MAX));
                return false;
            }
            i = i + 1;
            assert forall|k: int| 0 <= k < i implies #[trigger] self.alive_cells@.take(i as int)[k].0
                + shift.0 <= u32::MAX && self.alive_cells@.take(i as int)[k].1 + shift.1
                <= u32::MAX by {
                if k < i - 1 {
                    assert(self.alive_cells@.take(i as int)[k] == self.alive_cells@.take(i - 1)[k]);
                }
            }
        }
        assert(self.alive_cells@.take(i as int) =~= self.alive_cells@);
        true
    }

    /// Moves every cell by `shift`, keeping their order and number.
    pub fn shift(&mut self, shift: (u32, u32))
        requires
            shift_fits(old(self).alive_cells@, shift),
        ensures
            final(self).alive_cells@ == shifted(old(self).alive_cells@, shift),
    {
        let ghost before = self.alive_cells@;
        let mut i: usize = 0;
        while i < self.alive_cells.len()
            invariant
                self.alive_cells@.len() == before.len(),
                i <= before.len(),
                shift_fits(before, shift),
                forall|k: int| 0 <= k < i ==> #[trigger] self.alive_cells@[k] == shifted(before, shift)[k],
                forall|k: int| i <= k < before.len() ==> #[trigger] self.alive_cells@[k] == before[k],
            decreases before.len() - i,
        {
            let cell = self.alive_cells[i];
            assert(before[i as int].0 + shift.0 <= u32::MAX);
            self.alive_cells.set(i, (cell.0 + shift.0, cell.1 + shift.1));
            i = i + 1;
        }
        assert(self.alive_cells@ =~= shifted(before, shift));
    }
}

proof fn lemma_grown_stays_none(syms: Seq<RleSymbol>, i: nat)
    requires
        i <= syms.len(),
        grown(syms.take(i as int)) is None,
    ensures
        grown(syms) is None,
    decreases syms.len() - i,
{
    if i < syms.len() {
        assert(syms.take((i + 1) as int).drop_last() =~= syms.take(i as int));
        lemma_grown_stays_none(syms, i + 1);
    } else {
        assert(syms.take(i as int) =~= syms);
    }
}

} // verus!
