//! The random 0/1 pattern of a key matrix, and the bounded search for one
//! that is invertible.
//!
//! Whether a pattern is invertible is decided by the caller, in floating
//! point; this module draws patterns and decides when to stop.
use vstd::prelude::*;
use crate::error::LatticeError;

verus! {

/// rand's `random`, drawn from the `Standard` distribution: any value may come
/// back, so nothing is stated of it.
pub assume_specification<T>[ rand::random::<T> ]() -> (r: T)
    where
        rand::distributions::Standard: rand::distributions::Distribution<T>,
;

/// The number of patterns drawn before the search gives up, where the caller
/// does not choose one.
pub const DEFAULT_MAX_KEY_ATTEMPTS: u32 = 1000;

/// The key cell of a random draw: 1 where the draw's last decimal digit is
/// below 5, else 0.
pub open spec fn key_cell_of(draw: u8) -> u8 {
    if draw % 10 < 5 {
        1
    } else {
        0
    }
}

/// The key cell of a random draw (see `key_cell_of`).
pub fn key_cell(draw: u8) -> (r: u8)
    ensures
        r == key_cell_of(draw),
{
    if draw % 10 < 5 {
        1
    } else {
        0
    }
}

/// The key pattern of a grid of random draws, cell by cell.
pub fn key_pattern(draws: &Vec<Vec<u8>>) -> (r: Vec<Vec<u8>>)
    ensures
        r.len() == draws.len(),
        forall|i: int| 0 <= i < r.len() ==> (#[trigger] r.deep_view()[i]).len() == draws.deep_view()[i].len(),
        forall|i: int, j: int|
            0 <= i < r.len() && 0 <= j < draws.deep_view()[i].len() ==> r.deep_view()[i][j] == key_cell_of(
                draws.deep_view()[i][j],
            ),
{
    let mut r: Vec<Vec<u8>> = Vec::new();
    let mut i: usize = 0;
    while i < draws.len()
        invariant
            0 <= i <= draws.len(),
            r.len() == i,
            forall|k: int| 0 <= k < i ==> (#[trigger] r.deep_view()[k]).len() == draws.deep_view()[k].len(),
            forall|k: int, j: int|
                0 <= k < i && 0 <= j < draws.deep_view()[k].len() ==> r.deep_view()[k][j] == key_cell_of(
                    draws.deep_view()[k][j],
                ),
        decreases draws.len() - i,
    {
        let d = &draws[i];
        assert(d@ == draws.deep_view()[i as int]);
        let mut row: Vec<u8> = Vec::new();
        let mut j: usize = 0;
        while j < d.len()
            invariant
                0 <= j <= d.len(),
                row@.len() == j,
                forall|m: int| 0 <= m < j ==> row@[m] == key_cell_of(d@[m]),
            decreases d.len() - j,
        {
            row.push(key_cell(d[j]));
            j += 1;
        }
        let ghost prev = r.deep_view();
        assert(row.deep_view() =~= row@);
        r.push(row);
        assert(r.deep_view() =~= prev.push(row@));
        i += 1;
    }
    r
}

/// Whether a matrix is `size` × `size` with every cell 0 or 1.
pub open spec fn is_square_pattern(m: Seq<Seq<u8>>, size: nat) -> bool {
    &&& m.len() == size
    &&& forall|i: int| 0 <= i < size ==> (#[trigger] m[i]).len() == size
    &&& forall|i: int, j: int| 0 <= i < size && 0 <= j < size ==> m[i][j] == 0 || m[i][j] == 1
}

/// A fresh random `size` × `size` key pattern: each cell is 1 or 0, each with
/// probability one half, independently of the others.
pub fn random_key_pattern(size: usize) -> (r: Vec<Vec<u8>>)
    ensures
        is_square_pattern(r.deep_view(), size as nat),
{
    let mut draws: Vec<Vec<u8>> = Vec::new();
    let mut i: usize = 0;
    while i < size
        invariant
            0 <= i <= size,
            draws.len() == i,
            forall|k: int| 0 <= k < i ==> (#[trigger] draws.deep_view()[k]).len() == size,
        decreases size - i,
    {
        let mut row: Vec<u8> = Vec::new();
        let mut j: usize = 0;
        while j < size
            invariant
                0 <= j <= size,
                row@.len() == j,
            decreases size - j,
        {
            row.push(rand::random::<u8>());
            j += 1;
        }
        let ghost prev = draws.deep_view();
        assert(row.deep_view() =~= row@);
        draws.push(row);
        assert(draws.deep_view() =~= prev.push(row@));
        i += 1;
    }
    key_pattern(&draws)
}

/// A bounded search for an invertible key: it counts the patterns tried and
/// stops with an error once the allowed number has been tried.
pub struct KeySearch {
    attempts: u32,
    max_attempts: u32,
}

/// What to do after a pattern was tested.
#[derive(Clone, Copy, Debug, PartialEq, Eq, Structural)]
pub enum KeyStep {
    /// The pattern is invertible: use it.
    Accept,
    /// The pattern is singular: draw another.
    Retry,
}

impl KeySearch {
    /// The number of patterns tested so far.
    pub closed spec fn spec_attempts(&self) -> nat {
        self.attempts as nat
    }

    /// The number of patterns that may be tested in all.
    pub closed spec fn spec_max_attempts(&self) -> nat {
        self.max_attempts as nat
    }

    /// A search that may test `max_attempts` patterns.
    pub fn new(max_attempts: u32) -> (r: KeySearch)
        ensures
            r.spec_attempts() == 0,
            r.spec_max_attempts() == max_attempts,
    {
        KeySearch { attempts: 0, max_attempts }
    }

    /// The number of patterns tested so far.
    pub fn attempts(&self) -> (r: u32)
        ensures
            r == self.spec_attempts(),
    {
        self.attempts
    }

    /// The number of patterns that may be tested in all.
    pub fn max_attempts(&self) -> (r: u32)
        ensures
            r == self.spec_max_attempts(),
    {
        self.max_attempts
    }

    /// Whether another pattern may be drawn and tested.
    pub fn may_draw(&self) -> (r: bool)
        ensures
            r == (self.spec_attempts() < self.spec_max_attempts()),
    {
        self.attempts < self.max_attempts
    }

    /// Records the test of one more pattern. An invertible pattern is
    /// accepted; a singular one asks for another draw while attempts remain,
    /// and ends the search with `SingularKey` once none remain.
    pub fn record(&mut self, singular: bool) -> (r: Result<KeyStep, LatticeError>)
        requires
            old(self).spec_attempts() < old(self).spec_max_attempts(),
        ensures
            final(self).spec_attempts() == old(self).spec_attempts() + 1,
            final(self).spec_max_attempts() == old(self).spec_max_attempts(),
            r == (if !singular {
                Ok::<KeyStep, LatticeError>(KeyStep::Accept)
            } else if final(self).spec_attempts() < final(self).spec_max_attempts() {
                Ok(KeyStep::Retry)
            } else {
                Err(LatticeError::SingularKey)
            }),
    {
        self.attempts = self.attempts + 1;
        if !singular {
            Ok(KeyStep::Accept)
        } else if self.attempts < self.max_attempts {
            Ok(KeyStep::Retry)
        } else {
            Err(LatticeError::SingularKey)
        }
    }
}

} // verus!
