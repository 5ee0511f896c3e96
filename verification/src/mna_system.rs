//! A sparse system of linear equations: its values and its factorization.

use crate::pattern::{is_compressed, MatrixSlot, MnaPattern};
use faer::sparse::linalg::solvers::SymbolicLu;
use faer::sparse::{FaerError, SymbolicSparseColMatRef};
use vstd::prelude::*;

verus! {

/// Why a system cannot be set up, factorized or solved.
#[derive(Debug, Clone, Copy, PartialEq, Eq, Structural)]
pub enum MnaError {
    IndexOverflow,
    OutOfMemory,
    Singular { index: usize },
    NotFactorized,
    RhsLengthMismatch { expected: usize, actual: usize },
    BackendFailure,
}

/// What the sparse solver reports where it cannot go on.
#[derive(Debug, Clone, Copy, PartialEq, Eq, Structural)]
pub enum SolverFailure {
    IndexOverflow,
    OutOfMemory,
    Other,
}

/// What the sparse solver reports where it cannot factorize.
#[derive(Debug, Clone, Copy, PartialEq, Eq, Structural)]
pub enum FactorFailure {
    SymbolicSingular { index: usize },
    Generic(SolverFailure),
}

impl MnaError {
    pub open spec fn of_solver(error: SolverFailure) -> Self {
        match error {
            SolverFailure::IndexOverflow => MnaError::IndexOverflow,
            SolverFailure::OutOfMemory => MnaError::OutOfMemory,
            SolverFailure::Other => MnaError::BackendFailure,
        }
    }

    pub open spec fn of_factor(error: FactorFailure) -> Self {
        match error {
            FactorFailure::SymbolicSingular { index } => MnaError::Singular { index },
            FactorFailure::Generic(error) => Self::of_solver(error),
        }
    }

    pub fn from_faer(error: SolverFailure) -> (result: Self)
        ensures
            result == Self::of_solver(error),
    {
        match error {
            SolverFailure::IndexOverflow => MnaError::IndexOverflow,
            SolverFailure::OutOfMemory => MnaError::OutOfMemory,
            SolverFailure::Other => MnaError::BackendFailure,
        }
    }

    pub fn from_lu(error: FactorFailure) -> (result: Self)
        ensures
            result == Self::of_factor(error),
    {
        match error {
            FactorFailure::SymbolicSingular { index } => MnaError::Singular { index },
            FactorFailure::Generic(error) => Self::from_faer(error),
        }
    }
}

/// What the sparse solver has found out about a pattern. Which pattern it is for is all that is
/// known of it.
#[verifier::external_body]
#[derive(Debug)]
pub struct SymbolicFactor {
    pub inner: SymbolicLu<u32>,
}

/// The pattern that the solver was given: the first places of the columns, and the rows.
pub uninterp spec fn analysed_pattern(factor: SymbolicFactor) -> (Seq<u32>, Seq<u32>);

/// Whether the sparse solver can count everything that it keeps about a pattern: the offsets of its
/// ordering are signed, the rows of its factors are numbered with 32 bits, and sums of rows and
/// products of sizes are machine words. The factors of a system of `n` unknowns have at most
/// `n * (n - 1) / 2` rows below their diagonals, whatever the ordering.
pub open spec fn is_countable(dimension: int, nnz: int) -> bool {
    &&& 2 * nnz + nnz / 5 + dimension <= i32::MAX
    &&& dimension * (dimension - 1) / 2 <= u32::MAX
    &&& dimension * (dimension + 1) <= usize::MAX
}

fn can_count(dimension: usize, nnz: usize) -> (result: bool)
    requires
        nnz <= u32::MAX,
    ensures
        result == is_countable(dimension as int, nnz as int),
{
    if dimension > 100_000 {
        assert(dimension * (dimension - 1) >= 100_001 * 100_000) by (nonlinear_arith)
            requires
                dimension > 100_000,
        ;
        return false;
    }
    let n: u64 = dimension as u64;
    let entries: u64 = nnz as u64;
    assert(n * (n + 1) <= 100_000 * 100_001) by (nonlinear_arith)
        requires
            n <= 100_000,
    ;
    assert(n * n <= n * (n + 1)) by (nonlinear_arith)
        requires
            n <= 100_000,
    ;
    assert(n <= n * n) by (nonlinear_arith)
        requires
            0 <= n,
    ;
    let square: u64 = n * n;
    let below: u64 = (square - n) / 2;
    assert(n * (n - 1) == n * n - n) by (nonlinear_arith);
    assert(n * (n + 1) == n * n + n) by (nonlinear_arith);
    2 * entries + entries / 5 + n <= i32::MAX as u64 && below <= u32::MAX as u64 && square + n
        <= usize::MAX as u64
}

/// `SymbolicLu::try_new` on the pattern that `SymbolicSparseColMatRef::new_checked` makes of
/// compressed columns: where it succeeds, the result is for that pattern. Whether it succeeds
/// depends on the memory that is left. Patterns for which its counters could overflow, as they
/// panic in builds with overflow checks, are left out.
#[verifier::external_body]
fn analyse(column_ptrs: &[u32], row_indices: &[u32]) -> (result: Result<
    SymbolicFactor,
    SolverFailure,
>)
    requires
        is_compressed(column_ptrs@, row_indices@),
        column_ptrs@.len() > 1,
        is_countable(column_ptrs@.len() - 1, row_indices@.len() as int),
    ensures
        result matches Ok(factor) ==> analysed_pattern(factor) == (column_ptrs@, row_indices@),
{
    let dimension: usize = column_ptrs.len() - 1;
    let pattern = SymbolicSparseColMatRef::new_checked(
        dimension,
        dimension,
        column_ptrs,
        None,
        row_indices,
    );
    match SymbolicLu::try_new(pattern) {
        Ok(inner) => Ok(SymbolicFactor { inner }),
        Err(FaerError::IndexOverflow) => Err(SolverFailure::IndexOverflow),
        Err(FaerError::OutOfMemory) => Err(SolverFailure::OutOfMemory),
        Err(_) => Err(SolverFailure::Other),
    }
}

/// The values of a system, as bit patterns, one for each place.
#[derive(Debug)]
pub struct MatrixValuesMut {
    values: Vec<u64>,
}

impl MatrixValuesMut {
    pub closed spec fn view(self) -> Seq<u64> {
        self.values@
    }

    fn zeros(count: usize) -> (result: Self)
        ensures
            result@ == Seq::new(count as nat, |i: int| 0u64),
    {
        let mut values: Vec<u64> = Vec::new();
        while values.len() < count
            invariant
                values@.len() <= count,
                forall|i: int| 0 <= i < values@.len() ==> #[trigger] values@[i] == 0,
            decreases count - values@.len(),
        {
            values.push(0);
        }
        assert(values@ =~= Seq::new(count as nat, |i: int| 0u64));
        MatrixValuesMut { values }
    }

    pub fn len(&self) -> (result: usize)
        ensures
            result == self@.len(),
    {
        self.values.len()
    }

    pub fn is_empty(&self) -> (result: bool)
        ensures
            result == (self@.len() == 0),
    {
        self.values.len() == 0
    }

    /// Sets all values to zero.
    pub fn clear(&mut self)
        ensures
            final(self)@ == Seq::new(old(self)@.len(), |i: int| 0u64),
    {
        let mut index: usize = 0;
        while index < self.values.len()
            invariant
                index <= self.values@.len() == old(self)@.len(),
                forall|i: int| 0 <= i < index ==> #[trigger] self.values@[i] == 0,
            decreases self.values@.len() - index,
        {
            self.values.set(index, 0);
            index = index + 1;
        }
        assert(self@ =~= Seq::new(old(self)@.len(), |i: int| 0u64));
    }

    pub fn get(&self, slot: MatrixSlot) -> (result: u64)
        requires
            slot.value() < self@.len(),
        ensures
            result == self@[slot.value() as int],
    {
        self.values[slot.index()]
    }

    pub fn set(&mut self, slot: MatrixSlot, value: u64)
        requires
            slot.value() < old(self)@.len(),
        ensures
            final(self)@ == old(self)@.update(slot.value() as int, value),
    {
        self.values.set(slot.index(), value);
    }

    /// Replaces all values.
    pub fn copy_from_slice(&mut self, source: &[u64])
        requires
            source@.len() == old(self)@.len(),
        ensures
            final(self)@ == source@,
    {
        let mut index: usize = 0;
        while index < self.values.len()
            invariant
                index <= self.values@.len() == source@.len(),
                forall|i: int| 0 <= i < index ==> #[trigger] self.values@[i] == source@[i],
            decreases self.values@.len() - index,
        {
            self.values.set(index, source[index]);
            index = index + 1;
        }
        assert(self@ =~= source@);
    }

    pub fn as_slice(&self) -> (result: &[u64])
        ensures
            result@ == self@,
    {
        self.values.as_slice()
    }
}

/// A system of linear equations. `F` is what the solver needs in order to solve it.
#[derive(Debug)]
pub struct MnaSystem<F> {
    pattern: MnaPattern,
    values: MatrixValuesMut,
    symbolic_lu: Option<SymbolicFactor>,
    numeric_lu: Option<F>,
}

impl<F> MnaSystem<F> {
    pub closed spec fn spec_pattern(self) -> MnaPattern {
        self.pattern
    }

    pub closed spec fn spec_values(self) -> Seq<u64> {
        self.values@
    }

    pub closed spec fn spec_numeric(self) -> Option<F> {
        self.numeric_lu
    }

    pub closed spec fn spec_symbolic(self) -> Option<SymbolicFactor> {
        self.symbolic_lu
    }

    /// There is a value for each entry, and what the solver found out is for this pattern.
    pub open spec fn wf(self) -> bool {
        &&& self.spec_pattern().wf()
        &&& self.spec_values().len() == self.spec_pattern().spec_nnz()
        &&& self.spec_pattern().spec_dimension() != 0 ==> {
            &&& self.spec_symbolic() matches Some(factor)
            &&& analysed_pattern(factor) == (
                self.spec_pattern().spec_ptrs(),
                self.spec_pattern().spec_rows(),
            )
        }
    }

    /// Sets a system up, with all values zero. What the solver says about the pattern decides
    /// whether this succeeds; a system without unknowns needs no solver, and one that the solver
    /// cannot count is refused.
    pub fn new(pattern: MnaPattern) -> (result: Result<Self, MnaError>)
        requires
            pattern.wf(),
        ensures
            pattern.spec_dimension() == 0 ==> result is Ok,
            pattern.spec_dimension() != 0 && !is_countable(
                pattern.spec_dimension(),
                pattern.spec_nnz(),
            ) ==> result == Err::<Self, _>(MnaError::IndexOverflow),
            match result {
                Ok(system) => {
                    &&& system.wf()
                    &&& system.spec_pattern() == pattern
                    &&& system.spec_values() == Seq::new(
                        pattern.spec_nnz() as nat,
                        |i: int| 0u64,
                    )
                    &&& system.spec_numeric() is None
                },
                Err(error) => exists|failure: SolverFailure|
                    error == #[trigger] MnaError::of_solver(failure),
            },
    {
        let analysis = if pattern.dimension() == 0 {
            None
        } else if !can_count(pattern.dimension(), pattern.nnz()) {
            Some(Err(SolverFailure::IndexOverflow))
        } else {
            Some(analyse(pattern.column_ptrs(), pattern.row_indices()))
        };
        Self::from_analysis(pattern, analysis)
    }

    /// The system that results from what the solver says about its pattern.
    pub fn from_analysis(
        pattern: MnaPattern,
        analysis: Option<Result<SymbolicFactor, SolverFailure>>,
    ) -> (result: Result<Self, MnaError>)
        requires
            pattern.wf(),
            pattern.spec_dimension() != 0 ==> analysis is Some,
            analysis matches Some(Ok(factor)) ==> analysed_pattern(factor) == (
                pattern.spec_ptrs(),
                pattern.spec_rows(),
            ),
        ensures
            match analysis {
                Some(Err(failure)) => result == Err::<Self, _>(MnaError::of_solver(failure)),
                _ => {
                    &&& result matches Ok(system)
                    &&& system.wf()
                    &&& system.spec_pattern() == pattern
                    &&& system.spec_values() == Seq::new(
                        pattern.spec_nnz() as nat,
                        |i: int| 0u64,
                    )
                    &&& system.spec_numeric() is None
                },
            },
    {
        let symbolic_lu = match analysis {
            None => None,
            Some(Ok(factor)) => Some(factor),
            Some(Err(failure)) => {
                return Err(MnaError::from_faer(failure));
            },
        };
        let values = MatrixValuesMut::zeros(pattern.nnz());
        Ok(MnaSystem { pattern, values, symbolic_lu, numeric_lu: None })
    }

    pub fn dimension(&self) -> (result: usize)
        requires
            self.wf(),
        ensures
            result == self.spec_pattern().spec_dimension(),
    {
        self.pattern.dimension()
    }

    pub fn nnz(&self) -> (result: usize)
        ensures
            result == self.spec_pattern().spec_nnz(),
    {
        self.pattern.nnz()
    }

    pub fn pattern(&self) -> (result: &MnaPattern)
        ensures
            *result == self.spec_pattern(),
    {
        &self.pattern
    }

    /// The values, as bit patterns.
    pub fn values(&self) -> (result: &[u64])
        ensures
            result@ == self.spec_values(),
    {
        self.values.as_slice()
    }

    /// The values, to be changed. The factorization is no longer good.
    pub fn values_mut(&mut self) -> (result: &mut MatrixValuesMut)
        ensures
            (*result)@ == old(self).spec_values(),
            final(self).spec_values() == (*final(result))@,
            final(self).spec_pattern() == old(self).spec_pattern(),
            final(self).spec_symbolic() == old(self).spec_symbolic(),
            final(self).spec_numeric() is None,
    {
        self.numeric_lu = None;
        &mut self.values
    }

    /// Whether the system can be solved as it is.
    pub open spec fn factorized(self) -> bool {
        self.spec_pattern().spec_dimension() == 0 || self.spec_numeric() is Some
    }

    pub fn is_factorized(&self) -> (result: bool)
        requires
            self.wf(),
        ensures
            result == self.factorized(),
    {
        self.dimension() == 0 || self.numeric_lu.is_some()
    }

    /// What the solver found out about the pattern; none where there is nothing to factorize.
    pub fn symbolic(&self) -> (result: Option<&SymbolicFactor>)
        requires
            self.wf(),
        ensures
            match result {
                Some(factor) => {
                    &&& self.spec_pattern().spec_dimension() != 0
                    &&& self.spec_symbolic() == Some(*factor)
                },
                None => self.spec_pattern().spec_dimension() == 0,
            },
    {
        if self.dimension() == 0 {
            return None;
        }
        self.symbolic_lu.as_ref()
    }

    /// Takes what the solver says when it factorizes the values.
    pub fn factorize(&mut self, factorization: Result<F, FactorFailure>) -> (result: Result<
        (),
        MnaError,
    >)
        requires
            old(self).wf(),
        ensures
            final(self).wf(),
            final(self).spec_pattern() == old(self).spec_pattern(),
            final(self).spec_values() == old(self).spec_values(),
            final(self).spec_symbolic() == old(self).spec_symbolic(),
            if old(self).spec_pattern().spec_dimension() == 0 {
                &&& result is Ok
                &&& final(self).spec_numeric() == old(self).spec_numeric()
            } else {
                match factorization {
                    Ok(factor) => {
                        &&& result is Ok
                        &&& final(self).spec_numeric() == Some(factor)
                    },
                    Err(failure) => {
                        &&& result == Err::<(), _>(MnaError::of_factor(failure))
                        &&& final(self).spec_numeric() == old(self).spec_numeric()
                    },
                }
            },
    {
        if self.dimension() == 0 {
            return Ok(());
        }
        match factorization {
            Ok(factor) => {
                self.numeric_lu = Some(factor);
                Ok(())
            },
            Err(failure) => Err(MnaError::from_lu(failure)),
        }
    }

    /// What a right-hand side of a length is solved with: none where there is nothing to solve.
    pub fn solver_for(&self, rhs_length: usize) -> (result: Result<Option<&F>, MnaError>)
        requires
            self.wf(),
        ensures
            if rhs_length != self.spec_pattern().spec_dimension() {
                result == Err::<Option<&F>, _>(
                    MnaError::RhsLengthMismatch {
                        expected: self.spec_pattern().spec_dimension() as usize,
                        actual: rhs_length,
                    },
                )
            } else if rhs_length == 0 {
                result matches Ok(None)
            } else {
                match self.spec_numeric() {
                    None => result == Err::<Option<&F>, _>(MnaError::NotFactorized),
                    Some(factor) => result matches Ok(Some(given)) && *given == factor,
                }
            },
    {
        let dimension: usize = self.dimension();
        if rhs_length != dimension {
            return Err(
                MnaError::RhsLengthMismatch { expected: dimension, actual: rhs_length },
            );
        }
        if dimension == 0 {
            return Ok(None);
        }
        match &self.numeric_lu {
            None => Err(MnaError::NotFactorized),
            Some(factor) => Ok(Some(factor)),
        }
    }
}

/// Changing values makes the factorization of a system with unknowns invalid, and nothing else: the
/// pattern and what the solver found out about it stay.
pub proof fn law_changed_values_need_a_new_factorization<F>(
    before: MnaSystem<F>,
    after: MnaSystem<F>,
)
    requires
        before.wf(),
        before.spec_pattern().spec_dimension() != 0,
        after.spec_pattern() == before.spec_pattern(),
        after.spec_symbolic() == before.spec_symbolic(),
        after.spec_values().len() == before.spec_values().len(),
        after.spec_numeric() is None,
    ensures
        after.wf(),
        !after.factorized(),
{
}

} // verus!
