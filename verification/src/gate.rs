//! The trait implemented by the user-defined gates of a circuit.

use vstd::prelude::*;

use crate::circuit::value::Ownership;
use crate::error::{Error, Result};

verus! {

/// The first `n` results of `f` are all `Ok`.
pub open spec fn all_ok<X>(n: usize, f: spec_fn(int) -> Result<X>) -> bool {
    forall|i: int| 0 <= i < n ==> (#[trigger] f(i)) is Ok
}

/// `e` is the error of the first of the first `n` results of `f` that is
/// not `Ok`.
pub open spec fn first_error<X>(n: usize, f: spec_fn(int) -> Result<X>, e: Error) -> bool {
    exists|k: int| 0 <= k < n && #[trigger] f(k) == Err::<X, Error>(e) && forall|i: int| 0 <= i < k ==> (#[trigger] f(i)) is Ok
}

/// `r` holds, in port order, the `n` results of `f` when all of them are
/// `Ok`, and otherwise the error of the first one that is not.
pub open spec fn collects<X>(r: Result<Vec<X>>, n: usize, f: spec_fn(int) -> Result<X>) -> bool {
    match r {
        Ok(v) => v@.len() == n && forall|i: int| 0 <= i < n ==> f(i) == Ok::<X, Error>(#[trigger] v@[i]),
        Err(e) => first_error(n, f, e),
    }
}

/// The access modes of the first `n` input ports of `gate`.
pub open spec fn port_modes<G: Gate>(gate: G, n: nat) -> Seq<Ownership> {
    Seq::new(n, |j: int| gate.spec_access_mode(j as usize)->Ok_0)
}

/// Trait implemented by a gate used inside a circuit.
///
/// A gate is a descriptor for a computational operation, typically an enum
/// of all possible gate types. Its methods describe a gate and nothing
/// else: an implementation promises that each of them gives the same answer
/// for the same gate and arguments, which the spec functions below name.
/// These promises are not checked on implementations outside this crate;
/// an implementation written in plain Rust defines each `spec_` method by
/// calling the method of the same name without the prefix.
pub trait Gate: Copy + Sized {
    /// The type descriptor for operands (e.g. ciphertext, plaintext).
    type Operand: Copy + Eq;

    /// The number of inputs of this gate.
    spec fn spec_input_count(&self) -> usize;

    /// The number of outputs of this gate.
    spec fn spec_output_count(&self) -> usize;

    /// The operand type at an input index, or the error for it.
    spec fn spec_input_type(&self, idx: usize) -> Result<Self::Operand>;

    /// The operand type at an output index, or the error for it.
    spec fn spec_output_type(&self, idx: usize) -> Result<Self::Operand>;

    /// The access mode at an input index, or the error for it.
    spec fn spec_access_mode(&self, idx: usize) -> Result<Ownership>;

    /// Number of inputs a gate of this kind consumes.
    fn input_count(&self) -> (r: usize)
        ensures
            r == self.spec_input_count(),
    ;

    /// Number of outputs a gate of this kind produces.
    fn output_count(&self) -> (r: usize)
        ensures
            r == self.spec_output_count(),
    ;

    /// Returns the operand type at the given input index.
    fn input_type(&self, idx: usize) -> (r: Result<Self::Operand>)
        ensures
            r == self.spec_input_type(idx),
    ;

    /// Returns the operand type at the given output index.
    fn output_type(&self, idx: usize) -> (r: Result<Self::Operand>)
        ensures
            r == self.spec_output_type(idx),
    ;

    /// Returns the access mode for the input at the given index.
    fn access_mode(&self, idx: usize) -> (r: Result<Ownership>)
        ensures
            r == self.spec_access_mode(idx),
    ;

    /// Returns all input types, in port order, or the first error.
    fn input_types(&self) -> (r: Result<Vec<Self::Operand>>)
        ensures
            collects(r, self.spec_input_count(), |i: int| self.spec_input_type(i as usize)),
    {
        let n = self.input_count();
        let mut types: Vec<Self::Operand> = Vec::new();
        let mut i: usize = 0;
        while i < n
            invariant
                i <= n,
                n == self.spec_input_count(),
                types@.len() == i,
                forall|j: int| 0 <= j < i ==> self.spec_input_type(j as usize) == Ok::<Self::Operand, Error>(#[trigger] types@[j]),
            decreases n - i,
        {
            match self.input_type(i) {
                Ok(t) => types.push(t),
                Err(e) => {
                    proof {
                        let f = |x: int| self.spec_input_type(x as usize);
                        assert forall|j: int| 0 <= j < i implies (#[trigger] f(j)) is Ok by {
                            assert(self.spec_input_type(j as usize) == Ok::<Self::Operand, Error>(types@[j]));
                        }
                        assert(f(i as int) == Err::<Self::Operand, Error>(e));
                    }
                    return Err(e);
                },
            }
            i = i + 1;
        }
        Ok(types)
    }

    /// Returns all output types, in port order, or the first error.
    fn output_types(&self) -> (r: Result<Vec<Self::Operand>>)
        ensures
            collects(r, self.spec_output_count(), |i: int| self.spec_output_type(i as usize)),
    {
        let n = self.output_count();
        let mut types: Vec<Self::Operand> = Vec::new();
        let mut i: usize = 0;
        while i < n
            invariant
                i <= n,
                n == self.spec_output_count(),
                types@.len() == i,
                forall|j: int| 0 <= j < i ==> self.spec_output_type(j as usize) == Ok::<Self::Operand, Error>(#[trigger] types@[j]),
            decreases n - i,
        {
            match self.output_type(i) {
                Ok(t) => types.push(t),
                Err(e) => {
                    proof {
                        let f = |x: int| self.spec_output_type(x as usize);
                        assert forall|j: int| 0 <= j < i implies (#[trigger] f(j)) is Ok by {
                            assert(self.spec_output_type(j as usize) == Ok::<Self::Operand, Error>(types@[j]));
                        }
                        assert(f(i as int) == Err::<Self::Operand, Error>(e));
                    }
                    return Err(e);
                },
            }
            i = i + 1;
        }
        Ok(types)
    }

    /// Returns all access modes, in port order, or the first error.
    fn access_modes(&self) -> (r: Result<Vec<Ownership>>)
        ensures
            collects(r, self.spec_input_count(), |i: int| self.spec_access_mode(i as usize)),
    {
        let n = self.input_count();
        let mut modes: Vec<Ownership> = Vec::new();
        let mut i: usize = 0;
        while i < n
            invariant
                i <= n,
                n == self.spec_input_count(),
                modes@.len() == i,
                forall|j: int| 0 <= j < i ==> self.spec_access_mode(j as usize) == Ok::<Ownership, Error>(#[trigger] modes@[j]),
            decreases n - i,
        {
            match self.access_mode(i) {
                Ok(m) => modes.push(m),
                Err(e) => {
                    proof {
                        let f = |x: int| self.spec_access_mode(x as usize);
                        assert forall|j: int| 0 <= j < i implies (#[trigger] f(j)) is Ok by {
                            assert(self.spec_access_mode(j as usize) == Ok::<Ownership, Error>(modes@[j]));
                        }
                        assert(f(i as int) == Err::<Ownership, Error>(e));
                    }
                    return Err(e);
                },
            }
            i = i + 1;
        }
        Ok(modes)
    }
}

} // verus!
