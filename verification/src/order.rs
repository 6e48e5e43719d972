//! The capability an element type needs so that it can be sorted: a total
//! preorder (`le_spec`, total and transitive), an executable comparison that
//! agrees with it, and an executable way to duplicate a value.
//!
//! Antisymmetry is deliberately not required: distinct values may compare as
//! ties (each `le_spec` the other), and the sort keeps such values in their
//! original relative order.

use vstd::prelude::*;

verus! {

/// A total preorder together with the executable operations the sort needs.
pub trait TotalOrder: Sized {
    /// The ordering relation the sort is specified against.
    spec fn le_spec(self, other: Self) -> bool;

    /// Any two values are comparable.
    proof fn lemma_total(a: Self, b: Self)
        ensures
            a.le_spec(b) || b.le_spec(a),
    ;

    /// The relation is transitive.
    proof fn lemma_transitive(a: Self, b: Self, c: Self)
        requires
            a.le_spec(b),
            b.le_spec(c),
        ensures
            a.le_spec(c),
    ;

    /// Executable comparison, faithful to `le_spec`.
    fn le(&self, other: &Self) -> (r: bool)
        ensures
            r == self.le_spec(*other),
    ;

    /// An independent copy of the value.
    fn duplicate(&self) -> (r: Self)
        ensures
            r == *self,
    ;
}

impl TotalOrder for i64 {
    open spec fn le_spec(self, other: i64) -> bool {
        self <= other
    }

    proof fn lemma_total(a: i64, b: i64) {
    }

    proof fn lemma_transitive(a: i64, b: i64, c: i64) {
    }

    fn le(&self, other: &i64) -> (r: bool) {
        *self <= *other
    }

    fn duplicate(&self) -> (r: i64) {
        *self
    }
}

/// Two values tie: each is `le_spec` the other. Since antisymmetry is not
/// required, distinct values can tie; the sort keeps such values in their
/// original relative order.
pub open spec fn ties<T: TotalOrder>(a: T, b: T) -> bool {
    a.le_spec(b) && b.le_spec(a)
}

/// A value ordered by `key` alone, carrying a `tag` the order ignores.
/// Two values with equal keys and distinct tags are ties, so sorting a
/// sequence of these shows whether the sort is stable.
#[derive(Clone, Copy, Debug, PartialEq, Eq, Structural)]
pub struct Tagged {
    pub key: i64,
    pub tag: i64,
}

impl TotalOrder for Tagged {
    open spec fn le_spec(self, other: Tagged) -> bool {
        self.key <= other.key
    }

    proof fn lemma_total(a: Tagged, b: Tagged) {
    }

    proof fn lemma_transitive(a: Tagged, b: Tagged, c: Tagged) {
    }

    fn le(&self, other: &Tagged) -> (r: bool) {
        self.key <= other.key
    }

    fn duplicate(&self) -> (r: Tagged) {
        *self
    }
}

} // verus!
