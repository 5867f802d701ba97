//! The algebraic interface shared by the segment trees: an associative
//! binary operation on a value type, together with the left-to-right fold
//! of a sequence under that operation.
//!
//! The operation is specified over the abstract views (`View::V`) of the
//! values, so that a value may carry owned storage (such as a byte vector)
//! and still be duplicated and combined with exact contracts.

use vstd::prelude::*;

verus! {

/// A value with an associative binary operation, supplied by the caller of
/// the segment trees. No identity element is required; a fold over an
/// empty range returns no value instead.
///
/// Implementors state the mathematical meaning of the operation with
/// `op_spec` over abstract views, prove it associative, and prove that
/// their `Clone` preserves the view; these are what let the trees promise
/// exact results.
pub trait Value: View + Clone + Sized {
    /// The mathematical meaning of the operation, on abstract views.
    spec fn op_spec(a: Self::V, b: Self::V) -> Self::V;

    /// The operation is associative.
    proof fn lemma_op_assoc(a: Self::V, b: Self::V, c: Self::V)
        ensures
            Self::op_spec(Self::op_spec(a, b), c) == Self::op_spec(a, Self::op_spec(b, c)),
    ;

    /// Cloning a value preserves its view.
    proof fn lemma_clone_view(a: Self, b: Self)
        requires
            vstd::pervasive::cloned::<Self>(a, b),
        ensures
            b@ == a@,
    ;

    /// The operation itself.
    fn op(&self, rhs: &Self) -> (r: Self)
        ensures
            r@ == Self::op_spec(self@, rhs@),
    ;

    /// `*self = op(*self, *rhs)`; the argument is folded in from the right.
    fn op_assign_from_the_right(&mut self, rhs: &Self)
        ensures
            final(self)@ == Self::op_spec(old(self)@, rhs@),
    {
        let v = self.op(rhs);
        *self = v;
    }

    /// `*self = op(*rhs, *self)`; the argument is folded in from the left.
    fn op_assign_from_the_left(&mut self, rhs: &Self)
        ensures
            final(self)@ == Self::op_spec(rhs@, old(self)@),
    {
        let v = rhs.op(self);
        *self = v;
    }
}

/// The sequence of views of a sequence of values.
pub open spec fn seq_views<T: View>(s: Seq<T>) -> Seq<T::V> {
    s.map_values(|x: T| x@)
}

/// `seq_views` has the same length as its argument.
pub broadcast proof fn lemma_seq_views_len<T: View>(s: Seq<T>)
    ensures
        #[trigger] seq_views(s).len() == s.len(),
{
}

/// `seq_views` indexes to the view of the element.
pub broadcast proof fn lemma_seq_views_index<T: View>(s: Seq<T>, i: int)
    requires
        0 <= i < s.len(),
    ensures
        #![trigger seq_views(s)[i]]
        #![trigger s[i]@]
        seq_views(s)[i] == s[i]@,
{
}

/// The left-to-right fold of a non-empty sequence of views:
/// `s[0] op s[1] op ... op s[len - 1]`, associated to the left.
pub open spec fn fold_seq<T: Value>(s: Seq<T::V>) -> T::V
    recommends
        s.len() >= 1,
    decreases s.len(),
{
    if s.len() <= 1 {
        s[0]
    } else {
        T::op_spec(fold_seq::<T>(s.drop_last()), s.last())
    }
}

/// Folding a concatenation folds the two halves and combines them:
/// the law that lets a tree assemble a range fold from node values.
pub proof fn lemma_fold_concat<T: Value>(s: Seq<T::V>, t: Seq<T::V>)
    requires
        s.len() >= 1,
        t.len() >= 1,
    ensures
        fold_seq::<T>(s + t) == T::op_spec(fold_seq::<T>(s), fold_seq::<T>(t)),
    decreases t.len(),
{
    if t.len() == 1 {
        assert((s + t).drop_last() =~= s);
        assert((s + t).last() == t[0]);
    } else {
        assert((s + t).drop_last() =~= s + t.drop_last());
        lemma_fold_concat::<T>(s, t.drop_last());
        T::lemma_op_assoc(fold_seq::<T>(s), fold_seq::<T>(t.drop_last()), t.last());
        assert((s + t).last() == t.last());
    }
}

/// A clone observed through `cloned` has the same view; a convenience
/// wrapper around the trait obligation for use at call sites.
pub proof fn clone_view_eq<T: Value>(a: T, b: T)
    requires
        vstd::pervasive::cloned::<T>(a, b),
    ensures
        b@ == a@,
{
    T::lemma_clone_view(a, b);
}

} // verus!
