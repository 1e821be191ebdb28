//! Core abstractions: idempotents, Karoubi splittings and their check, the four
//! categories of constitutive computation, and conservation by construction.

use vstd::prelude::*;
use crate::exact::eq_gives;
use std::marker::PhantomData;

verus! {

/// An idempotent endomorphism e: A → A with e∘e = e, named by its carrier and a
/// description. The image of e is the solution space.
#[derive(Debug)]
pub struct Idempotent<A> {
    /// The carrier, the ambient space A.
    pub carrier_label: String,
    /// What the idempotent does.
    pub description: String,
    pub marker: PhantomData<A>,
}

/// Result of checking a Karoubi splitting on sample points.
#[derive(Debug, Clone, Copy, PartialEq, Eq, Structural)]
pub struct SplittingVerification {
    /// r∘i = id_S held on every sample of S.
    pub ri_is_id: bool,
    /// i∘r = e held on every sample of A.
    pub ir_is_e: bool,
    /// Both held.
    pub is_valid: bool,
}

/// At `s`, one run of r∘i gave a value that `==` found equal to `s`.
pub open spec fn ri_holds_at<A, S: PartialEq, R: Fn(&A) -> S, I: Fn(&S) -> A>(r: R, i: I, s: S) -> bool {
    exists|a: A, t: S|
        #![trigger call_ensures(i, (&s,), a), call_ensures(r, (&a,), t)]
        call_ensures(i, (&s,), a) && call_ensures(r, (&a,), t) && eq_gives(s, t, true)
}

/// At `s`, one run of r∘i gave a value that `==` found unequal to `s`.
pub open spec fn ri_fails_at<A, S: PartialEq, R: Fn(&A) -> S, I: Fn(&S) -> A>(r: R, i: I, s: S) -> bool {
    exists|a: A, t: S|
        #![trigger call_ensures(i, (&s,), a), call_ensures(r, (&a,), t)]
        call_ensures(i, (&s,), a) && call_ensures(r, (&a,), t) && eq_gives(s, t, false)
}

/// At `a`, `==` found one run of i∘r equal to one run of e.
pub open spec fn ir_holds_at<A: PartialEq, S, R: Fn(&A) -> S, I: Fn(&S) -> A, E: Fn(&A) -> A>(
    r: R,
    i: I,
    e: E,
    a: A,
) -> bool {
    exists|s: S, x: A, y: A|
        #![trigger call_ensures(r, (&a,), s), call_ensures(i, (&s,), x), call_ensures(e, (&a,), y)]
        call_ensures(r, (&a,), s) && call_ensures(i, (&s,), x) && call_ensures(e, (&a,), y)
            && eq_gives(x, y, true)
}

/// At `a`, `==` found one run of i∘r unequal to one run of e.
pub open spec fn ir_fails_at<A: PartialEq, S, R: Fn(&A) -> S, I: Fn(&S) -> A, E: Fn(&A) -> A>(
    r: R,
    i: I,
    e: E,
    a: A,
) -> bool {
    exists|s: S, x: A, y: A|
        #![trigger call_ensures(r, (&a,), s), call_ensures(i, (&s,), x), call_ensures(e, (&a,), y)]
        call_ensures(r, (&a,), s) && call_ensures(i, (&s,), x) && call_ensures(e, (&a,), y)
            && eq_gives(x, y, false)
}

/// Check the splitting axioms of A —r→ S —i→ A against e on samples:
/// r∘i = id on every point of `test_points` and i∘r = e on every point of
/// `ambient_test`, each check stopping at its first failure.
pub fn verify_splitting<A: PartialEq, S: PartialEq, R: Fn(&A) -> S, I: Fn(&S) -> A, E: Fn(&A) -> A>(
    r: R,
    i: I,
    e: E,
    test_points: &[S],
    ambient_test: &[A],
) -> (v: SplittingVerification)
    requires
        forall|a: &A| call_requires(r, (a,)),
        forall|s: &S| call_requires(i, (s,)),
        forall|a: &A| call_requires(e, (a,)),
    ensures
        v.is_valid == (v.ri_is_id && v.ir_is_e),
        v.ri_is_id ==> forall|j: int|
            0 <= j < test_points@.len() ==> ri_holds_at(r, i, #[trigger] test_points@[j]),
        !v.ri_is_id ==> exists|j: int|
            0 <= j < test_points@.len() && ri_fails_at(r, i, #[trigger] test_points@[j]),
        v.ir_is_e ==> forall|j: int|
            0 <= j < ambient_test@.len() ==> ir_holds_at(r, i, e, #[trigger] ambient_test@[j]),
        !v.ir_is_e ==> exists|j: int|
            0 <= j < ambient_test@.len() && ir_fails_at(r, i, e, #[trigger] ambient_test@[j]),
{
    let mut ri_ok = true;
    let n = test_points.len();
    let mut j: usize = 0;
    while j < n && ri_ok
        invariant
            n == test_points@.len(),
            j <= n,
            forall|a: &A| call_requires(r, (a,)),
            forall|s: &S| call_requires(i, (s,)),
            ri_ok ==> forall|k: int|
                0 <= k < j ==> ri_holds_at(r, i, #[trigger] test_points@[k]),
            !ri_ok ==> exists|k: int|
                0 <= k < j && ri_fails_at(r, i, #[trigger] test_points@[k]),
        decreases n - j,
    {
        let s = &test_points[j];
        let ai = i(s);
        let ri_s = r(&ai);
        let same = *s == ri_s;
        if !same {
            ri_ok = false;
            assert(ri_fails_at(r, i, test_points@[j as int]));
        } else {
            assert(ri_holds_at(r, i, test_points@[j as int]));
        }
        j = j + 1;
    }

    let mut ir_ok = true;
    let m = ambient_test.len();
    let mut j: usize = 0;
    while j < m && ir_ok
        invariant
            m == ambient_test@.len(),
            j <= m,
            forall|a: &A| call_requires(r, (a,)),
            forall|s: &S| call_requires(i, (s,)),
            forall|a: &A| call_requires(e, (a,)),
            ir_ok ==> forall|k: int|
                0 <= k < j ==> ir_holds_at(r, i, e, #[trigger] ambient_test@[k]),
            !ir_ok ==> exists|k: int|
                0 <= k < j && ir_fails_at(r, i, e, #[trigger] ambient_test@[k]),
        decreases m - j,
    {
        let a = &ambient_test[j];
        let ra = r(a);
        let ir_a = i(&ra);
        let e_a = e(a);
        let same = ir_a == e_a;
        if !same {
            ir_ok = false;
            assert(ir_fails_at(r, i, e, ambient_test@[j as int]));
        } else {
            assert(ir_holds_at(r, i, e, ambient_test@[j as int]));
        }
        j = j + 1;
    }

    SplittingVerification { ri_is_id: ri_ok, ir_is_e: ir_ok, is_valid: ri_ok && ir_ok }
}

/// The four categories of constitutive computation.
#[derive(Debug, Clone, Copy, PartialEq, Eq, Structural)]
pub enum ComputationCategory {
    Hodge,
    CRDT,
    Symplectic,
    Warp,
}

/// The name of a category.
pub open spec fn category_name(c: ComputationCategory) -> Seq<char> {
    match c {
        ComputationCategory::Hodge => "Hodge"@,
        ComputationCategory::CRDT => "CRDT"@,
        ComputationCategory::Symplectic => "Symplectic"@,
        ComputationCategory::Warp => "Warp"@,
    }
}

impl ComputationCategory {
    /// The category's name, as it is displayed.
    pub fn to_string(&self) -> (r: String)
        ensures
            r@ == category_name(*self),
    {
        match self {
            ComputationCategory::Hodge => "Hodge".to_owned(),
            ComputationCategory::CRDT => "CRDT".to_owned(),
            ComputationCategory::Symplectic => "Symplectic".to_owned(),
            ComputationCategory::Warp => "Warp".to_owned(),
        }
    }
}

/// Conservation by construction: values of A are built from S through the
/// inclusion, and the retraction recognises the values that came from S.
pub struct ConservationByConstruction<A, S, I, R> {
    /// The inclusion S → A.
    pub inclusion: I,
    /// The retraction A → S, defined on the image of the inclusion.
    pub retraction: R,
    pub marker: PhantomData<(A, S)>,
}

/// At `s`, one run of the inclusion and then the retraction recognised the value.
pub open spec fn conserved_at<A, S, I: Fn(&S) -> A, R: Fn(&A) -> Option<S>>(inclusion: I, retraction: R, s: S) -> bool {
    exists|a: A, o: Option<S>|
        #![trigger call_ensures(inclusion, (&s,), a), call_ensures(retraction, (&a,), o)]
        call_ensures(inclusion, (&s,), a) && call_ensures(retraction, (&a,), o) && o is Some
}

/// At `s`, one run of the inclusion and then the retraction did not recognise the value.
pub open spec fn lost_at<A, S, I: Fn(&S) -> A, R: Fn(&A) -> Option<S>>(inclusion: I, retraction: R, s: S) -> bool {
    exists|a: A, o: Option<S>|
        #![trigger call_ensures(inclusion, (&s,), a), call_ensures(retraction, (&a,), o)]
        call_ensures(inclusion, (&s,), a) && call_ensures(retraction, (&a,), o) && o is None
}

impl<A, S, I: Fn(&S) -> A, R: Fn(&A) -> Option<S>> ConservationByConstruction<A, S, I, R> {
    /// The construction with this inclusion and retraction.
    pub fn new(inclusion: I, retraction: R) -> (r: Self)
        ensures
            r.inclusion == inclusion,
            r.retraction == retraction,
    {
        ConservationByConstruction { inclusion, retraction, marker: PhantomData }
    }

    /// Build a value of A from `s`, through the inclusion.
    pub fn construct(&self, s: &S) -> (r: A)
        requires
            call_requires(self.inclusion, (s,)),
        ensures
            call_ensures(self.inclusion, (s,), r),
    {
        (self.inclusion)(s)
    }

    /// Whether the retraction recognises `a` as coming from S.
    pub fn is_conserved(&self, a: &A) -> (r: bool)
        requires
            call_requires(self.retraction, (a,)),
        ensures
            exists|o: Option<S>| #[trigger] call_ensures(self.retraction, (a,), o) && r == o is Some,
    {
        let o = (self.retraction)(a);
        o.is_some()
    }

    /// Whether every value built from a point of `test_values` is recognised,
    /// checking the points in order and stopping at the first that is not.
    pub fn verify_conservation(&self, test_values: &[S]) -> (r: bool)
        requires
            forall|s: &S| call_requires(self.inclusion, (s,)),
            forall|a: &A| call_requires(self.retraction, (a,)),
        ensures
            r ==> forall|j: int|
                0 <= j < test_values@.len() ==> conserved_at(self.inclusion, self.retraction, #[trigger] test_values@[j]),
            !r ==> exists|j: int|
                0 <= j < test_values@.len() && lost_at(self.inclusion, self.retraction, #[trigger] test_values@[j]),
    {
        let n = test_values.len();
        let mut j: usize = 0;
        while j < n
            invariant
                n == test_values@.len(),
                j <= n,
                forall|s: &S| call_requires(self.inclusion, (s,)),
                forall|a: &A| call_requires(self.retraction, (a,)),
                forall|k: int| 0 <= k < j ==> conserved_at(self.inclusion, self.retraction, #[trigger] test_values@[k]),
            decreases n - j,
        {
            let a = self.construct(&test_values[j]);
            let o = (self.retraction)(&a);
            if o.is_none() {
                assert(lost_at(self.inclusion, self.retraction, test_values@[j as int]));
                return false;
            }
            assert(conserved_at(self.inclusion, self.retraction, test_values@[j as int]));
            j = j + 1;
        }
        true
    }
}

} // verus!
