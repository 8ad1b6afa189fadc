//! Declared ambient lattices `Gamma = Z^r` and their elements.
//!
//! Two ambient lattices of equal rank are not interchangeable unless they
//! are the same declared object: every operation checks the identity of the
//! lattice its operands belong to.
use crate::error::TemperamentError;
use std::sync::Arc;
use vstd::prelude::*;
use vstd::string::StringExecFns;

verus! {

/// Stable identity of a declared ambient lattice.
#[derive(Debug, Hash)]
pub struct LatticeId(String);

impl View for LatticeId {
    type V = Seq<char>;

    closed spec fn view(&self) -> Seq<char> {
        self.0@
    }
}

impl LatticeId {
    /// Wraps a stable lattice identity.
    pub fn new(id: &str) -> (r: LatticeId)
        ensures
            r@ == id@,
    {
        LatticeId(String::from_str(id))
    }

    /// The identity text.
    pub fn as_str(&self) -> (r: &str)
        ensures
            r@ == self@,
    {
        self.0.as_str()
    }

    /// The identity text, owned.
    pub fn to_string(&self) -> (r: String)
        ensures
            r@ == self@,
    {
        self.0.clone()
    }

    /// Whether two identities are the same text.
    pub fn same(&self, other: &LatticeId) -> (r: bool)
        ensures
            r == (self@ == other@),
    {
        self.0 == other.0
    }
}

impl Clone for LatticeId {
    fn clone(&self) -> (r: Self)
        ensures
            r@ == self@,
            r == *self,
    {
        LatticeId(self.0.clone())
    }
}

impl PartialEq for LatticeId {
    fn eq(&self, other: &Self) -> (r: bool) {
        self.0 == other.0
    }
}

impl vstd::std_specs::cmp::PartialEqSpecImpl for LatticeId {
    open spec fn obeys_eq_spec() -> bool {
        true
    }

    open spec fn eq_spec(&self, other: &Self) -> bool {
        self@ == other@
    }
}

impl Eq for LatticeId {

}

/// A declared ambient free abelian group `Z^r`, identified by its identity
/// and rank.
#[derive(Debug)]
pub struct AmbientLattice {
    id: LatticeId,
    rank: usize,
}

impl View for AmbientLattice {
    type V = (Seq<char>, nat);

    closed spec fn view(&self) -> (Seq<char>, nat) {
        (self.id@, self.rank as nat)
    }
}

impl Clone for AmbientLattice {
    fn clone(&self) -> (r: Self)
        ensures
            r@ == self@,
    {
        AmbientLattice { id: self.id.clone(), rank: self.rank }
    }
}

/// The coordinates of an element, as integers.
pub open spec fn coordinate_values(c: Seq<i64>) -> Seq<int> {
    c.map_values(|x: i64| x as int)
}

/// Coordinatewise sum.
pub open spec fn add_coordinates(a: Seq<int>, b: Seq<int>) -> Seq<int> {
    Seq::new(a.len(), |i: int| a[i] + b[i])
}

/// Coordinatewise negation.
pub open spec fn neg_coordinates(a: Seq<int>) -> Seq<int> {
    Seq::new(a.len(), |i: int| -a[i])
}

/// Coordinatewise difference.
pub open spec fn sub_coordinates(a: Seq<int>, b: Seq<int>) -> Seq<int> {
    Seq::new(a.len(), |i: int| a[i] - b[i])
}

/// The zero of `Z^r`.
pub open spec fn zero_coordinates(r: nat) -> Seq<int> {
    Seq::new(r, |i: int| 0)
}

/// Every coordinate fits the stored 64-bit range.
pub open spec fn coordinates_fit(a: Seq<int>) -> bool {
    forall|i: int| 0 <= i < a.len() ==> i64::MIN <= #[trigger] a[i] <= i64::MAX
}

impl AmbientLattice {
    /// Declares an ambient lattice of the given rank.
    pub fn new(id: &str, rank: usize) -> (r: Arc<AmbientLattice>)
        ensures
            r@ == (id@, rank as nat),
    {
        Arc::new(AmbientLattice { id: LatticeId::new(id), rank })
    }

    /// The lattice identity.
    pub fn id(&self) -> (r: &LatticeId)
        ensures
            r@ == self@.0,
    {
        &self.id
    }

    /// The rank `r`.
    pub fn rank(&self) -> (r: usize)
        ensures
            r == self@.1,
    {
        self.rank
    }

    /// Whether two ambient lattices are the same declared object: the same
    /// identity and rank.
    pub fn same_identity(&self, other: &AmbientLattice) -> (r: bool)
        ensures
            r == (self@ == other@),
    {
        self.id.same(&other.id) && self.rank == other.rank
    }

    /// Builds an element from coordinates, one per dimension.
    pub fn element(&self, coordinates: &[i64]) -> (r: Result<AmbientElem, TemperamentError>)
        ensures
            r is Ok <==> coordinates@.len() == self@.1,
            r matches Err(e) ==> e == (TemperamentError::CoordinateRank {
                expected: self@.1 as usize,
                found: coordinates@.len() as usize,
            }),
            r matches Ok(x) ==> x.lattice_view() == self@ && x.coordinates_view()
                == coordinate_values(coordinates@),
    {
        if coordinates.len() != self.rank {
            return Err(
                TemperamentError::CoordinateRank { expected: self.rank, found: coordinates.len() },
            );
        }
        let mut values: Vec<i64> = Vec::new();
        let mut k: usize = 0;
        while k < coordinates.len()
            invariant
                k <= coordinates@.len(),
                values@ == coordinates@.take(k as int),
            decreases coordinates@.len() - k,
        {
            values.push(coordinates[k]);
            proof {
                assert(values@ =~= coordinates@.take(k + 1));
            }
            k = k + 1;
        }
        proof {
            assert(values@ =~= coordinates@);
        }
        Ok(AmbientElem { lattice: self.clone(), coordinates: values })
    }

    /// The zero element.
    pub fn zero(&self) -> (r: AmbientElem)
        ensures
            r.lattice_view() == self@,
            r.coordinates_view() == zero_coordinates(self@.1),
    {
        let mut values: Vec<i64> = Vec::new();
        let mut k: usize = 0;
        while k < self.rank
            invariant
                k <= self.rank,
                values@.len() == k,
                forall|i: int| 0 <= i < k ==> values@[i] == 0,
            decreases self.rank - k,
        {
            values.push(0);
            k = k + 1;
        }
        let r = AmbientElem { lattice: self.clone(), coordinates: values };
        proof {
            assert(r.coordinates_view() =~= zero_coordinates(self@.1));
        }
        r
    }
}

/// An element of a declared ambient lattice, in ambient coordinates.
/// Equality is presentation equality: the same declared lattice and the
/// same coordinates.
#[derive(Debug)]
pub struct AmbientElem {
    lattice: AmbientLattice,
    coordinates: Vec<i64>,
}

impl AmbientElem {
    #[verifier::type_invariant]
    spec fn inv(self) -> bool {
        self.coordinates@.len() == self.lattice.rank
    }

    /// The lattice this element belongs to.
    pub closed spec fn lattice_view(&self) -> (Seq<char>, nat) {
        self.lattice@
    }

    /// The ambient coordinates.
    pub closed spec fn coordinates_view(&self) -> Seq<int> {
        coordinate_values(self.coordinates@)
    }

    /// The lattice this element belongs to.
    pub fn lattice(&self) -> (r: &AmbientLattice)
        ensures
            r@ == self.lattice_view(),
    {
        &self.lattice
    }

    /// The ambient coordinates, one per dimension of the lattice.
    pub fn coordinates(&self) -> (r: &[i64])
        ensures
            coordinate_values(r@) == self.coordinates_view(),
            r@.len() == self.lattice_view().1,
    {
        proof {
            use_type_invariant(self);
        }
        self.coordinates.as_slice()
    }

    /// Whether this is the zero element.
    pub fn is_zero(&self) -> (r: bool)
        ensures
            r == (forall|i: int|
                0 <= i < self.coordinates_view().len() ==> #[trigger] self.coordinates_view()[i]
                    == 0),
    {
        let mut k: usize = 0;
        while k < self.coordinates.len()
            invariant
                k <= self.coordinates@.len(),
                forall|i: int| 0 <= i < k ==> #[trigger] self.coordinates@[i] == 0,
            decreases self.coordinates@.len() - k,
        {
            if self.coordinates[k] != 0 {
                proof {
                    assert(self.coordinates_view()[k as int] != 0);
                }
                return false;
            }
            k = k + 1;
        }
        true
    }

    /// Group addition, within one declared lattice.
    pub fn checked_add(&self, other: &AmbientElem) -> (r: Result<AmbientElem, TemperamentError>)
        ensures
            self.lattice_view() != other.lattice_view() ==> (r matches Err(
                TemperamentError::AmbientMismatch { expected, found },
            ) && expected@ == self.lattice_view().0 && found@ == other.lattice_view().0),
            self.lattice_view() == other.lattice_view() ==> {
                let sum = add_coordinates(self.coordinates_view(), other.coordinates_view());
                &&& (r is Ok <==> coordinates_fit(sum))
                &&& (r is Err ==> r == Err::<AmbientElem, TemperamentError>(TemperamentError::Overflow))
                &&& (r matches Ok(x) ==> x.lattice_view() == self.lattice_view()
                    && x.coordinates_view() == sum)
            },
    {
        self.combine(other, false)
    }

    /// Group subtraction, within one declared lattice.
    pub fn checked_sub(&self, other: &AmbientElem) -> (r: Result<AmbientElem, TemperamentError>)
        ensures
            self.lattice_view() != other.lattice_view() ==> (r matches Err(
                TemperamentError::AmbientMismatch { expected, found },
            ) && expected@ == self.lattice_view().0 && found@ == other.lattice_view().0),
            self.lattice_view() == other.lattice_view() ==> {
                let difference = sub_coordinates(self.coordinates_view(), other.coordinates_view());
                &&& (r is Ok <==> coordinates_fit(difference))
                &&& (r is Err ==> r == Err::<AmbientElem, TemperamentError>(TemperamentError::Overflow))
                &&& (r matches Ok(x) ==> x.lattice_view() == self.lattice_view()
                    && x.coordinates_view() == difference)
            },
    {
        self.combine(other, true)
    }

    fn combine(&self, other: &AmbientElem, subtract: bool) -> (r: Result<AmbientElem, TemperamentError>)
        ensures
            self.lattice_view() != other.lattice_view() ==> (r matches Err(
                TemperamentError::AmbientMismatch { expected, found },
            ) && expected@ == self.lattice_view().0 && found@ == other.lattice_view().0),
            self.lattice_view() == other.lattice_view() ==> {
                let out = if subtract {
                    sub_coordinates(self.coordinates_view(), other.coordinates_view())
                } else {
                    add_coordinates(self.coordinates_view(), other.coordinates_view())
                };
                &&& (r is Ok <==> coordinates_fit(out))
                &&& (r is Err ==> r == Err::<AmbientElem, TemperamentError>(TemperamentError::Overflow))
                &&& (r matches Ok(x) ==> x.lattice_view() == self.lattice_view()
                    && x.coordinates_view() == out)
            },
    {
        proof {
            use_type_invariant(self);
            use_type_invariant(other);
        }
        if !self.lattice.same_identity(&other.lattice) {
            return Err(
                TemperamentError::AmbientMismatch {
                    expected: self.lattice.id.clone(),
                    found: other.lattice.id.clone(),
                },
            );
        }
        let ghost a = self.coordinates_view();
        let ghost b = other.coordinates_view();
        let ghost out = if subtract {
            sub_coordinates(a, b)
        } else {
            add_coordinates(a, b)
        };
        let mut values: Vec<i64> = Vec::new();
        let mut k: usize = 0;
        while k < self.coordinates.len()
            invariant
                self.lattice_view() == other.lattice_view(),
                self.coordinates@.len() == other.coordinates@.len(),
                a == coordinate_values(self.coordinates@),
                b == coordinate_values(other.coordinates@),
                out == (if subtract {
                    sub_coordinates(a, b)
                } else {
                    add_coordinates(a, b)
                }),
                k <= self.coordinates@.len(),
                values@.len() == k,
                forall|i: int| 0 <= i < k ==> values@[i] as int == #[trigger] out[i],
            decreases self.coordinates@.len() - k,
        {
            let x = self.coordinates[k];
            let y = other.coordinates[k];
            let z = if subtract {
                x.checked_sub(y)
            } else {
                x.checked_add(y)
            };
            match z {
                Some(v) => {
                    values.push(v);
                },
                None => {
                    proof {
                        assert(!(i64::MIN <= out[k as int] <= i64::MAX));
                    }
                    return Err(TemperamentError::Overflow);
                },
            }
            k = k + 1;
        }
        let r = AmbientElem { lattice: self.lattice.clone(), coordinates: values };
        proof {
            assert(r.coordinates_view() =~= out);
        }
        Ok(r)
    }

    /// The group inverse; an error where a coordinate is the one 64-bit
    /// value whose negation does not fit.
    pub fn neg(&self) -> (r: Result<AmbientElem, TemperamentError>)
        ensures
            r is Ok <==> coordinates_fit(neg_coordinates(self.coordinates_view())),
            r is Err ==> r == Err::<AmbientElem, TemperamentError>(TemperamentError::Overflow),
            r matches Ok(x) ==> x.lattice_view() == self.lattice_view() && x.coordinates_view()
                == neg_coordinates(self.coordinates_view()),
    {
        proof {
            use_type_invariant(self);
        }
        let ghost out = neg_coordinates(self.coordinates_view());
        let mut values: Vec<i64> = Vec::new();
        let mut k: usize = 0;
        while k < self.coordinates.len()
            invariant
                out == neg_coordinates(coordinate_values(self.coordinates@)),
                k <= self.coordinates@.len(),
                values@.len() == k,
                forall|i: int| 0 <= i < k ==> values@[i] as int == #[trigger] out[i],
            decreases self.coordinates@.len() - k,
        {
            let x = self.coordinates[k];
            if x == i64::MIN {
                proof {
                    assert(!(i64::MIN <= out[k as int] <= i64::MAX));
                }
                return Err(TemperamentError::Overflow);
            }
            values.push(-x);
            k = k + 1;
        }
        let r = AmbientElem { lattice: self.lattice.clone(), coordinates: values };
        proof {
            assert(r.coordinates_view() =~= out);
        }
        Ok(r)
    }
}

impl PartialEq for AmbientElem {
    fn eq(&self, other: &Self) -> (r: bool) {
        if !self.lattice.same_identity(&other.lattice) {
            return false;
        }
        if self.coordinates.len() != other.coordinates.len() {
            proof {
                assert(self.coordinates_view().len() != other.coordinates_view().len());
            }
            return false;
        }
        let mut k: usize = 0;
        while k < self.coordinates.len()
            invariant
                self.coordinates@.len() == other.coordinates@.len(),
                k <= self.coordinates@.len(),
                forall|i: int| 0 <= i < k ==> self.coordinates@[i] == other.coordinates@[i],
            decreases self.coordinates@.len() - k,
        {
            if self.coordinates[k] != other.coordinates[k] {
                proof {
                    assert(self.coordinates_view()[k as int] != other.coordinates_view()[k as int]);
                }
                return false;
            }
            k = k + 1;
        }
        proof {
            assert(self.coordinates_view() =~= other.coordinates_view());
        }
        true
    }
}

impl vstd::std_specs::cmp::PartialEqSpecImpl for AmbientElem {
    open spec fn obeys_eq_spec() -> bool {
        true
    }

    open spec fn eq_spec(&self, other: &Self) -> bool {
        self.lattice_view() == other.lattice_view() && self.coordinates_view()
            == other.coordinates_view()
    }
}

impl Eq for AmbientElem {

}

/// The coordinates of one lattice form an abelian group: addition commutes
/// and associates, zero is neutral, every element has an inverse, and
/// subtraction adds the inverse.
pub proof fn law_ambient_elements_form_a_group(a: Seq<int>, b: Seq<int>, c: Seq<int>)
    requires
        a.len() == b.len(),
        b.len() == c.len(),
    ensures
        add_coordinates(a, b) == add_coordinates(b, a),
        add_coordinates(add_coordinates(a, b), c) == add_coordinates(a, add_coordinates(b, c)),
        add_coordinates(a, zero_coordinates(a.len())) == a,
        add_coordinates(a, neg_coordinates(a)) == zero_coordinates(a.len()),
        sub_coordinates(a, b) == add_coordinates(a, neg_coordinates(b)),
        sub_coordinates(a, a) == zero_coordinates(a.len()),
{
    assert(add_coordinates(a, b) =~= add_coordinates(b, a));
    assert(add_coordinates(add_coordinates(a, b), c) =~= add_coordinates(a, add_coordinates(b, c)));
    assert(add_coordinates(a, zero_coordinates(a.len())) =~= a);
    assert(add_coordinates(a, neg_coordinates(a)) =~= zero_coordinates(a.len()));
    assert(sub_coordinates(a, b) =~= add_coordinates(a, neg_coordinates(b)));
    assert(sub_coordinates(a, a) =~= zero_coordinates(a.len()));
}

} // verus!
