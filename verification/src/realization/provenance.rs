//! Provenance references. A provenance record is stored once and referred
//! to by a stable identifier rather than copied into every object.
use vstd::prelude::*;
use vstd::string::StringExecFns;

verus! {

/// A stable reference to a provenance record; equality is equality of the
/// identifier text.
#[derive(Debug, Hash)]
pub struct ProvenanceId(String);

impl View for ProvenanceId {
    type V = Seq<char>;

    closed spec fn view(&self) -> Seq<char> {
        self.0@
    }
}

impl ProvenanceId {
    /// Wraps a stable identity.
    pub fn new(id: &str) -> (r: ProvenanceId)
        ensures
            r@ == id@,
    {
        ProvenanceId(String::from_str(id))
    }

    /// The identity text.
    pub fn as_str(&self) -> (r: &str)
        ensures
            r@ == self@,
    {
        self.0.as_str()
    }

    /// The identity text, owned.
    pub fn to_string(&self) -> (r: String)
        ensures
            r@ == self@,
    {
        self.0.clone()
    }

    /// Whether two identities are the same text.
    pub fn same(&self, other: &ProvenanceId) -> (r: bool)
        ensures
            r == (self@ == other@),
    {
        self.0 == other.0
    }
}

impl Clone for ProvenanceId {
    fn clone(&self) -> (r: Self)
        ensures
            r@ == self@,
            r == *self,
    {
        ProvenanceId(self.0.clone())
    }
}

impl PartialEq for ProvenanceId {
    fn eq(&self, other: &Self) -> (r: bool) {
        self.0 == other.0
    }
}

impl vstd::std_specs::cmp::PartialEqSpecImpl for ProvenanceId {
    open spec fn obeys_eq_spec() -> bool {
        true
    }

    open spec fn eq_spec(&self, other: &Self) -> bool {
        self@ == other@
    }
}

impl Eq for ProvenanceId {

}


/// Stable identity of an algorithm.
#[derive(Debug, Hash)]
pub struct AlgorithmId(String);

impl View for AlgorithmId {
    type V = Seq<char>;

    closed spec fn view(&self) -> Seq<char> {
        self.0@
    }
}

impl AlgorithmId {
    /// Wraps a stable identity.
    pub fn new(id: &str) -> (r: AlgorithmId)
        ensures
            r@ == id@,
    {
        AlgorithmId(String::from_str(id))
    }

    /// The identity text.
    pub fn as_str(&self) -> (r: &str)
        ensures
            r@ == self@,
    {
        self.0.as_str()
    }

    /// The identity text, owned.
    pub fn to_string(&self) -> (r: String)
        ensures
            r@ == self@,
    {
        self.0.clone()
    }

    /// Whether two identities are the same text.
    pub fn same(&self, other: &AlgorithmId) -> (r: bool)
        ensures
            r == (self@ == other@),
    {
        self.0 == other.0
    }
}

impl Clone for AlgorithmId {
    fn clone(&self) -> (r: Self)
        ensures
            r@ == self@,
            r == *self,
    {
        AlgorithmId(self.0.clone())
    }
}

impl PartialEq for AlgorithmId {
    fn eq(&self, other: &Self) -> (r: bool) {
        self.0 == other.0
    }
}

impl vstd::std_specs::cmp::PartialEqSpecImpl for AlgorithmId {
    open spec fn obeys_eq_spec() -> bool {
        true
    }

    open spec fn eq_spec(&self, other: &Self) -> bool {
        self@ == other@
    }
}

impl Eq for AlgorithmId {

}


/// The format and version an object was imported from or exported to.
#[derive(Debug, Clone, PartialEq, Eq)]
pub struct FormatVersion {
    /// The format's declared identifier.
    pub format: String,
    /// Its version.
    pub version: String,
}

} // verus!
