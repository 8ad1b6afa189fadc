//! Score identities and scopes. Identities are stable text, so they survive
//! serialization and stay meaningful across a document lineage.
use vstd::prelude::*;
use vstd::string::StringExecFns;

verus! {

/// Stable identity of a score event. Equal identities are not evidence of
/// musical ancestry: a transformation carries an explicit relation instead.
#[derive(Debug, Hash)]
pub struct EventId(String);

impl View for EventId {
    type V = Seq<char>;

    closed spec fn view(&self) -> Seq<char> {
        self.0@
    }
}

impl EventId {
    /// Wraps a stable identity.
    pub fn new(id: &str) -> (r: EventId)
        ensures
            r@ == id@,
    {
        EventId(String::from_str(id))
    }

    /// The identity text.
    pub fn as_str(&self) -> (r: &str)
        ensures
            r@ == self@,
    {
        self.0.as_str()
    }

    /// The identity text, owned.
    pub fn to_string(&self) -> (r: String)
        ensures
            r@ == self@,
    {
        self.0.clone()
    }

    /// Whether two identities are the same text.
    pub fn same(&self, other: &EventId) -> (r: bool)
        ensures
            r == (self@ == other@),
    {
        self.0 == other.0
    }
}

impl Clone for EventId {
    fn clone(&self) -> (r: Self)
        ensures
            r@ == self@,
            r == *self,
    {
        EventId(self.0.clone())
    }
}

impl PartialEq for EventId {
    fn eq(&self, other: &Self) -> (r: bool) {
        self.0 == other.0
    }
}

impl vstd::std_specs::cmp::PartialEqSpecImpl for EventId {
    open spec fn obeys_eq_spec() -> bool {
        true
    }

    open spec fn eq_spec(&self, other: &Self) -> bool {
        self@ == other@
    }
}

impl Eq for EventId {

}

/// Stable identity of a staff.
#[derive(Debug, Hash)]
pub struct StaffId(String);

impl View for StaffId {
    type V = Seq<char>;

    closed spec fn view(&self) -> Seq<char> {
        self.0@
    }
}

impl StaffId {
    /// Wraps a stable identity.
    pub fn new(id: &str) -> (r: StaffId)
        ensures
            r@ == id@,
    {
        StaffId(String::from_str(id))
    }

    /// The identity text.
    pub fn as_str(&self) -> (r: &str)
        ensures
            r@ == self@,
    {
        self.0.as_str()
    }

    /// The identity text, owned.
    pub fn to_string(&self) -> (r: String)
        ensures
            r@ == self@,
    {
        self.0.clone()
    }

    /// Whether two identities are the same text.
    pub fn same(&self, other: &StaffId) -> (r: bool)
        ensures
            r == (self@ == other@),
    {
        self.0 == other.0
    }
}

impl Clone for StaffId {
    fn clone(&self) -> (r: Self)
        ensures
            r@ == self@,
            r == *self,
    {
        StaffId(self.0.clone())
    }
}

impl PartialEq for StaffId {
    fn eq(&self, other: &Self) -> (r: bool) {
        self.0 == other.0
    }
}

impl vstd::std_specs::cmp::PartialEqSpecImpl for StaffId {
    open spec fn obeys_eq_spec() -> bool {
        true
    }

    open spec fn eq_spec(&self, other: &Self) -> bool {
        self@ == other@
    }
}

impl Eq for StaffId {

}

/// Stable identity of a part.
#[derive(Debug, Hash)]
pub struct PartId(String);

impl View for PartId {
    type V = Seq<char>;

    closed spec fn view(&self) -> Seq<char> {
        self.0@
    }
}

impl PartId {
    /// Wraps a stable identity.
    pub fn new(id: &str) -> (r: PartId)
        ensures
            r@ == id@,
    {
        PartId(String::from_str(id))
    }

    /// The identity text.
    pub fn as_str(&self) -> (r: &str)
        ensures
            r@ == self@,
    {
        self.0.as_str()
    }

    /// The identity text, owned.
    pub fn to_string(&self) -> (r: String)
        ensures
            r@ == self@,
    {
        self.0.clone()
    }

    /// Whether two identities are the same text.
    pub fn same(&self, other: &PartId) -> (r: bool)
        ensures
            r == (self@ == other@),
    {
        self.0 == other.0
    }
}

impl Clone for PartId {
    fn clone(&self) -> (r: Self)
        ensures
            r@ == self@,
            r == *self,
    {
        PartId(self.0.clone())
    }
}

impl PartialEq for PartId {
    fn eq(&self, other: &Self) -> (r: bool) {
        self.0 == other.0
    }
}

impl vstd::std_specs::cmp::PartialEqSpecImpl for PartId {
    open spec fn obeys_eq_spec() -> bool {
        true
    }

    open spec fn eq_spec(&self, other: &Self) -> bool {
        self@ == other@
    }
}

impl Eq for PartId {

}

/// Stable identity of a voice.
#[derive(Debug, Hash)]
pub struct VoiceId(String);

impl View for VoiceId {
    type V = Seq<char>;

    closed spec fn view(&self) -> Seq<char> {
        self.0@
    }
}

impl VoiceId {
    /// Wraps a stable identity.
    pub fn new(id: &str) -> (r: VoiceId)
        ensures
            r@ == id@,
    {
        VoiceId(String::from_str(id))
    }

    /// The identity text.
    pub fn as_str(&self) -> (r: &str)
        ensures
            r@ == self@,
    {
        self.0.as_str()
    }

    /// The identity text, owned.
    pub fn to_string(&self) -> (r: String)
        ensures
            r@ == self@,
    {
        self.0.clone()
    }

    /// Whether two identities are the same text.
    pub fn same(&self, other: &VoiceId) -> (r: bool)
        ensures
            r == (self@ == other@),
    {
        self.0 == other.0
    }
}

impl Clone for VoiceId {
    fn clone(&self) -> (r: Self)
        ensures
            r@ == self@,
            r == *self,
    {
        VoiceId(self.0.clone())
    }
}

impl PartialEq for VoiceId {
    fn eq(&self, other: &Self) -> (r: bool) {
        self.0 == other.0
    }
}

impl vstd::std_specs::cmp::PartialEqSpecImpl for VoiceId {
    open spec fn obeys_eq_spec() -> bool {
        true
    }

    open spec fn eq_spec(&self, other: &Self) -> bool {
        self@ == other@
    }
}

impl Eq for VoiceId {

}

/// What an event belongs to. A voice-local event necessarily carries a voice
/// identity; a global event has none.
#[derive(Debug, Clone, PartialEq, Eq, Hash)]
pub enum EventScope {
    /// Belongs to one voice.
    VoiceLocal(VoiceId),
    /// Belongs to a staff, without a distinguished voice.
    StaffLocal(StaffId),
    /// Belongs to a part.
    PartLocal(PartId),
    /// Genuinely global: a tempo mark, a rehearsal letter, a structural marker.
    Global,
}

/// The text form of a scope: `voice:`, `staff:` or `part:` and the identity,
/// or `global`.
pub open spec fn scope_text(scope: EventScope) -> Seq<char> {
    match scope {
        EventScope::VoiceLocal(v) => seq!['v', 'o', 'i', 'c', 'e', ':'] + v@,
        EventScope::StaffLocal(s) => seq!['s', 't', 'a', 'f', 'f', ':'] + s@,
        EventScope::PartLocal(p) => seq!['p', 'a', 'r', 't', ':'] + p@,
        EventScope::Global => seq!['g', 'l', 'o', 'b', 'a', 'l'],
    }
}

/// Two scopes are the same kind and name the same voice, staff or part.
pub open spec fn same_scope(a: EventScope, b: EventScope) -> bool {
    match (a, b) {
        (EventScope::VoiceLocal(x), EventScope::VoiceLocal(y)) => x@ == y@,
        (EventScope::StaffLocal(x), EventScope::StaffLocal(y)) => x@ == y@,
        (EventScope::PartLocal(x), EventScope::PartLocal(y)) => x@ == y@,
        (EventScope::Global, EventScope::Global) => true,
        _ => false,
    }
}

impl EventScope {
    /// The voice this scope names, if it names one.
    pub fn voice(&self) -> (r: Option<&VoiceId>)
        ensures
            match self {
                EventScope::VoiceLocal(v) => r == Some(v),
                _ => r is None,
            },
    {
        match self {
            EventScope::VoiceLocal(voice) => Some(voice),
            _ => None,
        }
    }

    /// Whether this scope is global.
    pub fn is_global(&self) -> (r: bool)
        ensures
            r == (self is Global),
    {
        match self {
            EventScope::Global => true,
            _ => false,
        }
    }

    /// Whether this scope attaches the event to a voice, a staff or a part.
    pub fn is_local(&self) -> (r: bool)
        ensures
            r == !(self is Global),
    {
        !self.is_global()
    }

    /// Whether two scopes are the same: the same kind, naming the same
    /// voice, staff or part.
    pub fn same(&self, other: &EventScope) -> (r: bool)
        ensures
            r == same_scope(*self, *other),
    {
        match (self, other) {
            (EventScope::VoiceLocal(a), EventScope::VoiceLocal(b)) => a.same(b),
            (EventScope::StaffLocal(a), EventScope::StaffLocal(b)) => a.same(b),
            (EventScope::PartLocal(a), EventScope::PartLocal(b)) => a.same(b),
            (EventScope::Global, EventScope::Global) => true,
            _ => false,
        }
    }

    /// The text form of the scope.
    pub fn to_string(&self) -> (r: String)
        ensures
            r@ == scope_text(*self),
    {
        proof {
            reveal_strlit("voice:");
            reveal_strlit("staff:");
            reveal_strlit("part:");
            reveal_strlit("global");
        }
        match self {
            EventScope::VoiceLocal(voice) => {
                let mut text = String::from_str("voice:");
                text.append(voice.as_str());
                text
            },
            EventScope::StaffLocal(staff) => {
                let mut text = String::from_str("staff:");
                text.append(staff.as_str());
                text
            },
            EventScope::PartLocal(part) => {
                let mut text = String::from_str("part:");
                text.append(part.as_str());
                text
            },
            EventScope::Global => String::from_str("global"),
        }
    }
}


/// Two scopes are the same exactly when their text forms agree: the same
/// kind naming the same voice, staff or part. Two staves, voices or parts
/// with different identities are different scopes.
pub proof fn law_same_scope_is_same_text(a: EventScope, b: EventScope)
    ensures
        same_scope(a, b) <==> scope_text(a) == scope_text(b),
{
    let ta = scope_text(a);
    let tb = scope_text(b);
    match (a, b) {
        (EventScope::VoiceLocal(x), EventScope::VoiceLocal(y)) => {
            if ta == tb {
                assert(x@ =~= ta.skip(6));
                assert(y@ =~= tb.skip(6));
            }
        },
        (EventScope::StaffLocal(x), EventScope::StaffLocal(y)) => {
            if ta == tb {
                assert(x@ =~= ta.skip(6));
                assert(y@ =~= tb.skip(6));
            }
        },
        (EventScope::PartLocal(x), EventScope::PartLocal(y)) => {
            if ta == tb {
                assert(x@ =~= ta.skip(5));
                assert(y@ =~= tb.skip(5));
            }
        },
        (EventScope::Global, EventScope::Global) => {},
        _ => {
            assert(ta.len() > 0 && tb.len() > 0);
            assert(ta[0] != tb[0] || ta[1] != tb[1]);
        },
    }
}
} // verus!
