use lib::score::id::{EventId, EventScope, PartId, StaffId, VoiceId};

#[test]
fn a_voice_local_scope_necessarily_carries_a_voice() {
    let scope = EventScope::VoiceLocal(VoiceId::new("soprano"));
    assert_eq!(scope.voice(), Some(&VoiceId::new("soprano")));
    assert!(scope.is_local());
    assert!(!scope.is_global());
    assert_eq!(scope.to_string(), "voice:soprano");
}

#[test]
fn a_global_scope_has_no_voice_to_offer() {
    assert_eq!(EventScope::Global.voice(), None);
    assert!(EventScope::Global.is_global());
    assert_eq!(
        EventScope::StaffLocal(StaffId::new("upper")).voice(),
        None,
        "a staff is not a voice"
    );
    assert_eq!(EventScope::PartLocal(PartId::new("vln1")).voice(), None);
}

#[test]
fn identities_are_stable_text() {
    let id = EventId::new("umt:event:1");
    assert_eq!(id.as_str(), "umt:event:1");
    assert_eq!(id.to_string(), "umt:event:1");
    assert_eq!(id, EventId::new("umt:event:1"));
    assert_ne!(id, EventId::new("umt:event:2"));
}

#[test]
fn scopes_name_their_context_in_text() {
    assert_eq!(EventScope::StaffLocal(StaffId::new("upper")).to_string(), "staff:upper");
    assert_eq!(EventScope::PartLocal(PartId::new("vln1")).to_string(), "part:vln1");
    assert_eq!(EventScope::Global.to_string(), "global");
}
