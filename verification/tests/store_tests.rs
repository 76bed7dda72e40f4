use chat_server::clock::Timestamp;
use chat_server::entities::{RelStatus, StoreError, UserInfo};
use chat_server::store::{App, ConvSearch};

fn two_user_store() -> (App, u128, u128) {
    let mut app = App::new();
    let u1 = app.add_user("Ann", "a@x").unwrap();
    let u2 = app.add_user("Bo", "b@x").unwrap();
    let (a, b) = (u1.id(), u2.id());
    (app, a, b)
}

#[test]
fn add_user_rejects_exact_duplicate() {
    let (mut app, _, _) = two_user_store();
    assert_eq!(app.users.len(), 2);
    let r = app.add_user("Ann", "a@x");
    assert_eq!(r.unwrap_err(), StoreError::DuplicateUser);
    assert_eq!(app.users.len(), 2);
    // same name with a different email is not a duplicate
    let r2 = app.add_user("Ann", "other@x");
    assert!(r2.is_ok());
    assert_eq!(app.users.len(), 3);
}

#[test]
fn conversation_and_membership_gate() {
    let (mut app, a, b) = two_user_store();
    let c1 = app.add_conv("General", vec![a, b]);
    assert_eq!(app.convs.len(), 1);
    assert_eq!(app.convs[0].members(), &vec![a, b]);

    let before = app.convs[0].last_msg;
    let m = app.send_msg(a, c1.id(), "hi").unwrap();
    assert_eq!(m.user, a);
    assert_eq!(m.conv, c1.id());
    assert_eq!(m.text, "hi");
    assert_eq!(app.msgs.len(), 1);
    // the conversation's latest-message time moved to the new message's time
    assert_eq!(app.convs[0].last_msg, m.time_stamp);
    assert!(app.convs[0].last_msg.secs >= before.secs);

    // a sender outside the member list is rejected and nothing changes
    let outsider = app.add_user("Cee", "c@x").unwrap();
    let r = app.send_msg(outsider.id(), c1.id(), "hi");
    assert_eq!(r.unwrap_err(), StoreError::NotAMember);
    assert_eq!(app.msgs.len(), 1);
}

#[test]
fn send_msg_at_fixed_instant_updates_last_msg() {
    let (mut app, a, b) = two_user_store();
    let c1 = app.add_conv("General", vec![a, b]);
    let t = Timestamp { secs: 1_900_000_000, nanos: 123 };
    let m = app.send_msg_at(a, c1.id(), "later", 42, t).unwrap();
    assert_eq!(m.id, 42);
    assert_eq!(m.time_stamp, t);
    assert_eq!(app.convs[0].last_msg, t);
}

#[test]
fn send_msg_unknown_conversation_is_rejected() {
    let (mut app, a, _) = two_user_store();
    let r = app.send_msg(a, 12345, "hi");
    assert_eq!(r.unwrap_err(), StoreError::NotAMember);
    assert!(app.msgs.is_empty());
}

#[test]
fn add_conv_drops_unknown_members_and_duplicates() {
    let (mut app, a, b) = two_user_store();
    let c = app.add_conv("General", vec![a, 999, a, b]);
    assert_eq!(c.members(), &vec![a, b]);
}

#[test]
fn relationship_lookup_creates_neutral_once() {
    let (mut app, a, b) = two_user_store();
    assert_eq!(app.rels.len(), 0);
    let st = app.get_rel_status(a, b);
    assert_eq!(st, RelStatus::Neutral);
    assert_eq!(app.rels.len(), 1);
    // a second lookup of the same (unordered) pair finds the record
    let st2 = app.get_rel_status(b, a);
    assert_eq!(st2, RelStatus::Neutral);
    assert_eq!(app.rels.len(), 1);
}

#[test]
fn get_user_matches_by_id_name_and_email() {
    let (mut app, a, _) = two_user_store();
    let by_name = app.get_user("NAME", "ann").unwrap();
    assert_eq!(by_name.id(), a);
    let by_email = app.get_user("EMAIL", "A@X").unwrap();
    assert_eq!(by_email.id(), a);
    assert!(app.get_user("NAME", "zz").is_none());
    assert!(app.get_user("WHAT", "ann").is_none());
    // exact id match goes through the identifier's text form
    let u3 = app.add_user("Dee", "d@x").unwrap();
    let text = {
        // the serialized record starts with the id text
        let line = u3.to_string();
        line.split(';').next().unwrap().to_string()
    };
    let found = app.get_user("ID", &text).unwrap();
    assert_eq!(found.id(), u3.id());
}

#[test]
fn get_user_mult_collects_all_matches() {
    let mut app = App::new();
    app.add_user("Anna", "anna@x").unwrap();
    app.add_user("Annette", "annette@x").unwrap();
    app.add_user("Bo", "bo@x").unwrap();
    let hits = app.get_user_mult("NAME", "ann").unwrap();
    assert_eq!(hits.len(), 2);
    assert_eq!(hits[0].name(), "Anna");
    assert_eq!(hits[1].name(), "Annette");
    assert!(app.get_user_mult("NAME", "zz").is_none());
}

#[test]
fn get_conv_by_name_and_members() {
    let (mut app, a, b) = two_user_store();
    app.add_conv("General", vec![a, b]);
    app.add_conv("Private", vec![a]);
    let by_name = app.get_conv(ConvSearch::Name("ener".to_string())).unwrap();
    assert_eq!(by_name.name(), "General");
    // name matching is case-sensitive substring containment
    assert!(app.get_conv(ConvSearch::Name("general".to_string())).is_none());
    let by_members = app.get_conv(ConvSearch::Members(vec![b])).unwrap();
    assert_eq!(by_members.name(), "General");
    let first_with_a = app.get_conv(ConvSearch::Members(vec![a])).unwrap();
    assert_eq!(first_with_a.name(), "General");
}

#[test]
fn get_conv_mult_filters_combine() {
    let (mut app, a, b) = two_user_store();
    app.add_conv("General", vec![a, b]);
    app.add_conv("Garden", vec![a]);
    assert!(app.get_conv_mult(None, None).is_none());
    let by_name = app.get_conv_mult(Some("G"), None).unwrap();
    assert_eq!(by_name.len(), 2);
    let by_members = app.get_conv_mult(None, Some(vec![b])).unwrap();
    assert_eq!(by_members.len(), 1);
    assert_eq!(by_members[0].name(), "General");
    let both = app.get_conv_mult(Some("Gar"), Some(vec![a])).unwrap();
    assert_eq!(both.len(), 1);
    assert_eq!(both[0].name(), "Garden");
    assert!(app.get_conv_mult(Some("zz"), Some(vec![a])).is_none());
}

#[test]
fn change_name_and_email_reject_no_ops() {
    let mut u = UserInfo::new("Ann", "a@x");
    assert_eq!(u.change_name("Ann"), Err(StoreError::SameName));
    assert_eq!(u.change_name("Anne"), Ok(()));
    assert_eq!(u.name(), "Anne");
    assert_eq!(u.change_email("a@x"), Err(StoreError::SameEmail));
    assert_eq!(u.change_email("anne@x"), Ok(()));
    assert_eq!(u.email(), "anne@x");
}
