use chat_server::entities::{LoadError, RelStatus};
use chat_server::store::App;

const U1: &str = "11111111-2222-3333-4444-555555555555";
const U2: &str = "aaaaaaaa-bbbb-cccc-dddd-eeeeeeeeffff";
const C1: &str = "99999999-8888-7777-6666-555544443333";
const M1: &str = "00000000-0000-0000-0000-000000000001";

fn users_file() -> String {
    format!(
        "{U1};Ann;a@x;2020-05-03T10:00:00+00:00\n{U2};Bo;b@x;2020-05-03T10:00:01+00:00\n"
    )
}

fn convs_file() -> String {
    format!(
        "{C1};General;{U1},{U2};2020-05-03T10:01:00+00:00;2020-05-03T10:02:00.123456789+00:00\n"
    )
}

fn msgs_file() -> String {
    format!("{M1};hi;2020-05-03T10:02:00+00:00;{U1};{C1}\n")
}

fn rels_file() -> String {
    format!("{U1};{U2};Friends,\n")
}

fn loaded_store() -> App {
    let mut app = App::new();
    app.load_users(&users_file()).unwrap();
    app.load_convs(&convs_file()).unwrap();
    app.load_msgs(&msgs_file()).unwrap();
    app.load_rels(&rels_file()).unwrap();
    app
}

#[test]
fn load_populates_all_four_kinds() {
    let app = loaded_store();
    assert_eq!(app.users.len(), 2);
    assert_eq!(app.users[0].name(), "Ann");
    assert_eq!(app.users[1].email(), "b@x");
    assert_eq!(app.convs.len(), 1);
    assert_eq!(app.convs[0].name(), "General");
    assert_eq!(app.convs[0].members().len(), 2);
    assert_eq!(app.msgs.len(), 1);
    assert_eq!(app.msgs[0].text, "hi");
    assert_eq!(app.msgs[0].user, app.users[0].id());
    assert_eq!(app.msgs[0].conv, app.convs[0].id());
    assert_eq!(app.rels.len(), 1);
    assert_eq!(app.rels[0].status(), RelStatus::Friends);
}

#[test]
fn save_reproduces_the_loaded_files() {
    let mut app = loaded_store();
    // save drains in the fixed order: messages, conversations, users, rels
    let msgs = app.save_msgs();
    let convs = app.save_convs();
    let users = app.save_users();
    let rels = app.save_rels();
    assert_eq!(msgs, msgs_file());
    assert_eq!(convs, convs_file());
    assert_eq!(users, users_file());
    assert_eq!(rels, rels_file());
    assert!(app.users.is_empty());
    assert!(app.convs.is_empty());
    assert!(app.msgs.is_empty());
    assert!(app.rels.is_empty());
}

#[test]
fn save_then_load_round_trips_field_for_field() {
    let mut app = loaded_store();
    let old_users: Vec<_> = app.users.iter().map(|u| (u.id(), u.name().to_string(), u.email().to_string(), u.time())).collect();
    let old_conv = (app.convs[0].id(), app.convs[0].name().to_string(), app.convs[0].members().clone(), app.convs[0].start, app.convs[0].last_msg);
    let old_msg = (app.msgs[0].id, app.msgs[0].text.clone(), app.msgs[0].time_stamp, app.msgs[0].user, app.msgs[0].conv);

    let msgs = app.save_msgs();
    let convs = app.save_convs();
    let users = app.save_users();
    let rels = app.save_rels();

    let mut app2 = App::new();
    app2.load_users(&users).unwrap();
    app2.load_convs(&convs).unwrap();
    app2.load_msgs(&msgs).unwrap();
    app2.load_rels(&rels).unwrap();

    let new_users: Vec<_> = app2.users.iter().map(|u| (u.id(), u.name().to_string(), u.email().to_string(), u.time())).collect();
    assert_eq!(new_users, old_users);
    assert_eq!(app2.convs[0].id(), old_conv.0);
    assert_eq!(app2.convs[0].name(), old_conv.1);
    assert_eq!(app2.convs[0].members(), &old_conv.2);
    assert_eq!(app2.convs[0].start, old_conv.3);
    assert_eq!(app2.convs[0].last_msg, old_conv.4);
    assert_eq!(app2.msgs[0].id, old_msg.0);
    assert_eq!(app2.msgs[0].text, old_msg.1);
    assert_eq!(app2.msgs[0].time_stamp, old_msg.2);
    assert_eq!(app2.msgs[0].user, old_msg.3);
    assert_eq!(app2.msgs[0].conv, old_msg.4);
    assert_eq!(app2.rels[0].status(), RelStatus::Friends);
    assert_eq!(app2.rels[0].members, [app2.users[0].id(), app2.users[1].id()]);
}

#[test]
fn runtime_built_store_round_trips() {
    let mut app = App::new();
    let a = app.add_user("Ann", "a@x").unwrap().id();
    let b = app.add_user("Bo", "b@x").unwrap().id();
    let c = app.add_conv("General", vec![a, b]).id();
    app.send_msg(a, c, "hello there").unwrap();
    app.get_rel_status(a, b);

    let msgs = app.save_msgs();
    let convs = app.save_convs();
    let users = app.save_users();
    let rels = app.save_rels();

    let mut app2 = App::new();
    app2.load_users(&users).unwrap();
    app2.load_convs(&convs).unwrap();
    app2.load_msgs(&msgs).unwrap();
    app2.load_rels(&rels).unwrap();
    assert_eq!(app2.users.len(), 2);
    assert_eq!(app2.users[0].id(), a);
    assert_eq!(app2.users[1].id(), b);
    assert_eq!(app2.convs[0].id(), c);
    assert_eq!(app2.convs[0].members(), &vec![a, b]);
    assert_eq!(app2.msgs[0].text, "hello there");
    assert_eq!(app2.msgs[0].user, a);
    assert_eq!(app2.rels[0].status(), RelStatus::Neutral);
}

#[test]
fn conversation_with_no_members_round_trips() {
    let mut app = App::new();
    let c = app.add_conv("Empty", vec![]).id();
    let convs = app.save_convs();
    let mut app2 = App::new();
    app2.load_convs(&convs).unwrap();
    assert_eq!(app2.convs[0].id(), c);
    assert!(app2.convs[0].members().is_empty());
}

#[test]
fn blocked_status_round_trips_with_its_payload() {
    let rels = format!("{U1};{U2};Blocked,{U1},\n");
    let mut app = App::new();
    app.load_rels(&rels).unwrap();
    match app.rels[0].status() {
        RelStatus::Blocked(by) => assert_eq!(by, app.rels[0].members[0]),
        other => panic!("expected Blocked, got {:?}", other),
    }
    let saved = app.save_rels();
    assert_eq!(saved, rels);
}

#[test]
fn rel_status_from_str_cases() {
    assert_eq!(RelStatus::from_str("Neutral"), Some(RelStatus::Neutral));
    assert_eq!(RelStatus::from_str("Neutral,"), Some(RelStatus::Neutral));
    assert_eq!(RelStatus::from_str("Friends,extra,junk"), Some(RelStatus::Friends));
    assert_eq!(RelStatus::from_str("BestFriends,"), Some(RelStatus::BestFriends));
    assert_eq!(RelStatus::from_str("Blocked"), None);
    assert_eq!(RelStatus::from_str("Blocked,not-a-uuid"), None);
    assert_eq!(RelStatus::from_str("Nonsense"), None);
    assert_eq!(RelStatus::from_str(""), None);
    match RelStatus::from_str(&format!("Blocked,{U1}")) {
        Some(RelStatus::Blocked(_)) => {},
        other => panic!("expected Blocked, got {:?}", other),
    }
}

#[test]
fn malformed_lines_abort_each_load() {
    let mut app = App::new();
    // wrong field count
    assert_eq!(app.load_users("justonefield\n"), Err(LoadError::BadUserRecord));
    // malformed identifier
    assert_eq!(
        app.load_users("not-a-uuid;Ann;a@x;2020-05-03T10:00:00+00:00\n"),
        Err(LoadError::BadUserRecord)
    );
    // malformed timestamp
    assert_eq!(
        app.load_users(&format!("{U1};Ann;a@x;yesterday\n")),
        Err(LoadError::BadUserRecord)
    );
    assert!(app.users.is_empty());

    app.load_users(&users_file()).unwrap();
    // conversation with a malformed member id fails hard
    assert_eq!(
        app.load_convs(&format!(
            "{C1};General;oops;2020-05-03T10:01:00+00:00;2020-05-03T10:02:00+00:00\n"
        )),
        Err(LoadError::BadConvRecord)
    );
    assert!(app.convs.is_empty());
    app.load_convs(&convs_file()).unwrap();

    // a message whose sender is unknown fails hard
    assert_eq!(
        app.load_msgs(&format!("{M1};hi;2020-05-03T10:02:00+00:00;{C1};{C1}\n")),
        Err(LoadError::BadMsgRecord)
    );
    assert!(app.msgs.is_empty());

    // a relationship with an unknown status tag fails hard
    assert_eq!(
        app.load_rels(&format!("{U1};{U2};Enemies,\n")),
        Err(LoadError::BadRelRecord)
    );
    assert!(app.rels.is_empty());
}

#[test]
fn conv_load_drops_unknown_but_well_formed_member_ids() {
    let mut app = App::new();
    app.load_users(&users_file()).unwrap();
    let convs = format!(
        "{C1};General;{U1},{M1},{U2};2020-05-03T10:01:00+00:00;2020-05-03T10:02:00+00:00\n"
    );
    app.load_convs(&convs).unwrap();
    assert_eq!(app.convs[0].members().len(), 2);
    assert_eq!(app.convs[0].members()[0], app.users[0].id());
    assert_eq!(app.convs[0].members()[1], app.users[1].id());
}

#[test]
fn serialized_user_line_has_the_expected_shape() {
    let mut app = App::new();
    app.load_users(&users_file()).unwrap();
    let line = app.users[0].to_string();
    assert_eq!(line, format!("{U1};Ann;a@x;2020-05-03T10:00:00+00:00\n"));
}
