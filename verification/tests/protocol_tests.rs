use chat_server::protocol::{is_end, ProtocolError};
use chat_server::store::App;

const U1: &str = "11111111-2222-3333-4444-555555555555";
const U2: &str = "aaaaaaaa-bbbb-cccc-dddd-eeeeeeeeffff";
const C1: &str = "99999999-8888-7777-6666-555544443333";

const U1_LINE: &str = "11111111-2222-3333-4444-555555555555;Ann;a@x;2020-05-03T10:00:00+00:00\n";
const U2_LINE: &str = "aaaaaaaa-bbbb-cccc-dddd-eeeeeeeeffff;Bo;b@x;2020-05-03T10:00:01+00:00\n";
const C1_LINE: &str = "99999999-8888-7777-6666-555544443333;General;11111111-2222-3333-4444-555555555555,aaaaaaaa-bbbb-cccc-dddd-eeeeeeeeffff;2020-05-03T10:01:00+00:00;2020-05-03T10:02:00+00:00\n";

fn served_store() -> App {
    let mut app = App::new();
    app.load_users(&format!("{U1_LINE}{U2_LINE}")).unwrap();
    app.load_convs(C1_LINE).unwrap();
    app
}

#[test]
fn get_user_by_name_returns_the_serialized_record() {
    let mut app = served_store();
    let resp = app.execute("GET USER NAME ann".to_string()).unwrap();
    assert_eq!(resp, U1_LINE);
    let resp = app.execute("GET USER NAME zz".to_string()).unwrap();
    assert_eq!(resp, "NO USER FOUND");
}

#[test]
fn get_user_by_id_and_email() {
    let mut app = served_store();
    let resp = app.execute(format!("GET USER ID {U2}")).unwrap();
    assert_eq!(resp, U2_LINE);
    let resp = app.execute("GET USER EMAIL B@X".to_string()).unwrap();
    assert_eq!(resp, U2_LINE);
}

#[test]
fn get_user_mult_concatenates_all_matches() {
    let mut app = served_store();
    let resp = app.execute("GET USER MULT EMAIL @x".to_string()).unwrap();
    assert_eq!(resp, format!("{U1_LINE}{U2_LINE}"));
    let resp = app.execute("GET USER MULT NAME zz".to_string()).unwrap();
    assert_eq!(resp, "NO USERS FOUND");
}

#[test]
fn get_user_mult_supports_all_three_criteria() {
    let mut app = served_store();
    let resp = app.execute(format!("GET USER MULT ID {U1}")).unwrap();
    assert_eq!(resp, U1_LINE);
    let resp = app.execute("GET USER MULT NAME bo".to_string()).unwrap();
    assert_eq!(resp, U2_LINE);
}

#[test]
fn get_user_diagnostics() {
    let mut app = served_store();
    assert_eq!(app.execute("GET USER".to_string()).unwrap(), "NO OPTION PROVIDED");
    assert_eq!(
        app.execute("GET USER COLOR blue".to_string()).unwrap(),
        "INVALID GET USER <_> COMMAND"
    );
    assert_eq!(app.execute("GET USER NAME".to_string()).unwrap(), "NO SEARCH TERM PROVIDED");
    assert_eq!(
        app.execute("GET USER MULT".to_string()).unwrap(),
        "NO OPTION OR SEARCH TERM PROVIDED"
    );
    assert_eq!(
        app.execute("GET USER MULT NAME".to_string()).unwrap(),
        "NO SEARCH TERM PROVIDED"
    );
}

#[test]
fn get_conv_by_members_returns_the_serialized_record() {
    let mut app = served_store();
    let resp = app.execute(format!("GET CONV MEMBERS {U1},{U2},")).unwrap();
    assert_eq!(resp, C1_LINE);
    // a trailing id that resolves to no user fails the whole request
    let resp = app.execute(format!("GET CONV MEMBERS {U1},{C1},")).unwrap();
    assert_eq!(resp, "INVALID USER PROVIDED");
}

#[test]
fn get_conv_member_list_drops_its_last_piece() {
    let mut app = served_store();
    // without a trailing delimiter the last id is discarded before resolving
    let resp = app.execute(format!("GET CONV MEMBERS {U1},{C1}")).unwrap();
    assert_eq!(resp, C1_LINE);
    // a term with no delimiter at all leaves no ids to resolve
    let resp = app.execute(format!("GET CONV MEMBERS {U1}")).unwrap();
    assert_eq!(resp, "NO VALID USERS PROVIDED");
}

#[test]
fn get_conv_by_name_and_diagnostics() {
    let mut app = served_store();
    assert_eq!(app.execute("GET CONV NAME Gen".to_string()).unwrap(), C1_LINE);
    assert_eq!(app.execute("GET CONV NAME zz".to_string()).unwrap(), "NO CONVS FOUND");
    assert_eq!(app.execute("GET CONV".to_string()).unwrap(), "INCOMPLETE COMMAND");
    assert_eq!(app.execute("GET CONV NAME".to_string()).unwrap(), "INCOMPLETE COMMAND");
    assert_eq!(app.execute("GET CONV MULT x".to_string()).unwrap(), "");
}

#[test]
fn non_get_requests_and_reserved_nouns() {
    let mut app = served_store();
    assert_eq!(app.execute("PUT USER NAME ann".to_string()).unwrap(), "NOT GET");
    assert_eq!(app.execute("".to_string()).unwrap(), "NOT GET");
    assert_eq!(app.execute("GET REL anything".to_string()).unwrap(), "");
    assert_eq!(app.execute("GET MSG anything".to_string()).unwrap(), "");
}

#[test]
fn unknown_get_noun_is_a_protocol_violation() {
    let mut app = served_store();
    assert_eq!(
        app.execute("GET THING x".to_string()),
        Err(ProtocolError::UnknownTarget)
    );
    assert_eq!(app.execute("GET".to_string()), Err(ProtocolError::UnknownTarget));
}

#[test]
fn execute_leaves_the_store_unchanged() {
    let mut app = served_store();
    app.execute("GET USER NAME ann".to_string()).unwrap();
    app.execute(format!("GET CONV MEMBERS {U1},{U2},")).unwrap();
    assert_eq!(app.users.len(), 2);
    assert_eq!(app.convs.len(), 1);
    assert!(app.msgs.is_empty());
    assert!(app.rels.is_empty());
}

#[test]
fn end_sentinel_is_recognized_trimmed() {
    assert!(is_end("END"));
    assert!(is_end("  END\r\n"));
    assert!(!is_end("ENDX"));
    assert!(!is_end("GET USER NAME ann"));
    assert!(!is_end(""));
}
