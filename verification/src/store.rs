//! The entity store: sole owner of all users, conversations, messages and
//! relationships, with referential integrity across them.

use vstd::prelude::*;
use vstd::string::*;
use crate::clock::{Timestamp, now_ts, ts_lt, ts_ok};
use crate::codec::{
    contains_id,
    contains_id_exec,
    content_lines,
    conv_ids_of,
    member_ids_parse,
    parse_conv_body,
    parse_conv_lines,
    parse_convs_text,
    parse_msg_body,
    parse_msg_lines,
    parse_msgs_text,
    parse_rel_body,
    parse_rel_lines,
    parse_rels_text,
    parse_user_body,
    parse_user_lines,
    parse_users_text,
    split_one,
    user_ids_of,
    user_body_of,
    user_clean,
    user_bodies_of,
    users_text_of,
    conv_body_of,
    conv_clean,
    conv_bodies_of,
    convs_text_of,
    msg_body_of,
    msg_clean,
    msg_bodies_of,
    msgs_text_of,
    rel_body_of,
    rel_bodies_of,
    rels_text_of,
};
use crate::entities::{
    ConvInfo,
    ConvRec,
    LoadError,
    MsgInfo,
    MsgRec,
    RelRec,
    RelStatus,
    Relationship,
    StoreError,
    UserInfo,
    UserRec,
};
use crate::ids::{fresh_id, id_text, uuid_text_of};
use crate::text::{
    find_substring,
    has_substring,
    lower_of,
    split_at,
    str_eq,
    to_lower,
    trim_spec,
    trim_ws,
};

verus! {

/// Spec-level image of the whole store.
pub ghost struct StoreV {
    pub users: Seq<UserRec>,
    pub convs: Seq<ConvRec>,
    pub msgs: Seq<MsgRec>,
    pub rels: Seq<RelRec>,
    pub start: Timestamp,
}

/// The views of a user vector, in order.
pub open spec fn user_views_of(users: Seq<UserInfo>) -> Seq<UserRec> {
    Seq::new(users.len(), |i: int| users[i]@)
}

/// The views of a conversation vector, in order.
pub open spec fn conv_views_of(convs: Seq<ConvInfo>) -> Seq<ConvRec> {
    Seq::new(convs.len(), |i: int| convs[i]@)
}

/// The views of a message vector, in order.
pub open spec fn msg_views_of(msgs: Seq<MsgInfo>) -> Seq<MsgRec> {
    Seq::new(msgs.len(), |i: int| msgs[i]@)
}

/// The views of a relationship vector, in order.
pub open spec fn rel_views_of(rels: Seq<Relationship>) -> Seq<RelRec> {
    Seq::new(rels.len(), |i: int| rels[i]@)
}

/// The entity store. It owns every entity for the process lifetime;
/// entities reference each other by identifier only, and all mutation goes
/// through the store's operations.
#[derive(Debug)]
pub struct App {
    pub users: Vec<UserInfo>,
    pub convs: Vec<ConvInfo>,
    pub msgs: Vec<MsgInfo>,
    pub rels: Vec<Relationship>,
    pub start: Timestamp,
}

impl View for App {
    type V = StoreV;

    open spec fn view(&self) -> StoreV {
        StoreV {
            users: user_views_of(self.users@),
            convs: conv_views_of(self.convs@),
            msgs: msg_views_of(self.msgs@),
            rels: rel_views_of(self.rels@),
            start: self.start,
        }
    }
}

// Well-formedness ------------------------------------------------------------

/// A conversation's members all exist among the store's users, and its
/// timestamps lie in the codec's range.
pub open spec fn conv_wf(s: StoreV, c: ConvRec) -> bool {
    &&& forall|j: int| 0 <= j < c.members.len() ==> contains_id(
        user_ids_of(s.users),
        #[trigger] c.members[j],
    )
    &&& ts_ok(c.start)
    &&& ts_ok(c.last_msg)
}

/// A message's sender and conversation both exist in the store, and its
/// timestamp lies in the codec's range.
pub open spec fn msg_wf(s: StoreV, m: MsgRec) -> bool {
    &&& contains_id(user_ids_of(s.users), m.sender)
    &&& contains_id(conv_ids_of(s.convs), m.conv)
    &&& ts_ok(m.time)
}

/// Referential integrity of the whole store: every message references a
/// present user and conversation, every conversation's members are present
/// users, and every kept timestamp is representable.
pub open spec fn store_wf(s: StoreV) -> bool {
    &&& forall|i: int| 0 <= i < s.convs.len() ==> conv_wf(s, #[trigger] s.convs[i])
    &&& forall|i: int| 0 <= i < s.msgs.len() ==> msg_wf(s, #[trigger] s.msgs[i])
    &&& forall|i: int| 0 <= i < s.users.len() ==> ts_ok((#[trigger] s.users[i]).created)
}

/// No two users share both display name and email.
pub open spec fn users_unique(users: Seq<UserRec>) -> bool {
    forall|i: int, j: int|
        0 <= i < j < users.len() ==> !((#[trigger] users[i]).name == (#[trigger] users[j]).name
            && users[i].email == users[j].email)
}

/// Some user already carries this (name, email) pair.
pub open spec fn has_user_named(users: Seq<UserRec>, name: Seq<char>, email: Seq<char>) -> bool {
    exists|i: int| 0 <= i < users.len() && (#[trigger] users[i]).name == name && users[i].email
        == email
}

/// Adding a user whose (name, email) pair is absent keeps users unique:
/// exactly what a successful `add_user` does.
pub proof fn lemma_add_user_keeps_unique(users: Seq<UserRec>, u: UserRec)
    requires
        users_unique(users),
        !has_user_named(users, u.name, u.email),
    ensures
        users_unique(users.push(u)),
{
    let users2 = users.push(u);
    assert forall|i: int, j: int| 0 <= i < j < users2.len() implies !((#[trigger] users2[i]).name
        == (#[trigger] users2[j]).name && users2[i].email == users2[j].email) by {
        if j == users.len() {
            assert(users2[j] == u);
            if users2[i].name == u.name && users2[i].email == u.email {
                assert(has_user_named(users, u.name, u.email));
            }
        }
    }
}

/// Growing the user list preserves every membership fact, so the whole
/// store stays well-formed when a user is appended.
pub proof fn lemma_wf_user_push(s: StoreV, u: UserRec)
    requires
        store_wf(s),
        ts_ok(u.created),
    ensures
        store_wf(StoreV { users: s.users.push(u), ..s }),
{
    let s2 = StoreV { users: s.users.push(u), ..s };
    assert forall|id: u128| contains_id(user_ids_of(s.users), id) implies contains_id(
        user_ids_of(s2.users),
        id,
    ) by {
        let k = choose|k: int| 0 <= k < user_ids_of(s.users).len() && user_ids_of(s.users)[k]
            == id;
        assert(user_ids_of(s2.users)[k] == id);
    }
    assert forall|i: int| 0 <= i < s2.convs.len() implies conv_wf(s2, #[trigger] s2.convs[i]) by {
        assert(conv_wf(s, s.convs[i]));
    }
    assert forall|i: int| 0 <= i < s2.msgs.len() implies msg_wf(s2, #[trigger] s2.msgs[i]) by {
        assert(msg_wf(s, s.msgs[i]));
    }
    assert forall|i: int| 0 <= i < s2.users.len() implies ts_ok(
        (#[trigger] s2.users[i]).created,
    ) by {
        if i < s.users.len() {
            assert(ts_ok(s.users[i].created));
        }
    }
}

// User matching ---------------------------------------------------------------

/// Whether a user matches a query: `ID` compares the identifier text with
/// the trimmed term exactly; `NAME` and `EMAIL` do case-insensitive
/// substring containment; any other criterion matches nothing.
pub open spec fn user_matches(u: UserRec, option: Seq<char>, term: Seq<char>) -> bool {
    if option == "ID"@ {
        uuid_text_of(u.id) == trim_spec(term)
    } else if option == "NAME"@ {
        has_substring(lower_of(u.name), lower_of(term))
    } else if option == "EMAIL"@ {
        has_substring(lower_of(u.email), lower_of(term))
    } else {
        false
    }
}

/// The first user matching the query, in store order.
pub open spec fn find_user_match(users: Seq<UserRec>, option: Seq<char>, term: Seq<char>) -> Option<
    UserRec,
>
    decreases users.len(),
{
    if users.len() == 0 {
        None
    } else if user_matches(users[0], option, term) {
        Some(users[0])
    } else {
        find_user_match(users.drop_first(), option, term)
    }
}

/// All users matching the query, in store order.
pub open spec fn all_user_matches(users: Seq<UserRec>, option: Seq<char>, term: Seq<char>) -> Seq<
    UserRec,
>
    decreases users.len(),
{
    if users.len() == 0 {
        Seq::empty()
    } else {
        (if user_matches(users[0], option, term) {
            seq![users[0]]
        } else {
            Seq::empty()
        }) + all_user_matches(users.drop_first(), option, term)
    }
}

/// An unknown criterion matches no user at all.
pub proof fn lemma_unknown_option_matches_none(users: Seq<UserRec>, option: Seq<char>, term: Seq<char>)
    requires
        option != "ID"@,
        option != "NAME"@,
        option != "EMAIL"@,
    ensures
        find_user_match(users, option, term) is None,
        all_user_matches(users, option, term) == Seq::<UserRec>::empty(),
    decreases users.len(),
{
    if users.len() > 0 {
        lemma_unknown_option_matches_none(users.drop_first(), option, term);
        assert(all_user_matches(users, option, term) =~= Seq::<UserRec>::empty());
    }
}

/// Collecting matches, one user at a time.
pub proof fn lemma_all_user_matches_push(
    users: Seq<UserRec>,
    option: Seq<char>,
    term: Seq<char>,
    u: UserRec,
)
    ensures
        all_user_matches(users.push(u), option, term) == all_user_matches(users, option, term) + (
        if user_matches(u, option, term) {
            seq![u]
        } else {
            Seq::<UserRec>::empty()
        }),
    decreases users.len(),
{
    let tail = if user_matches(u, option, term) {
        seq![u]
    } else {
        Seq::<UserRec>::empty()
    };
    if users.len() == 0 {
        assert(users.push(u)[0] == u);
        assert(users.push(u).drop_first() =~= Seq::<UserRec>::empty());
        assert(all_user_matches(Seq::<UserRec>::empty(), option, term)
            == Seq::<UserRec>::empty());
        assert(all_user_matches(users.push(u), option, term) =~= all_user_matches(
            users,
            option,
            term,
        ) + tail);
    } else {
        lemma_all_user_matches_push(users.drop_first(), option, term, u);
        assert(users.push(u).drop_first() =~= users.drop_first().push(u));
        assert(users.push(u)[0] == users[0]);
        let head = if user_matches(users[0], option, term) {
            seq![users[0]]
        } else {
            Seq::<UserRec>::empty()
        };
        assert(all_user_matches(users.push(u), option, term) == head + all_user_matches(
            users.drop_first().push(u),
            option,
            term,
        ));
        assert(all_user_matches(users.drop_first().push(u), option, term) == all_user_matches(
            users.drop_first(),
            option,
            term,
        ) + tail);
        assert(head + (all_user_matches(users.drop_first(), option, term) + tail) =~= (head
            + all_user_matches(users.drop_first(), option, term)) + tail);
        assert(all_user_matches(users.push(u), option, term) =~= all_user_matches(
            users,
            option,
            term,
        ) + tail);
    }
}

// Conversation matching --------------------------------------------------------

/// A conversation selector: by name substring, or by member superset.
#[derive(Debug)]
pub enum ConvSearch {
    Name(String),
    Members(Vec<u128>),
}

/// The conversation's member set contains every one of `ids`.
pub open spec fn conv_has_members(c: ConvRec, ids: Seq<u128>) -> bool {
    forall|j: int| 0 <= j < ids.len() ==> contains_id(c.members, #[trigger] ids[j])
}

/// The first conversation whose name contains `term` (case-sensitive), in
/// store order.
pub open spec fn find_conv_by_name(convs: Seq<ConvRec>, term: Seq<char>) -> Option<ConvRec>
    decreases convs.len(),
{
    if convs.len() == 0 {
        None
    } else if has_substring(convs[0].name, term) {
        Some(convs[0])
    } else {
        find_conv_by_name(convs.drop_first(), term)
    }
}

/// The first conversation whose member set contains every one of `ids`, in
/// store order.
pub open spec fn find_conv_by_members(convs: Seq<ConvRec>, ids: Seq<u128>) -> Option<ConvRec>
    decreases convs.len(),
{
    if convs.len() == 0 {
        None
    } else if conv_has_members(convs[0], ids) {
        Some(convs[0])
    } else {
        find_conv_by_members(convs.drop_first(), ids)
    }
}

/// What a selector selects: the first conversation matching it, in store
/// order.
pub open spec fn find_conv_match(convs: Seq<ConvRec>, search: ConvSearch) -> Option<ConvRec> {
    match search {
        ConvSearch::Name(nm) => find_conv_by_name(convs, nm@),
        ConvSearch::Members(ids) => find_conv_by_members(convs, ids@),
    }
}

/// Whether a conversation passes both optional filters of a multi-query.
pub open spec fn conv_mult_matches(c: ConvRec, name: Option<Seq<char>>, members: Option<
    Seq<u128>,
>) -> bool {
    &&& (match name {
        Some(t) => has_substring(c.name, t),
        None => true,
    })
    &&& (match members {
        Some(ids) => conv_has_members(c, ids),
        None => true,
    })
}

/// All conversations passing both filters, in store order.
pub open spec fn all_conv_matches(convs: Seq<ConvRec>, name: Option<Seq<char>>, members: Option<
    Seq<u128>,
>) -> Seq<ConvRec>
    decreases convs.len(),
{
    if convs.len() == 0 {
        Seq::empty()
    } else {
        (if conv_mult_matches(convs[0], name, members) {
            seq![convs[0]]
        } else {
            Seq::empty()
        }) + all_conv_matches(convs.drop_first(), name, members)
    }
}

/// Collecting conversation matches, one at a time.
pub proof fn lemma_all_conv_matches_push(
    convs: Seq<ConvRec>,
    name: Option<Seq<char>>,
    members: Option<Seq<u128>>,
    c: ConvRec,
)
    ensures
        all_conv_matches(convs.push(c), name, members) == all_conv_matches(convs, name, members)
            + (if conv_mult_matches(c, name, members) {
            seq![c]
        } else {
            Seq::<ConvRec>::empty()
        }),
    decreases convs.len(),
{
    let tail = if conv_mult_matches(c, name, members) {
        seq![c]
    } else {
        Seq::<ConvRec>::empty()
    };
    if convs.len() == 0 {
        assert(convs.push(c)[0] == c);
        assert(convs.push(c).drop_first() =~= Seq::<ConvRec>::empty());
        assert(all_conv_matches(Seq::<ConvRec>::empty(), name, members)
            == Seq::<ConvRec>::empty());
        assert(all_conv_matches(convs.push(c), name, members) =~= all_conv_matches(
            convs,
            name,
            members,
        ) + tail);
    } else {
        lemma_all_conv_matches_push(convs.drop_first(), name, members, c);
        assert(convs.push(c).drop_first() =~= convs.drop_first().push(c));
        assert(convs.push(c)[0] == convs[0]);
        let head = if conv_mult_matches(convs[0], name, members) {
            seq![convs[0]]
        } else {
            Seq::<ConvRec>::empty()
        };
        assert(all_conv_matches(convs.push(c), name, members) == head + all_conv_matches(
            convs.drop_first().push(c),
            name,
            members,
        ));
        assert(head + (all_conv_matches(convs.drop_first(), name, members) + tail) =~= (head
            + all_conv_matches(convs.drop_first(), name, members)) + tail);
        assert(all_conv_matches(convs.push(c), name, members) =~= all_conv_matches(
            convs,
            name,
            members,
        ) + tail);
    }
}

/// The view of an optional text filter.
pub open spec fn opt_text(o: Option<&str>) -> Option<Seq<char>> {
    match o {
        Some(s) => Some(s@),
        None => None,
    }
}

/// The view of an optional member-list filter.
pub open spec fn opt_id_list(o: Option<Vec<u128>>) -> Option<Seq<u128>> {
    match o {
        Some(v) => Some(v@),
        None => None,
    }
}

/// The member ids a new conversation admits: ids of present users, first
/// occurrence only, in the order given. `seen` carries the ids already
/// admitted.
pub open spec fn admit_members(ms: Seq<u128>, uids: Seq<u128>, seen: Seq<u128>) -> Seq<u128>
    decreases ms.len(),
{
    if ms.len() == 0 {
        Seq::empty()
    } else if contains_id(uids, ms[0]) && !contains_id(seen, ms[0]) {
        seq![ms[0]] + admit_members(ms.drop_first(), uids, seen.push(ms[0]))
    } else {
        admit_members(ms.drop_first(), uids, seen)
    }
}

/// Every admitted member is a present user.
pub proof fn lemma_admit_members_present(ms: Seq<u128>, uids: Seq<u128>, seen: Seq<u128>)
    ensures
        forall|j: int| 0 <= j < admit_members(ms, uids, seen).len() ==> contains_id(
            uids,
            #[trigger] admit_members(ms, uids, seen)[j],
        ),
    decreases ms.len(),
{
    if ms.len() > 0 {
        if contains_id(uids, ms[0]) && !contains_id(seen, ms[0]) {
            lemma_admit_members_present(ms.drop_first(), uids, seen.push(ms[0]));
            let rest = admit_members(ms.drop_first(), uids, seen.push(ms[0]));
            let a = admit_members(ms, uids, seen);
            assert forall|j: int| 0 <= j < a.len() implies contains_id(uids, #[trigger] a[j]) by {
                if j == 0 {
                    assert(a[0] == ms[0]);
                } else {
                    assert(a[j] == rest[j - 1]);
                }
            }
        } else {
            lemma_admit_members_present(ms.drop_first(), uids, seen);
            let rest = admit_members(ms.drop_first(), uids, seen);
            let a = admit_members(ms, uids, seen);
            assert(a == rest);
            assert forall|j: int| 0 <= j < a.len() implies contains_id(uids, #[trigger] a[j]) by {
                assert(contains_id(uids, rest[j]));
            }
        }
    } else {
        assert(admit_members(ms, uids, seen).len() == 0);
    }
}

/// A membership test over a vector of required ids.
fn conv_contains_all(mems: &Vec<u128>, ids: &Vec<u128>) -> (r: bool)
    ensures
        r == (forall|j: int| 0 <= j < ids@.len() ==> contains_id(mems@, #[trigger] ids@[j])),
{
    let mut j: usize = 0;
    while j < ids.len()
        invariant
            0 <= j <= ids@.len(),
            forall|k: int| 0 <= k < j ==> contains_id(mems@, #[trigger] ids@[k]),
        decreases ids@.len() - j,
    {
        if !contains_id_exec(mems, ids[j]) {
            return false;
        }
        j += 1;
    }
    true
}

// Message sending and relationships ---------------------------------------------

/// Position of the first conversation with identifier `id`, or the length
/// when there is none.
pub open spec fn conv_pos(convs: Seq<ConvRec>, id: u128) -> int
    decreases convs.len(),
{
    if convs.len() == 0 {
        0
    } else if convs[0].id == id {
        0
    } else {
        1 + conv_pos(convs.drop_first(), id)
    }
}

pub proof fn lemma_conv_pos(convs: Seq<ConvRec>, id: u128)
    ensures
        0 <= conv_pos(convs, id) <= convs.len(),
        forall|j: int| 0 <= j < conv_pos(convs, id) ==> (#[trigger] convs[j]).id != id,
        conv_pos(convs, id) < convs.len() ==> convs[conv_pos(convs, id)].id == id,
    decreases convs.len(),
{
    if convs.len() != 0 && convs[0].id != id {
        lemma_conv_pos(convs.drop_first(), id);
        assert forall|j: int| 0 <= j < conv_pos(convs, id) implies (#[trigger] convs[j]).id
            != id by {
            if j > 0 {
                assert(convs[j] == convs.drop_first()[j - 1]);
            }
        }
    }
}

pub proof fn lemma_conv_pos_is(convs: Seq<ConvRec>, id: u128, k: int)
    requires
        0 <= k <= convs.len(),
        forall|j: int| 0 <= j < k ==> (#[trigger] convs[j]).id != id,
        k < convs.len() ==> convs[k].id == id,
    ensures
        conv_pos(convs, id) == k,
{
    lemma_conv_pos(convs, id);
    let p = conv_pos(convs, id);
    if p < k {
        assert(convs[p].id != id);
    }
    if k < p {
        assert(convs[k].id != id);
    }
}

/// Whether a relationship record concerns both of `x` and `y`.
pub open spec fn rel_matches_pair(r: RelRec, x: u128, y: u128) -> bool {
    (r.a == x || r.b == x) && (r.a == y || r.b == y)
}

/// Position of the first relationship record for the pair, or the length
/// when there is none.
pub open spec fn rel_pos(rels: Seq<RelRec>, x: u128, y: u128) -> int
    decreases rels.len(),
{
    if rels.len() == 0 {
        0
    } else if rel_matches_pair(rels[0], x, y) {
        0
    } else {
        1 + rel_pos(rels.drop_first(), x, y)
    }
}

pub proof fn lemma_rel_pos(rels: Seq<RelRec>, x: u128, y: u128)
    ensures
        0 <= rel_pos(rels, x, y) <= rels.len(),
        forall|j: int| 0 <= j < rel_pos(rels, x, y) ==> !rel_matches_pair(
            #[trigger] rels[j],
            x,
            y,
        ),
        rel_pos(rels, x, y) < rels.len() ==> rel_matches_pair(rels[rel_pos(rels, x, y)], x, y),
    decreases rels.len(),
{
    if rels.len() != 0 && !rel_matches_pair(rels[0], x, y) {
        lemma_rel_pos(rels.drop_first(), x, y);
        assert forall|j: int| 0 <= j < rel_pos(rels, x, y) implies !rel_matches_pair(
            #[trigger] rels[j],
            x,
            y,
        ) by {
            if j > 0 {
                assert(rels[j] == rels.drop_first()[j - 1]);
            }
        }
    }
}

pub proof fn lemma_rel_pos_is(rels: Seq<RelRec>, x: u128, y: u128, k: int)
    requires
        0 <= k <= rels.len(),
        forall|j: int| 0 <= j < k ==> !rel_matches_pair(#[trigger] rels[j], x, y),
        k < rels.len() ==> rel_matches_pair(rels[k], x, y),
    ensures
        rel_pos(rels, x, y) == k,
{
    lemma_rel_pos(rels, x, y);
    let p = rel_pos(rels, x, y);
    if p < k {
        assert(!rel_matches_pair(rels[p], x, y));
    }
    if k < p {
        assert(!rel_matches_pair(rels[k], x, y));
    }
}

/// Relationship auto-creation is idempotent: once the lookup miss has
/// appended the Neutral record for a pair, a second lookup of the same pair
/// finds that record — with status Neutral — instead of creating another.
pub proof fn lemma_rel_autocreate(rels: Seq<RelRec>, x: u128, y: u128)
    requires
        rel_pos(rels, x, y) == rels.len(),
    ensures
        ({
            let rels2 = rels.push(RelRec { a: x, b: y, status: RelStatus::Neutral });
            rel_pos(rels2, x, y) == rels.len() && rels2[rel_pos(rels2, x, y)].status
                == RelStatus::Neutral
        }),
{
    let nrec = RelRec { a: x, b: y, status: RelStatus::Neutral };
    let rels2 = rels.push(nrec);
    lemma_rel_pos(rels, x, y);
    assert forall|j: int| 0 <= j < rels.len() implies !rel_matches_pair(
        #[trigger] rels2[j],
        x,
        y,
    ) by {
        assert(rels2[j] == rels[j]);
    }
    assert(rels2[rels.len() as int] == nrec);
    assert(rel_matches_pair(nrec, x, y));
    lemma_rel_pos_is(rels2, x, y, rels.len() as int);
}

// Loading -----------------------------------------------------------------------

/// The record lines of a file's text: newline-separated, without a final
/// empty piece left by a trailing newline.
fn record_lines(content: &str) -> (r: Vec<String>)
    ensures
        r.deep_view() == content_lines(content@),
{
    let mut lines = split_one(content, '\n');
    let ghost ls0 = split_at(content@, seq!['\n']);
    proof {
        assert(lines.deep_view()[lines@.len() - 1] == lines@[lines@.len() - 1]@);
        assert(ls0.last() == lines@[lines@.len() - 1]@);
    }
    if lines[lines.len() - 1].as_str().is_empty() {
        let ghost pre = lines@;
        lines.pop();
        proof {
            assert forall|k: int| 0 <= k < lines@.len() implies lines.deep_view()[k] == ls0.drop_last()[k] by {
                assert(lines@[k] == pre[k]);
                assert(lines.deep_view()[k] == lines@[k]@);
            }
            assert(lines.deep_view() =~= ls0.drop_last());
        }
    }
    proof {
        assert(lines.deep_view() =~= content_lines(content@));
    }
    lines
}

/// Extending the user list with representable-timestamp users keeps the
/// store well-formed.
pub proof fn lemma_wf_users_extend(s: StoreV, us: Seq<UserRec>)
    requires
        store_wf(s),
        forall|i: int| 0 <= i < us.len() ==> ts_ok((#[trigger] us[i]).created),
    ensures
        store_wf(StoreV { users: s.users + us, ..s }),
{
    let s2 = StoreV { users: s.users + us, ..s };
    assert forall|id: u128| contains_id(user_ids_of(s.users), id) implies contains_id(
        user_ids_of(s2.users),
        id,
    ) by {
        let k = choose|k: int| 0 <= k < user_ids_of(s.users).len() && user_ids_of(s.users)[k]
            == id;
        assert(user_ids_of(s2.users)[k] == id);
    }
    assert forall|i: int| 0 <= i < s2.convs.len() implies conv_wf(s2, #[trigger] s2.convs[i]) by {
        assert(conv_wf(s, s.convs[i]));
    }
    assert forall|i: int| 0 <= i < s2.msgs.len() implies msg_wf(s2, #[trigger] s2.msgs[i]) by {
        assert(msg_wf(s, s.msgs[i]));
    }
    assert forall|i: int| 0 <= i < s2.users.len() implies ts_ok(
        (#[trigger] s2.users[i]).created,
    ) by {
        if i < s.users.len() {
            assert(ts_ok(s.users[i].created));
        } else {
            assert(s2.users[i] == us[i - s.users.len()]);
        }
    }
}

/// Extending the conversation list with well-formed conversations keeps the
/// store well-formed.
pub proof fn lemma_wf_convs_extend(s: StoreV, cs: Seq<ConvRec>)
    requires
        store_wf(s),
        forall|i: int, j: int| 0 <= i < cs.len() && 0 <= j < (#[trigger] cs[i]).members.len()
            ==> contains_id(user_ids_of(s.users), #[trigger] cs[i].members[j]),
        forall|i: int| 0 <= i < cs.len() ==> ts_ok((#[trigger] cs[i]).start) && ts_ok(
            cs[i].last_msg,
        ),
    ensures
        store_wf(StoreV { convs: s.convs + cs, ..s }),
{
    let s2 = StoreV { convs: s.convs + cs, ..s };
    assert forall|id: u128| contains_id(conv_ids_of(s.convs), id) implies contains_id(
        conv_ids_of(s2.convs),
        id,
    ) by {
        let k = choose|k: int| 0 <= k < conv_ids_of(s.convs).len() && conv_ids_of(s.convs)[k]
            == id;
        assert(conv_ids_of(s2.convs)[k] == id);
    }
    assert forall|i: int| 0 <= i < s2.convs.len() implies conv_wf(s2, #[trigger] s2.convs[i]) by {
        if i < s.convs.len() {
            assert(conv_wf(s, s.convs[i]));
        } else {
            assert(s2.convs[i] == cs[i - s.convs.len()]);
        }
    }
    assert forall|i: int| 0 <= i < s2.msgs.len() implies msg_wf(s2, #[trigger] s2.msgs[i]) by {
        assert(msg_wf(s, s.msgs[i]));
    }
}

/// Extending the message list with messages whose referents are present
/// keeps the store well-formed.
pub proof fn lemma_wf_msgs_extend(s: StoreV, ms: Seq<MsgRec>)
    requires
        store_wf(s),
        forall|i: int| 0 <= i < ms.len() ==> contains_id(
            user_ids_of(s.users),
            (#[trigger] ms[i]).sender,
        ) && contains_id(conv_ids_of(s.convs), ms[i].conv) && ts_ok(ms[i].time),
    ensures
        store_wf(StoreV { msgs: s.msgs + ms, ..s }),
{
    let s2 = StoreV { msgs: s.msgs + ms, ..s };
    assert forall|i: int| 0 <= i < s2.convs.len() implies conv_wf(s2, #[trigger] s2.convs[i]) by {
        assert(conv_wf(s, s.convs[i]));
    }
    assert forall|i: int| 0 <= i < s2.msgs.len() implies msg_wf(s2, #[trigger] s2.msgs[i]) by {
        if i < s.msgs.len() {
            assert(msg_wf(s, s.msgs[i]));
        } else {
            assert(s2.msgs[i] == ms[i - s.msgs.len()]);
        }
    }
}

/// Extending the relationship list never disturbs referential integrity.
pub proof fn lemma_wf_rels_extend(s: StoreV, rs: Seq<RelRec>)
    requires
        store_wf(s),
    ensures
        store_wf(StoreV { rels: s.rels + rs, ..s }),
{
    let s2 = StoreV { rels: s.rels + rs, ..s };
    assert forall|i: int| 0 <= i < s2.convs.len() implies conv_wf(s2, #[trigger] s2.convs[i]) by {
        assert(conv_wf(s, s.convs[i]));
    }
    assert forall|i: int| 0 <= i < s2.msgs.len() implies msg_wf(s2, #[trigger] s2.msgs[i]) by {
        assert(msg_wf(s, s.msgs[i]));
    }
}

/// Appending a relationship record never disturbs referential integrity.
pub proof fn lemma_wf_rel_push(s: StoreV, rec: RelRec)
    requires
        store_wf(s),
    ensures
        store_wf(StoreV { rels: s.rels.push(rec), ..s }),
{
    let s2 = StoreV { rels: s.rels.push(rec), ..s };
    assert forall|i: int| 0 <= i < s2.convs.len() implies conv_wf(s2, #[trigger] s2.convs[i]) by {
        assert(conv_wf(s, s.convs[i]));
    }
    assert forall|i: int| 0 <= i < s2.msgs.len() implies msg_wf(s2, #[trigger] s2.msgs[i]) by {
        assert(msg_wf(s, s.msgs[i]));
    }
}

/// Appending a conversation whose members are present users and whose
/// timestamps are representable keeps the store well-formed.
pub proof fn lemma_wf_conv_push(s: StoreV, c: ConvRec)
    requires
        store_wf(s),
        forall|j: int| 0 <= j < c.members.len() ==> contains_id(
            user_ids_of(s.users),
            #[trigger] c.members[j],
        ),
        ts_ok(c.start),
        ts_ok(c.last_msg),
    ensures
        store_wf(StoreV { convs: s.convs.push(c), ..s }),
{
    let s2 = StoreV { convs: s.convs.push(c), ..s };
    assert forall|id: u128| contains_id(conv_ids_of(s.convs), id) implies contains_id(
        conv_ids_of(s2.convs),
        id,
    ) by {
        let k = choose|k: int| 0 <= k < conv_ids_of(s.convs).len() && conv_ids_of(s.convs)[k]
            == id;
        assert(conv_ids_of(s2.convs)[k] == id);
    }
    assert forall|i: int| 0 <= i < s2.convs.len() implies conv_wf(s2, #[trigger] s2.convs[i]) by {
        if i < s.convs.len() {
            assert(conv_wf(s, s.convs[i]));
        } else {
            assert(s2.convs[i] == c);
        }
    }
    assert forall|i: int| 0 <= i < s2.msgs.len() implies msg_wf(s2, #[trigger] s2.msgs[i]) by {
        assert(msg_wf(s, s.msgs[i]));
    }
}

impl App {
    /// An empty store, stamped with the current clock reading. An empty user
    /// list is trivially duplicate-free, which grounds the induction that
    /// `add_user` maintains: no two users ever share both name and email.
    pub fn new() -> (r: App)
        ensures
            r@.users == Seq::<UserRec>::empty(),
            r@.convs == Seq::<ConvRec>::empty(),
            r@.msgs == Seq::<MsgRec>::empty(),
            r@.rels == Seq::<RelRec>::empty(),
            store_wf(r@),
            users_unique(r@.users),
    {
        let r = App {
            users: Vec::new(),
            convs: Vec::new(),
            msgs: Vec::new(),
            rels: Vec::new(),
            start: now_ts(),
        };
        proof {
            assert(r@.users =~= Seq::<UserRec>::empty());
            assert(r@.convs =~= Seq::<ConvRec>::empty());
            assert(r@.msgs =~= Seq::<MsgRec>::empty());
            assert(r@.rels =~= Seq::<RelRec>::empty());
        }
        r
    }

    /// The identifiers of all users, in store order.
    pub fn user_ids_vec(&self) -> (r: Vec<u128>)
        ensures
            r@ == user_ids_of(self@.users),
    {
        let mut r: Vec<u128> = Vec::new();
        let mut i: usize = 0;
        while i < self.users.len()
            invariant
                0 <= i <= self.users@.len(),
                r@.len() == i,
                forall|j: int| 0 <= j < i ==> r@[j] == self.users@[j]@.id,
            decreases self.users@.len() - i,
        {
            r.push(self.users[i].id);
            i += 1;
        }
        proof {
            assert(r@ =~= user_ids_of(self@.users));
        }
        r
    }

    /// The identifiers of all conversations, in store order.
    pub fn conv_ids_vec(&self) -> (r: Vec<u128>)
        ensures
            r@ == conv_ids_of(self@.convs),
    {
        let mut r: Vec<u128> = Vec::new();
        let mut i: usize = 0;
        while i < self.convs.len()
            invariant
                0 <= i <= self.convs@.len(),
                r@.len() == i,
                forall|j: int| 0 <= j < i ==> r@[j] == self.convs@[j]@.id,
            decreases self.convs@.len() - i,
        {
            r.push(self.convs[i].id);
            i += 1;
        }
        proof {
            assert(r@ =~= conv_ids_of(self@.convs));
        }
        r
    }

    /// Adds a user unless some user already carries exactly this (name,
    /// email) pair; on success returns the new record, on failure leaves the
    /// store unchanged.
    pub fn add_user(&mut self, name: &str, email: &str) -> (r: Result<UserInfo, StoreError>)
        ensures
            match r {
                Ok(u) => !has_user_named(old(self)@.users, name@, email@) && u@.name == name@
                    && u@.email == email@ && ts_ok(u@.created) && final(self)@ == (StoreV {
                    users: old(self)@.users.push(u@),
                    ..old(self)@
                }),
                Err(e) => has_user_named(old(self)@.users, name@, email@) && e
                    == StoreError::DuplicateUser && final(self)@ == old(self)@,
            },
            store_wf(old(self)@) ==> store_wf(final(self)@),
            users_unique(old(self)@.users) ==> users_unique(final(self)@.users),
    {
        let ghost pre = self@;
        let mut i: usize = 0;
        while i < self.users.len()
            invariant
                0 <= i <= self.users@.len(),
                pre == self@,
                forall|j: int| 0 <= j < i ==> !((#[trigger] self.users@[j])@.name == name@
                    && self.users@[j]@.email == email@),
            decreases self.users@.len() - i,
        {
            let u = &self.users[i];
            if str_eq(u.name.as_str(), name) && str_eq(u.email.as_str(), email) {
                proof {
                    assert(pre.users[i as int].name == name@ && pre.users[i as int].email
                        == email@);
                }
                return Err(StoreError::DuplicateUser);
            }
            i += 1;
        }
        proof {
            assert forall|k: int| 0 <= k < pre.users.len() implies !((#[trigger] pre.users[k]).name
                == name@ && pre.users[k].email == email@) by {
                assert(pre.users[k] == self.users@[k]@);
            }
        }
        let u = UserInfo::new(name, email);
        let ret = u.clone();
        self.users.push(u);
        proof {
            assert(final(self)@.users =~= pre.users.push(ret@));
            assert(final(self)@ == (StoreV { users: pre.users.push(ret@), ..pre }));
            if store_wf(pre) {
                lemma_wf_user_push(pre, ret@);
            }
            if users_unique(pre.users) {
                lemma_add_user_keeps_unique(pre.users, ret@);
            }
        }
        Ok(ret)
    }

    /// The first user matching the query, in store order: `ID` matches the
    /// identifier text exactly (term trimmed first), `NAME` and `EMAIL`
    /// match case-insensitively by substring.
    pub fn get_user(&self, option: &str, search: &str) -> (r: Option<UserInfo>)
        ensures
            match r {
                Some(u) => find_user_match(self@.users, option@, search@) == Some(u@),
                None => find_user_match(self@.users, option@, search@) is None,
            },
    {
        let is_id = str_eq(option, "ID");
        let is_name = str_eq(option, "NAME");
        let is_email = str_eq(option, "EMAIL");
        if !is_id && !is_name && !is_email {
            proof {
                lemma_unknown_option_matches_none(self@.users, option@, search@);
            }
            return None;
        }
        let term_trim = trim_ws(search);
        let term_lower = to_lower(search);
        let ghost users = self@.users;
        proof {
            assert(users.skip(0) =~= users);
        }
        let mut i: usize = 0;
        while i < self.users.len()
            invariant
                0 <= i <= self.users@.len(),
                users == self@.users,
                is_id == (option@ == "ID"@),
                is_name == (option@ == "NAME"@),
                is_email == (option@ == "EMAIL"@),
                is_id || is_name || is_email,
                term_trim@ == trim_spec(search@),
                term_lower@ == lower_of(search@),
                find_user_match(users.skip(i as int), option@, search@) == find_user_match(
                    users,
                    option@,
                    search@,
                ),
            decreases self.users@.len() - i,
        {
            let u = &self.users[i];
            let m: bool = if is_id {
                let t = id_text(u.id);
                str_eq(t.as_str(), term_trim)
            } else if is_name {
                let ln = to_lower(u.name.as_str());
                find_substring(ln.as_str(), term_lower.as_str())
            } else {
                let le = to_lower(u.email.as_str());
                find_substring(le.as_str(), term_lower.as_str())
            };
            proof {
                assert(users.skip(i as int)[0] == users[i as int]);
                assert(users.skip(i as int).drop_first() =~= users.skip(i + 1));
                assert(m == user_matches(users[i as int], option@, search@));
            }
            if m {
                return Some(self.users[i].clone());
            }
            i += 1;
        }
        proof {
            assert(users.skip(users.len() as int) =~= Seq::<UserRec>::empty());
        }
        None
    }

    /// Adds a conversation unconditionally and returns the new record. The
    /// given members are resolved against present users: unknown ids are
    /// silently dropped and duplicates within the list are admitted once.
    pub fn add_conv(&mut self, name: &str, members: Vec<u128>) -> (r: ConvInfo)
        ensures
            r@.name == name@,
            r@.members == admit_members(members@, user_ids_of(old(self)@.users), Seq::empty()),
            r@.start == r@.last_msg,
            ts_ok(r@.start),
            final(self)@ == (StoreV { convs: old(self)@.convs.push(r@), ..old(self)@ }),
            store_wf(old(self)@) ==> store_wf(final(self)@),
    {
        let ghost pre = self@;
        let uids = self.user_ids_vec();
        let ghost ms = members@;
        let mut kept: Vec<u128> = Vec::new();
        proof {
            assert(ms.skip(0) =~= ms);
            assert(kept@ + admit_members(ms, uids@, kept@) =~= admit_members(
                ms,
                uids@,
                Seq::empty(),
            ));
        }
        let mut i: usize = 0;
        while i < members.len()
            invariant
                0 <= i <= ms.len(),
                ms == members@,
                uids@ == user_ids_of(self@.users),
                admit_members(ms, uids@, Seq::empty()) == kept@ + admit_members(
                    ms.skip(i as int),
                    uids@,
                    kept@,
                ),
            decreases ms.len() - i,
        {
            let m = members[i];
            proof {
                assert(ms.skip(i as int)[0] == ms[i as int]);
                assert(ms.skip(i as int).drop_first() =~= ms.skip(i + 1));
            }
            let ghost old_kept = kept@;
            if contains_id_exec(&uids, m) && !contains_id_exec(&kept, m) {
                kept.push(m);
                proof {
                    assert(old_kept + (seq![m] + admit_members(ms.skip(i + 1), uids@, kept@))
                        =~= kept@ + admit_members(ms.skip(i + 1), uids@, kept@));
                }
            }
            i += 1;
        }
        proof {
            assert(ms.skip(ms.len() as int) =~= Seq::<u128>::empty());
            assert(admit_members(Seq::empty(), uids@, kept@) == Seq::<u128>::empty());
            assert(kept@ + Seq::<u128>::empty() =~= kept@);
            assert(kept@ == admit_members(ms, uids@, Seq::empty()));
        }
        let c = ConvInfo::new(name, kept);
        let ret = c.clone();
        self.convs.push(c);
        proof {
            assert(final(self)@.convs =~= pre.convs.push(ret@));
            assert(final(self)@ == (StoreV { convs: pre.convs.push(ret@), ..pre }));
            if store_wf(pre) {
                lemma_admit_members_present(ms, uids@, Seq::empty());
                lemma_wf_conv_push(pre, ret@);
            }
        }
        ret
    }

    /// The first conversation satisfying the selector, in store order.
    pub fn get_conv(&self, search: ConvSearch) -> (r: Option<ConvInfo>)
        ensures
            match r {
                Some(c) => find_conv_match(self@.convs, search) == Some(c@),
                None => find_conv_match(self@.convs, search) is None,
            },
    {
        let ghost convs = self@.convs;
        match &search {
            ConvSearch::Name(nm) => {
                proof {
                    assert(convs.skip(0) =~= convs);
                }
                let mut i: usize = 0;
                while i < self.convs.len()
                    invariant
                        0 <= i <= self.convs@.len(),
                        convs == self@.convs,
                        search matches ConvSearch::Name(n2) && n2@ == nm@,
                        find_conv_by_name(convs.skip(i as int), nm@) == find_conv_by_name(
                            convs,
                            nm@,
                        ),
                    decreases self.convs@.len() - i,
                {
                    let c = &self.convs[i];
                    let m = find_substring(c.name.as_str(), nm.as_str());
                    proof {
                        assert(convs.skip(i as int)[0] == convs[i as int]);
                        assert(convs.skip(i as int).drop_first() =~= convs.skip(i + 1));
                    }
                    if m {
                        return Some(self.convs[i].clone());
                    }
                    i += 1;
                }
                proof {
                    assert(convs.skip(convs.len() as int) =~= Seq::<ConvRec>::empty());
                }
                None
            },
            ConvSearch::Members(ids) => {
                proof {
                    assert(convs.skip(0) =~= convs);
                }
                let mut i: usize = 0;
                while i < self.convs.len()
                    invariant
                        0 <= i <= self.convs@.len(),
                        convs == self@.convs,
                        search matches ConvSearch::Members(d2) && d2@ == ids@,
                        find_conv_by_members(convs.skip(i as int), ids@) == find_conv_by_members(
                            convs,
                            ids@,
                        ),
                    decreases self.convs@.len() - i,
                {
                    let c = &self.convs[i];
                    let m = conv_contains_all(&c.members, ids);
                    proof {
                        assert(convs.skip(i as int)[0] == convs[i as int]);
                        assert(convs.skip(i as int).drop_first() =~= convs.skip(i + 1));
                        assert(m == conv_has_members(convs[i as int], ids@));
                    }
                    if m {
                        return Some(self.convs[i].clone());
                    }
                    i += 1;
                }
                proof {
                    assert(convs.skip(convs.len() as int) =~= Seq::<ConvRec>::empty());
                }
                None
            },
        }
    }

    /// All conversations passing the optional name-substring and
    /// member-superset filters, in store order; with neither filter present,
    /// or with no match, nothing.
    pub fn get_conv_mult(&self, name: Option<&str>, members: Option<Vec<u128>>) -> (r: Option<
        Vec<ConvInfo>,
    >)
        ensures
            name is None && members is None ==> r is None,
            !(name is None && members is None) ==> match r {
                Some(v) => v@.len() > 0 && conv_views_of(v@) == all_conv_matches(
                    self@.convs,
                    opt_text(name),
                    opt_id_list(members),
                ),
                None => all_conv_matches(self@.convs, opt_text(name), opt_id_list(members))
                    == Seq::<ConvRec>::empty(),
            },
    {
        if name.is_none() && members.is_none() {
            return None;
        }
        let ghost convs = self@.convs;
        let ghost nv = opt_text(name);
        let ghost mv = opt_id_list(members);
        let mut list: Vec<ConvInfo> = Vec::new();
        proof {
            assert(convs.take(0) =~= Seq::<ConvRec>::empty());
            assert(conv_views_of(list@) =~= all_conv_matches(convs.take(0), nv, mv));
        }
        let mut i: usize = 0;
        while i < self.convs.len()
            invariant
                0 <= i <= self.convs@.len(),
                convs == self@.convs,
                nv == opt_text(name),
                mv == opt_id_list(members),
                conv_views_of(list@) == all_conv_matches(convs.take(i as int), nv, mv),
            decreases self.convs@.len() - i,
        {
            let c = &self.convs[i];
            let name_ok: bool = match name {
                Some(t) => find_substring(c.name.as_str(), t),
                None => true,
            };
            let mem_ok: bool = match &members {
                Some(ids) => conv_contains_all(&c.members, ids),
                None => true,
            };
            proof {
                assert((name_ok && mem_ok) == conv_mult_matches(convs[i as int], nv, mv));
                lemma_all_conv_matches_push(convs.take(i as int), nv, mv, convs[i as int]);
                assert(convs.take(i as int).push(convs[i as int]) =~= convs.take(i + 1));
            }
            let ghost old_views = conv_views_of(list@);
            if name_ok && mem_ok {
                list.push(self.convs[i].clone());
                proof {
                    assert(conv_views_of(list@) =~= old_views + seq![convs[i as int]]);
                }
            } else {
                proof {
                    assert(old_views + Seq::<ConvRec>::empty() =~= old_views);
                }
            }
            i += 1;
        }
        proof {
            assert(convs.take(convs.len() as int) =~= convs);
        }
        if list.is_empty() {
            proof {
                assert(all_conv_matches(convs, nv, mv) =~= Seq::<ConvRec>::empty());
            }
            None
        } else {
            Some(list)
        }
    }

    /// The membership gate at a fixed instant: appends a message with the
    /// given identifier and timestamp iff `from` is currently a member of
    /// the conversation `to`, moving that conversation's latest-message time
    /// to `t`; otherwise rejects and leaves the store unchanged. When the
    /// clock reads later than the stored latest-message time, that time
    /// strictly increases.
    pub fn send_msg_at(&mut self, from: u128, to: u128, text: &str, id: u128, t: Timestamp) -> (r:
        Result<MsgInfo, StoreError>)
        requires
            ts_ok(t),
        ensures
            ({
                let cp = conv_pos(old(self)@.convs, to);
                let ok = cp < old(self)@.convs.len() && contains_id(
                    old(self)@.convs[cp].members,
                    from,
                );
                match r {
                    Ok(m) => ok && m@ == (MsgRec { id, text: text@, time: t, sender: from, conv: to })
                        && final(self)@.convs == old(self)@.convs.update(
                        cp,
                        ConvRec { last_msg: t, ..old(self)@.convs[cp] },
                    ) && final(self)@.msgs == old(self)@.msgs.push(m@) && final(self)@.users == old(
                        self,
                    )@.users && final(self)@.rels == old(self)@.rels && final(self)@.start == old(
                        self,
                    )@.start && (ts_lt(old(self)@.convs[cp].last_msg, t) ==> ts_lt(
                        old(self)@.convs[cp].last_msg,
                        final(self)@.convs[cp].last_msg,
                    )),
                    Err(e) => !ok && e == StoreError::NotAMember && final(self)@ == old(self)@,
                }
            }),
            store_wf(old(self)@) ==> store_wf(final(self)@),
    {
        let ghost pre = self@;
        let n = self.convs.len();
        let mut k: usize = 0;
        while k < n && self.convs[k].id != to
            invariant
                0 <= k <= n == self.convs@.len(),
                pre == self@,
                forall|j: int| 0 <= j < k ==> (#[trigger] pre.convs[j]).id != to,
            decreases n - k,
        {
            proof {
                assert(pre.convs[k as int].id != to);
            }
            k += 1;
        }
        if k == n {
            proof {
                lemma_conv_pos_is(pre.convs, to, pre.convs.len() as int);
            }
            return Err(StoreError::NotAMember);
        }
        proof {
            assert(pre.convs[k as int].id == to);
            lemma_conv_pos_is(pre.convs, to, k as int);
        }
        if !contains_id_exec(&self.convs[k].members, from) {
            return Err(StoreError::NotAMember);
        }
        let c = &mut self.convs[k];
        c.last_msg = t;
        let m = MsgInfo::load(id, String::from_str(text), t, from, to);
        let ret = m.clone();
        self.msgs.push(m);
        proof {
            let cp = k as int;
            assert(final(self)@.convs =~= pre.convs.update(
                cp,
                ConvRec { last_msg: t, ..pre.convs[cp] },
            ));
            assert(final(self)@.msgs =~= pre.msgs.push(ret@));
            assert(final(self)@.users =~= pre.users);
            assert(final(self)@.rels =~= pre.rels);
            if store_wf(pre) {
                let s2 = final(self)@;
                assert forall|idv: u128| contains_id(conv_ids_of(pre.convs), idv) implies
                    contains_id(conv_ids_of(s2.convs), idv) by {
                    let w = choose|w: int| 0 <= w < conv_ids_of(pre.convs).len() && conv_ids_of(
                        pre.convs,
                    )[w] == idv;
                    assert(s2.convs[w].id == pre.convs[w].id);
                    assert(conv_ids_of(s2.convs)[w] == idv);
                }
                assert forall|i: int| 0 <= i < s2.convs.len() implies conv_wf(
                    s2,
                    #[trigger] s2.convs[i],
                ) by {
                    assert(conv_wf(pre, pre.convs[i]));
                    assert(s2.convs[i].members == pre.convs[i].members);
                }
                assert forall|i: int| 0 <= i < s2.msgs.len() implies msg_wf(
                    s2,
                    #[trigger] s2.msgs[i],
                ) by {
                    if i < pre.msgs.len() {
                        assert(msg_wf(pre, pre.msgs[i]));
                        assert(contains_id(conv_ids_of(pre.convs), pre.msgs[i].conv));
                    } else {
                        assert(s2.msgs[i] == ret@);
                        assert(conv_wf(pre, pre.convs[cp]));
                        assert(contains_id(pre.convs[cp].members, from));
                        assert(contains_id(user_ids_of(pre.users), from));
                        assert(conv_ids_of(s2.convs)[cp] == to);
                        assert(contains_id(conv_ids_of(s2.convs), to));
                    }
                }
            }
        }
        Ok(ret)
    }

    /// The membership gate: appends a freshly stamped message iff `from` is
    /// currently a member of the conversation `to`, moving that
    /// conversation's latest-message time to the new message's timestamp;
    /// otherwise rejects and leaves the store unchanged.
    pub fn send_msg(&mut self, from: u128, to: u128, text: &str) -> (r: Result<MsgInfo, StoreError>)
        ensures
            ({
                let cp = conv_pos(old(self)@.convs, to);
                let ok = cp < old(self)@.convs.len() && contains_id(
                    old(self)@.convs[cp].members,
                    from,
                );
                match r {
                    Ok(m) => ok && m@.text == text@ && m@.sender == from && m@.conv == to && ts_ok(
                        m@.time,
                    ) && final(self)@.convs == old(self)@.convs.update(
                        cp,
                        ConvRec { last_msg: m@.time, ..old(self)@.convs[cp] },
                    ) && final(self)@.msgs == old(self)@.msgs.push(m@) && final(self)@.users == old(
                        self,
                    )@.users && final(self)@.rels == old(self)@.rels && final(self)@.start == old(
                        self,
                    )@.start,
                    Err(e) => !ok && e == StoreError::NotAMember && final(self)@ == old(self)@,
                }
            }),
            store_wf(old(self)@) ==> store_wf(final(self)@),
    {
        let id = fresh_id();
        let t = now_ts();
        self.send_msg_at(from, to, text, id, t)
    }

    /// The status between two users. A pair with no record yet gets a
    /// Neutral record created as a side effect of the lookup, and Neutral
    /// returned; a pair with a record gets that record's status, with the
    /// store untouched.
    pub fn get_rel_status(&mut self, user1: u128, user2: u128) -> (r: RelStatus)
        ensures
            ({
                let rp = rel_pos(old(self)@.rels, user1, user2);
                if rp < old(self)@.rels.len() {
                    r == old(self)@.rels[rp].status && final(self)@ == old(self)@
                } else {
                    r == RelStatus::Neutral && final(self)@ == (StoreV {
                        rels: old(self)@.rels.push(
                            RelRec { a: user1, b: user2, status: RelStatus::Neutral },
                        ),
                        ..old(self)@
                    })
                }
            }),
            store_wf(old(self)@) ==> store_wf(final(self)@),
    {
        let ghost pre = self@;
        let mut k: usize = 0;
        while k < self.rels.len()
            invariant
                0 <= k <= self.rels@.len(),
                pre == self@,
                forall|j: int| 0 <= j < k ==> !rel_matches_pair(#[trigger] pre.rels[j], user1, user2),
            decreases self.rels@.len() - k,
        {
            let rel = &self.rels[k];
            let has1 = rel.members[0] == user1 || rel.members[1] == user1;
            let has2 = rel.members[0] == user2 || rel.members[1] == user2;
            if has1 && has2 {
                proof {
                    assert(rel_matches_pair(pre.rels[k as int], user1, user2));
                    lemma_rel_pos_is(pre.rels, user1, user2, k as int);
                }
                return self.rels[k].status();
            }
            proof {
                assert(!rel_matches_pair(pre.rels[k as int], user1, user2));
            }
            k += 1;
        }
        proof {
            lemma_rel_pos_is(pre.rels, user1, user2, pre.rels.len() as int);
        }
        let mems: [u128; 2] = [user1, user2];
        proof {
            assert(mems[0] == user1 && mems[1] == user2);
        }
        let rec = Relationship::new(mems, None);
        self.rels.push(rec);
        proof {
            assert(final(self)@.rels =~= pre.rels.push(
                RelRec { a: user1, b: user2, status: RelStatus::Neutral },
            ));
            assert(final(self)@ == (StoreV {
                rels: pre.rels.push(RelRec { a: user1, b: user2, status: RelStatus::Neutral }),
                ..pre
            }));
            if store_wf(pre) {
                lemma_wf_rel_push(pre, RelRec { a: user1, b: user2, status: RelStatus::Neutral });
            }
        }
        RelStatus::Neutral
    }

    /// Populates users from a users file's text, appending after those
    /// already present. One malformed line aborts the whole load with the
    /// store unchanged.
    pub fn load_users(&mut self, content: &str) -> (r: Result<(), LoadError>)
        ensures
            match parse_users_text(content@) {
                Some(us) => r == Ok::<(), LoadError>(()) && final(self)@ == (StoreV {
                    users: old(self)@.users + us,
                    ..old(self)@
                }),
                None => r == Err::<(), LoadError>(LoadError::BadUserRecord) && final(self)@ == old(
                    self,
                )@,
            },
            store_wf(old(self)@) ==> store_wf(final(self)@),
    {
        let ghost pre = self@;
        let lines = record_lines(content);
        let ghost lseq = content_lines(content@);
        let mut acc: Vec<UserInfo> = Vec::new();
        proof {
            assert(lseq.skip(0) =~= lseq);
            assert(user_views_of(acc@) =~= Seq::<UserRec>::empty());
            assert(user_views_of(acc@) + parse_user_lines(lseq)->Some_0 =~= parse_user_lines(
                lseq,
            )->Some_0);
        }
        let mut i: usize = 0;
        while i < lines.len()
            invariant
                0 <= i <= lines@.len() == lseq.len(),
                lines.deep_view() == lseq,
                lseq == content_lines(content@),
                parse_user_lines(lseq) == (match parse_user_lines(lseq.skip(i as int)) {
                    None => None::<Seq<UserRec>>,
                    Some(rest) => Some(user_views_of(acc@) + rest),
                }),
                forall|j: int| 0 <= j < acc@.len() ==> ts_ok((#[trigger] acc@[j])@.created),
            decreases lines@.len() - i,
        {
            proof {
                assert(lines.deep_view()[i as int] == lines@[i as int]@);
                assert(lseq.skip(i as int)[0] == lseq[i as int]);
                assert(lseq.skip(i as int).drop_first() =~= lseq.skip(i + 1));
            }
            match crate::codec::parse_user_line(lines[i].as_str()) {
                None => {
                    return Err(LoadError::BadUserRecord);
                },
                Some(u) => {
                    let ghost old_views = user_views_of(acc@);
                    proof {
                        assert(ts_ok(u@.created));
                    }
                    acc.push(u);
                    proof {
                        assert(user_views_of(acc@) =~= old_views.push(
                            parse_user_body(lseq[i as int])->Some_0,
                        ));
                        if parse_user_lines(lseq.skip(i + 1)) is Some {
                            let rest = parse_user_lines(lseq.skip(i + 1))->Some_0;
                            assert(old_views + (seq![parse_user_body(lseq[i as int])->Some_0]
                                + rest) =~= user_views_of(acc@) + rest);
                        }
                    }
                },
            }
            i += 1;
        }
        proof {
            assert(lseq.skip(lseq.len() as int) =~= Seq::<Seq<char>>::empty());
            assert(parse_user_lines(Seq::empty()) == Some(Seq::<UserRec>::empty()));
            assert(user_views_of(acc@) + Seq::<UserRec>::empty() =~= user_views_of(acc@));
        }
        let ghost accv = user_views_of(acc@);
        self.users.append(&mut acc);
        proof {
            assert(final(self)@.users =~= pre.users + accv);
            assert(final(self)@ == (StoreV { users: pre.users + accv, ..pre }));
            if store_wf(pre) {
                lemma_wf_users_extend(pre, accv);
            }
        }
        Ok(())
    }

    /// Populates conversations from a conversations file's text, resolving
    /// member ids against the users already present: a malformed line aborts
    /// the whole load, while a well-formed member id with no matching user
    /// is silently dropped.
    pub fn load_convs(&mut self, content: &str) -> (r: Result<(), LoadError>)
        ensures
            match parse_convs_text(content@, user_ids_of(old(self)@.users)) {
                Some(cs) => r == Ok::<(), LoadError>(()) && final(self)@ == (StoreV {
                    convs: old(self)@.convs + cs,
                    ..old(self)@
                }),
                None => r == Err::<(), LoadError>(LoadError::BadConvRecord) && final(self)@ == old(
                    self,
                )@,
            },
            store_wf(old(self)@) ==> store_wf(final(self)@),
    {
        let ghost pre = self@;
        let uids = self.user_ids_vec();
        let lines = record_lines(content);
        let ghost lseq = content_lines(content@);
        let mut acc: Vec<ConvInfo> = Vec::new();
        proof {
            assert(lseq.skip(0) =~= lseq);
            assert(conv_views_of(acc@) =~= Seq::<ConvRec>::empty());
            assert(conv_views_of(acc@) + parse_conv_lines(lseq, uids@)->Some_0
                =~= parse_conv_lines(lseq, uids@)->Some_0);
        }
        let mut i: usize = 0;
        while i < lines.len()
            invariant
                0 <= i <= lines@.len() == lseq.len(),
                lines.deep_view() == lseq,
                lseq == content_lines(content@),
                uids@ == user_ids_of(pre.users),
                pre == self@,
                parse_conv_lines(lseq, uids@) == (match parse_conv_lines(
                    lseq.skip(i as int),
                    uids@,
                ) {
                    None => None::<Seq<ConvRec>>,
                    Some(rest) => Some(conv_views_of(acc@) + rest),
                }),
                forall|j: int, k: int| 0 <= j < acc@.len() && 0 <= k
                    < (#[trigger] acc@[j])@.members.len() ==> contains_id(
                    uids@,
                    #[trigger] acc@[j]@.members[k],
                ),
                forall|j: int| 0 <= j < acc@.len() ==> ts_ok((#[trigger] acc@[j])@.start) && ts_ok(
                    acc@[j]@.last_msg,
                ),
            decreases lines@.len() - i,
        {
            proof {
                assert(lines.deep_view()[i as int] == lines@[i as int]@);
                assert(lseq.skip(i as int)[0] == lseq[i as int]);
                assert(lseq.skip(i as int).drop_first() =~= lseq.skip(i + 1));
            }
            match crate::codec::parse_conv_line(lines[i].as_str(), &uids) {
                None => {
                    return Err(LoadError::BadConvRecord);
                },
                Some(c) => {
                    let ghost old_views = conv_views_of(acc@);
                    proof {
                        let l = lseq[i as int];
                        let fsp = crate::text::split_at(l, seq![';']);
                        let mem_parts: Seq<Seq<char>> = if fsp[2].len() == 0 {
                            Seq::empty()
                        } else {
                            crate::text::split_at(fsp[2], seq![','])
                        };
                        crate::codec::lemma_member_ids_parse_present(mem_parts, uids@);
                        assert(c@.members == member_ids_parse(mem_parts, uids@)->Some_0);
                        assert(ts_ok(c@.start) && ts_ok(c@.last_msg));
                    }
                    acc.push(c);
                    proof {
                        assert(conv_views_of(acc@) =~= old_views.push(
                            parse_conv_body(lseq[i as int], uids@)->Some_0,
                        ));
                        if parse_conv_lines(lseq.skip(i + 1), uids@) is Some {
                            let rest = parse_conv_lines(lseq.skip(i + 1), uids@)->Some_0;
                            assert(old_views + (seq![parse_conv_body(
                                lseq[i as int],
                                uids@,
                            )->Some_0] + rest) =~= conv_views_of(acc@) + rest);
                        }
                    }
                },
            }
            i += 1;
        }
        proof {
            assert(lseq.skip(lseq.len() as int) =~= Seq::<Seq<char>>::empty());
            assert(parse_conv_lines(Seq::empty(), uids@) == Some(Seq::<ConvRec>::empty()));
            assert(conv_views_of(acc@) + Seq::<ConvRec>::empty() =~= conv_views_of(acc@));
        }
        let ghost accv = conv_views_of(acc@);
        self.convs.append(&mut acc);
        proof {
            assert(final(self)@.convs =~= pre.convs + accv);
            assert(final(self)@ == (StoreV { convs: pre.convs + accv, ..pre }));
            if store_wf(pre) {
                lemma_wf_convs_extend(pre, accv);
            }
        }
        Ok(())
    }

    /// Populates messages from a messages file's text, resolving the sender
    /// and conversation of each against those already present: a message can
    /// never outlive its referents, so an unresolvable reference aborts the
    /// load like a malformed line.
    pub fn load_msgs(&mut self, content: &str) -> (r: Result<(), LoadError>)
        ensures
            match parse_msgs_text(
                content@,
                user_ids_of(old(self)@.users),
                conv_ids_of(old(self)@.convs),
            ) {
                Some(ms) => r == Ok::<(), LoadError>(()) && final(self)@ == (StoreV {
                    msgs: old(self)@.msgs + ms,
                    ..old(self)@
                }),
                None => r == Err::<(), LoadError>(LoadError::BadMsgRecord) && final(self)@ == old(
                    self,
                )@,
            },
            store_wf(old(self)@) ==> store_wf(final(self)@),
    {
        let ghost pre = self@;
        let uids = self.user_ids_vec();
        let cids = self.conv_ids_vec();
        let lines = record_lines(content);
        let ghost lseq = content_lines(content@);
        let mut acc: Vec<MsgInfo> = Vec::new();
        proof {
            assert(lseq.skip(0) =~= lseq);
            assert(msg_views_of(acc@) =~= Seq::<MsgRec>::empty());
            assert(msg_views_of(acc@) + parse_msg_lines(lseq, uids@, cids@)->Some_0
                =~= parse_msg_lines(lseq, uids@, cids@)->Some_0);
        }
        let mut i: usize = 0;
        while i < lines.len()
            invariant
                0 <= i <= lines@.len() == lseq.len(),
                lines.deep_view() == lseq,
                lseq == content_lines(content@),
                uids@ == user_ids_of(pre.users),
                cids@ == conv_ids_of(pre.convs),
                pre == self@,
                parse_msg_lines(lseq, uids@, cids@) == (match parse_msg_lines(
                    lseq.skip(i as int),
                    uids@,
                    cids@,
                ) {
                    None => None::<Seq<MsgRec>>,
                    Some(rest) => Some(msg_views_of(acc@) + rest),
                }),
                forall|j: int| 0 <= j < acc@.len() ==> contains_id(
                    uids@,
                    (#[trigger] acc@[j])@.sender,
                ) && contains_id(cids@, acc@[j]@.conv) && ts_ok(acc@[j]@.time),
            decreases lines@.len() - i,
        {
            proof {
                assert(lines.deep_view()[i as int] == lines@[i as int]@);
                assert(lseq.skip(i as int)[0] == lseq[i as int]);
                assert(lseq.skip(i as int).drop_first() =~= lseq.skip(i + 1));
            }
            match crate::codec::parse_msg_line(lines[i].as_str(), &uids, &cids) {
                None => {
                    return Err(LoadError::BadMsgRecord);
                },
                Some(m) => {
                    let ghost old_views = msg_views_of(acc@);
                    acc.push(m);
                    proof {
                        assert(msg_views_of(acc@) =~= old_views.push(
                            parse_msg_body(lseq[i as int], uids@, cids@)->Some_0,
                        ));
                        if parse_msg_lines(lseq.skip(i + 1), uids@, cids@) is Some {
                            let rest = parse_msg_lines(lseq.skip(i + 1), uids@, cids@)->Some_0;
                            assert(old_views + (seq![parse_msg_body(
                                lseq[i as int],
                                uids@,
                                cids@,
                            )->Some_0] + rest) =~= msg_views_of(acc@) + rest);
                        }
                    }
                },
            }
            i += 1;
        }
        proof {
            assert(lseq.skip(lseq.len() as int) =~= Seq::<Seq<char>>::empty());
            assert(parse_msg_lines(Seq::empty(), uids@, cids@) == Some(Seq::<MsgRec>::empty()));
            assert(msg_views_of(acc@) + Seq::<MsgRec>::empty() =~= msg_views_of(acc@));
        }
        let ghost accv = msg_views_of(acc@);
        self.msgs.append(&mut acc);
        proof {
            assert(final(self)@.msgs =~= pre.msgs + accv);
            assert(final(self)@ == (StoreV { msgs: pre.msgs + accv, ..pre }));
            if store_wf(pre) {
                lemma_wf_msgs_extend(pre, accv);
            }
        }
        Ok(())
    }

    /// Populates relationships from a relationships file's text; one
    /// malformed line aborts the whole load with the store unchanged.
    pub fn load_rels(&mut self, content: &str) -> (r: Result<(), LoadError>)
        ensures
            match parse_rels_text(content@) {
                Some(rs) => r == Ok::<(), LoadError>(()) && final(self)@ == (StoreV {
                    rels: old(self)@.rels + rs,
                    ..old(self)@
                }),
                None => r == Err::<(), LoadError>(LoadError::BadRelRecord) && final(self)@ == old(
                    self,
                )@,
            },
            store_wf(old(self)@) ==> store_wf(final(self)@),
    {
        let ghost pre = self@;
        let lines = record_lines(content);
        let ghost lseq = content_lines(content@);
        let mut acc: Vec<Relationship> = Vec::new();
        proof {
            assert(lseq.skip(0) =~= lseq);
            assert(rel_views_of(acc@) =~= Seq::<RelRec>::empty());
            assert(rel_views_of(acc@) + parse_rel_lines(lseq)->Some_0 =~= parse_rel_lines(
                lseq,
            )->Some_0);
        }
        let mut i: usize = 0;
        while i < lines.len()
            invariant
                0 <= i <= lines@.len() == lseq.len(),
                lines.deep_view() == lseq,
                lseq == content_lines(content@),
                parse_rel_lines(lseq) == (match parse_rel_lines(lseq.skip(i as int)) {
                    None => None::<Seq<RelRec>>,
                    Some(rest) => Some(rel_views_of(acc@) + rest),
                }),
            decreases lines@.len() - i,
        {
            proof {
                assert(lines.deep_view()[i as int] == lines@[i as int]@);
                assert(lseq.skip(i as int)[0] == lseq[i as int]);
                assert(lseq.skip(i as int).drop_first() =~= lseq.skip(i + 1));
            }
            match crate::codec::parse_rel_line(lines[i].as_str()) {
                None => {
                    return Err(LoadError::BadRelRecord);
                },
                Some(rel) => {
                    let ghost old_views = rel_views_of(acc@);
                    acc.push(rel);
                    proof {
                        assert(rel_views_of(acc@) =~= old_views.push(
                            parse_rel_body(lseq[i as int])->Some_0,
                        ));
                        if parse_rel_lines(lseq.skip(i + 1)) is Some {
                            let rest = parse_rel_lines(lseq.skip(i + 1))->Some_0;
                            assert(old_views + (seq![parse_rel_body(lseq[i as int])->Some_0]
                                + rest) =~= rel_views_of(acc@) + rest);
                        }
                    }
                },
            }
            i += 1;
        }
        proof {
            assert(lseq.skip(lseq.len() as int) =~= Seq::<Seq<char>>::empty());
            assert(parse_rel_lines(Seq::empty()) == Some(Seq::<RelRec>::empty()));
            assert(rel_views_of(acc@) + Seq::<RelRec>::empty() =~= rel_views_of(acc@));
        }
        let ghost accv = rel_views_of(acc@);
        self.rels.append(&mut acc);
        proof {
            assert(final(self)@.rels =~= pre.rels + accv);
            assert(final(self)@ == (StoreV { rels: pre.rels + accv, ..pre }));
            if store_wf(pre) {
                lemma_wf_rels_extend(pre, accv);
            }
        }
        Ok(())
    }

    /// Serializes every user to the users-file text and drains them from the
    /// store: a destructive flush, meant as the last operation on this
    /// entity kind in a process run. When every record's text fields are
    /// clean and timestamps representable, loading the returned text
    /// reproduces the drained records exactly, in order.
    pub fn save_users(&mut self) -> (r: String)
        ensures
            r@ == users_text_of(old(self)@.users),
            final(self)@ == (StoreV { users: Seq::<UserRec>::empty(), ..old(self)@ }),
            (forall|i: int| 0 <= i < old(self)@.users.len() ==> ts_ok(
                (#[trigger] old(self)@.users[i]).created,
            ) && user_clean(old(self)@.users[i])) ==> parse_users_text(r@) == Some(
                old(self)@.users,
            ),
            old(self)@.convs.len() == 0 && old(self)@.msgs.len() == 0 && store_wf(old(self)@)
                ==> store_wf(final(self)@),
    {
        let ghost pre = self@;
        let mut out = String::new();
        proof {
            assert(user_bodies_of(pre.users.take(0)) =~= Seq::<Seq<char>>::empty());
            assert(out@ =~= users_text_of(pre.users.take(0)));
        }
        let mut i: usize = 0;
        while i < self.users.len()
            invariant
                0 <= i <= self.users@.len(),
                pre == self@,
                out@ == users_text_of(pre.users.take(i as int)),
                forall|j: int| 0 <= j < i ==> (ts_ok((#[trigger] pre.users[j]).created)
                    && user_clean(pre.users[j]) ==> parse_user_body(user_body_of(pre.users[j]))
                    == Some(pre.users[j]) && !user_body_of(pre.users[j]).contains('\n')),
            decreases self.users@.len() - i,
        {
            let line = self.users[i].to_string();
            out.append(line.as_str());
            proof {
                let taken = pre.users.take(i as int);
                assert(user_bodies_of(pre.users.take(i + 1)) =~= user_bodies_of(taken).push(
                    user_body_of(pre.users[i as int]),
                ));
                crate::codec::lemma_cat_lines_push(
                    user_bodies_of(taken),
                    user_body_of(pre.users[i as int]),
                );
                assert(out@ =~= users_text_of(pre.users.take(i + 1)));
            }
            i += 1;
        }
        proof {
            assert(pre.users.take(pre.users.len() as int) =~= pre.users);
        }
        self.users.clear();
        proof {
            assert(final(self)@.users =~= Seq::<UserRec>::empty());
            assert(final(self)@ == (StoreV { users: Seq::<UserRec>::empty(), ..pre }));
            if forall|k: int| 0 <= k < pre.users.len() ==> ts_ok(
                (#[trigger] pre.users[k]).created,
            ) && user_clean(pre.users[k]) {
                crate::codec::lemma_users_file_round_trip(pre.users);
            }
        }
        out
    }

    /// Serializes every conversation to the conversations-file text and
    /// drains them: a destructive flush. When every record is clean, loading
    /// the returned text against users that include every member reproduces
    /// the drained records exactly.
    pub fn save_convs(&mut self) -> (r: String)
        ensures
            r@ == convs_text_of(old(self)@.convs),
            final(self)@ == (StoreV { convs: Seq::<ConvRec>::empty(), ..old(self)@ }),
            (forall|i: int| 0 <= i < old(self)@.convs.len() ==> ts_ok(
                (#[trigger] old(self)@.convs[i]).start,
            ) && ts_ok(old(self)@.convs[i].last_msg) && conv_clean(old(self)@.convs[i]))
                ==> forall|uids: Seq<u128>|
                (forall|i: int, j: int| 0 <= i < old(self)@.convs.len() && 0 <= j
                    < (#[trigger] old(self)@.convs[i]).members.len() ==> contains_id(
                    uids,
                    #[trigger] old(self)@.convs[i].members[j],
                )) ==> parse_convs_text(r@, uids) == Some(old(self)@.convs),
            old(self)@.msgs.len() == 0 && store_wf(old(self)@) ==> store_wf(final(self)@),
    {
        let ghost pre = self@;
        let mut out = String::new();
        proof {
            assert(conv_bodies_of(pre.convs.take(0)) =~= Seq::<Seq<char>>::empty());
            assert(out@ =~= convs_text_of(pre.convs.take(0)));
        }
        let mut i: usize = 0;
        while i < self.convs.len()
            invariant
                0 <= i <= self.convs@.len(),
                pre == self@,
                out@ == convs_text_of(pre.convs.take(i as int)),
                forall|j: int| 0 <= j < i ==> (ts_ok((#[trigger] pre.convs[j]).start) && ts_ok(
                    pre.convs[j].last_msg,
                ) && conv_clean(pre.convs[j]) ==> !conv_body_of(pre.convs[j]).contains('\n')
                    && forall|uids: Seq<u128>|
                    (forall|k: int| 0 <= k < pre.convs[j].members.len() ==> contains_id(
                        uids,
                        #[trigger] pre.convs[j].members[k],
                    )) ==> parse_conv_body(conv_body_of(pre.convs[j]), uids) == Some(
                        pre.convs[j],
                    )),
            decreases self.convs@.len() - i,
        {
            let line = self.convs[i].to_string();
            out.append(line.as_str());
            proof {
                let taken = pre.convs.take(i as int);
                assert(conv_bodies_of(pre.convs.take(i + 1)) =~= conv_bodies_of(taken).push(
                    conv_body_of(pre.convs[i as int]),
                ));
                crate::codec::lemma_cat_lines_push(
                    conv_bodies_of(taken),
                    conv_body_of(pre.convs[i as int]),
                );
                assert(out@ =~= convs_text_of(pre.convs.take(i + 1)));
            }
            i += 1;
        }
        proof {
            assert(pre.convs.take(pre.convs.len() as int) =~= pre.convs);
        }
        self.convs.clear();
        proof {
            assert(final(self)@.convs =~= Seq::<ConvRec>::empty());
            assert(final(self)@ == (StoreV { convs: Seq::<ConvRec>::empty(), ..pre }));
            if forall|k: int| 0 <= k < pre.convs.len() ==> ts_ok((#[trigger] pre.convs[k]).start)
                && ts_ok(pre.convs[k].last_msg) && conv_clean(pre.convs[k]) {
                assert forall|uids: Seq<u128>|
                    (forall|i2: int, j2: int| 0 <= i2 < pre.convs.len() && 0 <= j2
                        < (#[trigger] pre.convs[i2]).members.len() ==> contains_id(
                        uids,
                        #[trigger] pre.convs[i2].members[j2],
                    )) implies parse_convs_text(out@, uids) == Some(pre.convs) by {
                    assert forall|i2: int| 0 <= i2 < pre.convs.len() implies parse_conv_body(
                        conv_body_of(#[trigger] pre.convs[i2]),
                        uids,
                    ) == Some(pre.convs[i2]) && !conv_body_of(pre.convs[i2]).contains('\n') by {
                        assert(ts_ok(pre.convs[i2].start) && ts_ok(pre.convs[i2].last_msg)
                            && conv_clean(pre.convs[i2]));
                        assert(forall|k: int| 0 <= k < pre.convs[i2].members.len() ==> contains_id(
                            uids,
                            #[trigger] pre.convs[i2].members[k],
                        ));
                    }
                    crate::codec::lemma_convs_file_round_trip(pre.convs, uids);
                }
            }
        }
        out
    }

    /// Serializes every message to the messages-file text and drains them:
    /// a destructive flush. When every record is clean, loading the returned
    /// text against users and conversations that include every referent
    /// reproduces the drained records exactly.
    pub fn save_msgs(&mut self) -> (r: String)
        ensures
            r@ == msgs_text_of(old(self)@.msgs),
            final(self)@ == (StoreV { msgs: Seq::<MsgRec>::empty(), ..old(self)@ }),
            (forall|i: int| 0 <= i < old(self)@.msgs.len() ==> ts_ok(
                (#[trigger] old(self)@.msgs[i]).time,
            ) && msg_clean(old(self)@.msgs[i])) ==> forall|uids: Seq<u128>, cids: Seq<u128>|
                (forall|i: int| 0 <= i < old(self)@.msgs.len() ==> contains_id(
                    uids,
                    (#[trigger] old(self)@.msgs[i]).sender,
                ) && contains_id(cids, old(self)@.msgs[i].conv)) ==> parse_msgs_text(
                    r@,
                    uids,
                    cids,
                ) == Some(old(self)@.msgs),
            store_wf(old(self)@) ==> store_wf(final(self)@),
    {
        let ghost pre = self@;
        let mut out = String::new();
        proof {
            assert(msg_bodies_of(pre.msgs.take(0)) =~= Seq::<Seq<char>>::empty());
            assert(out@ =~= msgs_text_of(pre.msgs.take(0)));
        }
        let mut i: usize = 0;
        while i < self.msgs.len()
            invariant
                0 <= i <= self.msgs@.len(),
                pre == self@,
                out@ == msgs_text_of(pre.msgs.take(i as int)),
                forall|j: int| 0 <= j < i ==> (ts_ok((#[trigger] pre.msgs[j]).time) && msg_clean(
                    pre.msgs[j],
                ) ==> !msg_body_of(pre.msgs[j]).contains('\n') && forall|
                    uids: Seq<u128>,
                    cids: Seq<u128>,
                |
                    contains_id(uids, pre.msgs[j].sender) && contains_id(cids, pre.msgs[j].conv)
                        ==> parse_msg_body(msg_body_of(pre.msgs[j]), uids, cids) == Some(
                        pre.msgs[j],
                    )),
            decreases self.msgs@.len() - i,
        {
            let line = self.msgs[i].to_string();
            out.append(line.as_str());
            proof {
                let taken = pre.msgs.take(i as int);
                assert(msg_bodies_of(pre.msgs.take(i + 1)) =~= msg_bodies_of(taken).push(
                    msg_body_of(pre.msgs[i as int]),
                ));
                crate::codec::lemma_cat_lines_push(
                    msg_bodies_of(taken),
                    msg_body_of(pre.msgs[i as int]),
                );
                assert(out@ =~= msgs_text_of(pre.msgs.take(i + 1)));
            }
            i += 1;
        }
        proof {
            assert(pre.msgs.take(pre.msgs.len() as int) =~= pre.msgs);
        }
        self.msgs.clear();
        proof {
            assert(final(self)@.msgs =~= Seq::<MsgRec>::empty());
            assert(final(self)@ == (StoreV { msgs: Seq::<MsgRec>::empty(), ..pre }));
            if forall|k: int| 0 <= k < pre.msgs.len() ==> ts_ok((#[trigger] pre.msgs[k]).time)
                && msg_clean(pre.msgs[k]) {
                assert forall|uids: Seq<u128>, cids: Seq<u128>|
                    (forall|i2: int| 0 <= i2 < pre.msgs.len() ==> contains_id(
                        uids,
                        (#[trigger] pre.msgs[i2]).sender,
                    ) && contains_id(cids, pre.msgs[i2].conv)) implies parse_msgs_text(
                    out@,
                    uids,
                    cids,
                ) == Some(pre.msgs) by {
                    assert forall|i2: int| 0 <= i2 < pre.msgs.len() implies parse_msg_body(
                        msg_body_of(#[trigger] pre.msgs[i2]),
                        uids,
                        cids,
                    ) == Some(pre.msgs[i2]) && !msg_body_of(pre.msgs[i2]).contains('\n') by {
                        assert(ts_ok(pre.msgs[i2].time) && msg_clean(pre.msgs[i2]));
                        assert(contains_id(uids, pre.msgs[i2].sender) && contains_id(
                            cids,
                            pre.msgs[i2].conv,
                        ));
                    }
                    crate::codec::lemma_msgs_file_round_trip(pre.msgs, uids, cids);
                }
            }
        }
        out
    }

    /// Serializes every relationship to the relationships-file text and
    /// drains them: a destructive flush. Loading the returned text always
    /// reproduces the drained records exactly.
    pub fn save_rels(&mut self) -> (r: String)
        ensures
            r@ == rels_text_of(old(self)@.rels),
            final(self)@ == (StoreV { rels: Seq::<RelRec>::empty(), ..old(self)@ }),
            parse_rels_text(r@) == Some(old(self)@.rels),
            store_wf(old(self)@) ==> store_wf(final(self)@),
    {
        let ghost pre = self@;
        let mut out = String::new();
        proof {
            assert(rel_bodies_of(pre.rels.take(0)) =~= Seq::<Seq<char>>::empty());
            assert(out@ =~= rels_text_of(pre.rels.take(0)));
        }
        let mut i: usize = 0;
        while i < self.rels.len()
            invariant
                0 <= i <= self.rels@.len(),
                pre == self@,
                out@ == rels_text_of(pre.rels.take(i as int)),
                forall|j: int| 0 <= j < i ==> parse_rel_body(
                    rel_body_of(#[trigger] pre.rels[j]),
                ) == Some(pre.rels[j]) && !rel_body_of(pre.rels[j]).contains('\n'),
            decreases self.rels@.len() - i,
        {
            let line = self.rels[i].to_string();
            out.append(line.as_str());
            proof {
                let taken = pre.rels.take(i as int);
                assert(rel_bodies_of(pre.rels.take(i + 1)) =~= rel_bodies_of(taken).push(
                    rel_body_of(pre.rels[i as int]),
                ));
                crate::codec::lemma_cat_lines_push(
                    rel_bodies_of(taken),
                    rel_body_of(pre.rels[i as int]),
                );
                assert(out@ =~= rels_text_of(pre.rels.take(i + 1)));
            }
            i += 1;
        }
        proof {
            assert(pre.rels.take(pre.rels.len() as int) =~= pre.rels);
        }
        self.rels.clear();
        proof {
            assert(final(self)@.rels =~= Seq::<RelRec>::empty());
            assert(final(self)@ == (StoreV { rels: Seq::<RelRec>::empty(), ..pre }));
            crate::codec::lemma_rels_file_round_trip(pre.rels);
        }
        out
    }

    /// All users matching the query, in store order, or nothing when there
    /// is no match; the matching rule is `get_user`'s.
    pub fn get_user_mult(&self, option: &str, search: &str) -> (r: Option<Vec<UserInfo>>)
        ensures
            match r {
                Some(v) => v@.len() > 0 && user_views_of(v@) == all_user_matches(
                    self@.users,
                    option@,
                    search@,
                ),
                None => all_user_matches(self@.users, option@, search@) == Seq::<UserRec>::empty(),
            },
    {
        let is_id = str_eq(option, "ID");
        let is_name = str_eq(option, "NAME");
        let is_email = str_eq(option, "EMAIL");
        if !is_id && !is_name && !is_email {
            proof {
                lemma_unknown_option_matches_none(self@.users, option@, search@);
            }
            return None;
        }
        let term_trim = trim_ws(search);
        let term_lower = to_lower(search);
        let ghost users = self@.users;
        let mut list: Vec<UserInfo> = Vec::new();
        proof {
            assert(users.take(0) =~= Seq::<UserRec>::empty());
            assert(user_views_of(list@) =~= all_user_matches(users.take(0), option@, search@));
        }
        let mut i: usize = 0;
        while i < self.users.len()
            invariant
                0 <= i <= self.users@.len(),
                users == self@.users,
                is_id == (option@ == "ID"@),
                is_name == (option@ == "NAME"@),
                is_email == (option@ == "EMAIL"@),
                is_id || is_name || is_email,
                term_trim@ == trim_spec(search@),
                term_lower@ == lower_of(search@),
                user_views_of(list@) == all_user_matches(users.take(i as int), option@, search@),
            decreases self.users@.len() - i,
        {
            let u = &self.users[i];
            let m: bool = if is_id {
                let t = id_text(u.id);
                str_eq(t.as_str(), term_trim)
            } else if is_name {
                let ln = to_lower(u.name.as_str());
                find_substring(ln.as_str(), term_lower.as_str())
            } else {
                let le = to_lower(u.email.as_str());
                find_substring(le.as_str(), term_lower.as_str())
            };
            proof {
                assert(m == user_matches(users[i as int], option@, search@));
                lemma_all_user_matches_push(users.take(i as int), option@, search@, users[i as int]);
                assert(users.take(i as int).push(users[i as int]) =~= users.take(i + 1));
            }
            let ghost old_views = user_views_of(list@);
            if m {
                list.push(self.users[i].clone());
                proof {
                    assert(user_views_of(list@) =~= old_views + seq![users[i as int]]);
                }
            } else {
                proof {
                    assert(old_views + Seq::<UserRec>::empty() =~= old_views);
                }
            }
            i += 1;
        }
        proof {
            assert(users.take(users.len() as int) =~= users);
        }
        if list.is_empty() {
            proof {
                assert(all_user_matches(users, option@, search@) =~= Seq::<UserRec>::empty());
            }
            None
        } else {
            Some(list)
        }
    }
}

} // verus!
