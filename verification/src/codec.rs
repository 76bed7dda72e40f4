//! The flat-file codec: one line per record, fields separated by `;`, the
//! conversation member list separated by `,`, timestamps as RFC 3339 text.
//! The spec functions here define both directions — the exact text a record
//! serializes to, and what a line parses back to — and the lemmas tie them
//! together so that loading undoes saving.

use vstd::prelude::*;
use vstd::string::*;
use crate::clock::{
    Timestamp,
    rfc3339_of,
    rfc3339_parse,
    ts_norm,
    ts_ok,
    is_time_char,
    ts_text,
    ts_parse_rfc3339,
};
use crate::entities::{ConvRec, MsgRec, RelRec, RelStatus, UserRec, ConvInfo, MsgInfo, Relationship, UserInfo};
use crate::ids::{uuid_parse, uuid_text_of, is_uuid_char, id_text, id_parse};
use crate::text::{
    join_with,
    lemma_split_at_len,
    lemma_split_join,
    split_at,
    str_eq,
};

verus! {

// Generic helpers ----------------------------------------------------------

/// Whether `id` occurs among `ids`.
pub open spec fn contains_id(ids: Seq<u128>, id: u128) -> bool {
    exists|i: int| 0 <= i < ids.len() && ids[i] == id
}

/// The identifiers of `users`, in store order.
pub open spec fn user_ids_of(users: Seq<UserRec>) -> Seq<u128> {
    Seq::new(users.len(), |i: int| users[i].id)
}

/// The identifiers of `convs`, in store order.
pub open spec fn conv_ids_of(convs: Seq<ConvRec>) -> Seq<u128> {
    Seq::new(convs.len(), |i: int| convs[i].id)
}

/// The record bodies, each followed by one newline, concatenated.
pub open spec fn cat_lines(bodies: Seq<Seq<char>>) -> Seq<char>
    decreases bodies.len(),
{
    if bodies.len() == 0 {
        Seq::empty()
    } else {
        bodies[0] + seq!['\n'] + cat_lines(bodies.drop_first())
    }
}

pub proof fn lemma_cat_lines_push(bodies: Seq<Seq<char>>, b: Seq<char>)
    ensures
        cat_lines(bodies.push(b)) == cat_lines(bodies) + b + seq!['\n'],
    decreases bodies.len(),
{
    if bodies.len() == 0 {
        assert(bodies.push(b).drop_first() =~= Seq::<Seq<char>>::empty());
        assert(cat_lines(Seq::<Seq<char>>::empty()) == Seq::<char>::empty());
        assert(bodies.push(b)[0] == b);
        assert(cat_lines(bodies) == Seq::<char>::empty());
        assert(cat_lines(bodies.push(b)) =~= cat_lines(bodies) + b + seq!['\n']);
    } else {
        assert(bodies.push(b).drop_first() =~= bodies.drop_first().push(b));
        lemma_cat_lines_push(bodies.drop_first(), b);
        assert(cat_lines(bodies.push(b)) =~= cat_lines(bodies) + b + seq!['\n']);
    }
}

pub proof fn lemma_cat_lines_join(bodies: Seq<Seq<char>>)
    ensures
        join_with(bodies.push(Seq::empty()), '\n') == cat_lines(bodies),
    decreases bodies.len(),
{
    let parts = bodies.push(Seq::empty());
    if bodies.len() == 0 {
        assert(join_with(parts, '\n') =~= cat_lines(bodies));
    } else {
        lemma_cat_lines_join(bodies.drop_first());
        assert(parts.drop_first() =~= bodies.drop_first().push(Seq::empty()));
        assert(join_with(parts, '\n') =~= cat_lines(bodies));
    }
}

/// The record lines of a file's text: its newline-separated pieces, without
/// a final empty piece left by a trailing newline.
pub open spec fn content_lines(content: Seq<char>) -> Seq<Seq<char>> {
    let ls = split_at(content, seq!['\n']);
    if ls.len() > 0 && ls.last().len() == 0 {
        ls.drop_last()
    } else {
        ls
    }
}

/// Splitting a saved file recovers exactly the record bodies, as long as no
/// body contains a newline.
pub proof fn lemma_content_lines_of_cat(bodies: Seq<Seq<char>>)
    requires
        forall|i: int| 0 <= i < bodies.len() ==> !(#[trigger] bodies[i]).contains('\n'),
    ensures
        content_lines(cat_lines(bodies)) == bodies,
{
    let parts = bodies.push(Seq::<char>::empty());
    lemma_cat_lines_join(bodies);
    assert(!Seq::<char>::empty().contains('\n'));
    assert forall|i: int| 0 <= i < parts.len() implies !(#[trigger] parts[i]).contains('\n') by {
        if i < bodies.len() {
            assert(parts[i] == bodies[i]);
        }
    }
    lemma_split_join(parts, '\n');
    assert(parts.last().len() == 0);
    assert(parts.drop_last() =~= bodies);
}

/// Unfolded form of a three-piece join.
pub proof fn lemma_join3(a: Seq<char>, b: Seq<char>, c: Seq<char>, d: char)
    ensures
        join_with(seq![a, b, c], d) == a + seq![d] + b + seq![d] + c,
{
    let p3 = seq![a, b, c];
    let p2 = seq![b, c];
    let p1 = seq![c];
    assert(p3.drop_first() =~= p2);
    assert(p2.drop_first() =~= p1);
    assert(join_with(p1, d) == c);
    assert(join_with(p2, d) =~= b + seq![d] + c);
    assert(join_with(p3, d) =~= a + seq![d] + (b + seq![d] + c));
    assert(a + seq![d] + (b + seq![d] + c) =~= a + seq![d] + b + seq![d] + c);
}

/// Unfolded form of a four-piece join.
pub proof fn lemma_join4(a: Seq<char>, b: Seq<char>, c: Seq<char>, e: Seq<char>, d: char)
    ensures
        join_with(seq![a, b, c, e], d) == a + seq![d] + b + seq![d] + c + seq![d] + e,
{
    let p4 = seq![a, b, c, e];
    assert(p4.drop_first() =~= seq![b, c, e]);
    lemma_join3(b, c, e, d);
    assert(join_with(p4, d) =~= a + seq![d] + b + seq![d] + c + seq![d] + e);
}

/// Unfolded form of a five-piece join.
pub proof fn lemma_join5(a: Seq<char>, b: Seq<char>, c: Seq<char>, e: Seq<char>, f: Seq<char>, d: char)
    ensures
        join_with(seq![a, b, c, e, f], d) == a + seq![d] + b + seq![d] + c + seq![d] + e + seq![d]
            + f,
{
    let p5 = seq![a, b, c, e, f];
    assert(p5.drop_first() =~= seq![b, c, e, f]);
    lemma_join4(b, c, e, f, d);
    assert(join_with(p5, d) =~= a + seq![d] + b + seq![d] + c + seq![d] + e + seq![d] + f);
}

// User records ---------------------------------------------------------------

/// A user's record line without its newline: id;name;email;create_time.
pub open spec fn user_body_of(u: UserRec) -> Seq<char> {
    join_with(
        seq![uuid_text_of(u.id), u.name, u.email, rfc3339_of(ts_norm(u.created))],
        ';',
    )
}

/// A user's full record line.
pub open spec fn user_line_of(u: UserRec) -> Seq<char> {
    user_body_of(u) + seq!['\n']
}

/// Whether a user's text fields stay clear of the record separators, so that
/// its line parses back to it.
pub open spec fn user_clean(u: UserRec) -> bool {
    !u.name.contains(';') && !u.name.contains('\n') && !u.email.contains(';')
        && !u.email.contains('\n')
}

/// What a user record line (without newline) parses to.
pub open spec fn parse_user_body(l: Seq<char>) -> Option<UserRec> {
    let f = split_at(l, seq![';']);
    if f.len() != 4 {
        None
    } else {
        match uuid_parse(f[0]) {
            None => None,
            Some(id) => match rfc3339_parse(f[3]) {
                None => None,
                Some(t) => if ts_ok(t) {
                    Some(UserRec { id, name: f[1], email: f[2], created: t })
                } else {
                    None
                },
            },
        }
    }
}

// Message records -------------------------------------------------------------

/// A message's record line without its newline:
/// id;text;time_stamp;sender_id;conversation_id.
pub open spec fn msg_body_of(m: MsgRec) -> Seq<char> {
    join_with(
        seq![
            uuid_text_of(m.id),
            m.text,
            rfc3339_of(ts_norm(m.time)),
            uuid_text_of(m.sender),
            uuid_text_of(m.conv),
        ],
        ';',
    )
}

/// A message's full record line.
pub open spec fn msg_line_of(m: MsgRec) -> Seq<char> {
    msg_body_of(m) + seq!['\n']
}

/// Whether a message's text stays clear of the record separators.
pub open spec fn msg_clean(m: MsgRec) -> bool {
    !m.text.contains(';') && !m.text.contains('\n')
}

/// What a message record line parses to, against the users and conversations
/// already loaded: an unresolvable sender or conversation fails the line.
pub open spec fn parse_msg_body(l: Seq<char>, uids: Seq<u128>, cids: Seq<u128>) -> Option<MsgRec> {
    let f = split_at(l, seq![';']);
    if f.len() != 5 {
        None
    } else {
        match (uuid_parse(f[0]), rfc3339_parse(f[2]), uuid_parse(f[3]), uuid_parse(f[4])) {
            (Some(id), Some(t), Some(sender), Some(conv)) => if ts_ok(t) && contains_id(
                uids,
                sender,
            ) && contains_id(cids, conv) {
                Some(MsgRec { id, text: f[1], time: t, sender, conv })
            } else {
                None
            },
            _ => None,
        }
    }
}

// Conversation records --------------------------------------------------------

/// The hyphenated texts of a member list, in order.
pub open spec fn id_texts_of(ids: Seq<u128>) -> Seq<Seq<char>> {
    Seq::new(ids.len(), |i: int| uuid_text_of(ids[i]))
}

/// The member-list field: member ids joined with commas, empty for no
/// members.
pub open spec fn members_text_of(ids: Seq<u128>) -> Seq<char> {
    if ids.len() == 0 {
        Seq::empty()
    } else {
        join_with(id_texts_of(ids), ',')
    }
}

/// A conversation's record line without its newline:
/// id;name;member,member,...;start;last_msg.
pub open spec fn conv_body_of(c: ConvRec) -> Seq<char> {
    join_with(
        seq![
            uuid_text_of(c.id),
            c.name,
            members_text_of(c.members),
            rfc3339_of(ts_norm(c.start)),
            rfc3339_of(ts_norm(c.last_msg)),
        ],
        ';',
    )
}

/// A conversation's full record line.
pub open spec fn conv_line_of(c: ConvRec) -> Seq<char> {
    conv_body_of(c) + seq!['\n']
}

/// Whether a conversation's name stays clear of the record separators.
pub open spec fn conv_clean(c: ConvRec) -> bool {
    !c.name.contains(';') && !c.name.contains('\n')
}

/// Resolution of parsed member-id pieces against known users: a piece that
/// is not a UUID fails the line, a well-formed id with no matching user is
/// silently dropped.
pub open spec fn member_ids_parse(parts: Seq<Seq<char>>, uids: Seq<u128>) -> Option<Seq<u128>>
    decreases parts.len(),
{
    if parts.len() == 0 {
        Some(Seq::empty())
    } else {
        match uuid_parse(parts[0]) {
            None => None,
            Some(m) => match member_ids_parse(parts.drop_first(), uids) {
                None => None,
                Some(rest) => if contains_id(uids, m) {
                    Some(seq![m] + rest)
                } else {
                    Some(rest)
                },
            },
        }
    }
}

/// What a conversation record line parses to, against the users already
/// loaded.
pub open spec fn parse_conv_body(l: Seq<char>, uids: Seq<u128>) -> Option<ConvRec> {
    let f = split_at(l, seq![';']);
    if f.len() != 5 {
        None
    } else {
        let mem_parts: Seq<Seq<char>> = if f[2].len() == 0 {
            Seq::empty()
        } else {
            split_at(f[2], seq![','])
        };
        match (uuid_parse(f[0]), member_ids_parse(mem_parts, uids), rfc3339_parse(f[3]),
        rfc3339_parse(f[4])) {
            (Some(id), Some(members), Some(start), Some(last_msg)) => if ts_ok(start) && ts_ok(
                last_msg,
            ) {
                Some(ConvRec { id, name: f[1], members, start, last_msg })
            } else {
                None
            },
            _ => None,
        }
    }
}

// Relationship records ----------------------------------------------------------

/// The status tag as saved: the bare tag, with the blocking user's id
/// embedded after a comma for `Blocked`.
pub open spec fn rel_status_text_of(st: RelStatus) -> Seq<char> {
    match st {
        RelStatus::BestFriends => "BestFriends"@,
        RelStatus::Friends => "Friends"@,
        RelStatus::Neutral => "Neutral"@,
        RelStatus::Blocked(id) => "Blocked"@ + seq![','] + uuid_text_of(id),
    }
}

/// A relationship's record line without its newline:
/// member;member;status[,blocked_by], with a trailing comma after the status
/// field.
pub open spec fn rel_body_of(r: RelRec) -> Seq<char> {
    join_with(
        seq![uuid_text_of(r.a), uuid_text_of(r.b), rel_status_text_of(r.status) + seq![',']],
        ';',
    )
}

/// A relationship's full record line.
pub open spec fn rel_line_of(r: RelRec) -> Seq<char> {
    rel_body_of(r) + seq!['\n']
}

/// What a status field parses to: the piece before the first comma selects
/// the status, `Blocked` reads one embedded id, anything further is ignored.
pub open spec fn rel_status_parse(f: Seq<char>) -> Option<RelStatus> {
    let p = split_at(f, seq![',']);
    if p[0] == "BestFriends"@ {
        Some(RelStatus::BestFriends)
    } else if p[0] == "Friends"@ {
        Some(RelStatus::Friends)
    } else if p[0] == "Neutral"@ {
        Some(RelStatus::Neutral)
    } else if p[0] == "Blocked"@ {
        if p.len() >= 2 {
            match uuid_parse(p[1]) {
                Some(id) => Some(RelStatus::Blocked(id)),
                None => None,
            }
        } else {
            None
        }
    } else {
        None
    }
}

/// What a relationship record line parses to.
pub open spec fn parse_rel_body(l: Seq<char>) -> Option<RelRec> {
    let f = split_at(l, seq![';']);
    if f.len() != 3 {
        None
    } else {
        match (uuid_parse(f[0]), uuid_parse(f[1]), rel_status_parse(f[2])) {
            (Some(a), Some(b), Some(status)) => Some(RelRec { a, b, status }),
            _ => None,
        }
    }
}

// Whole files -------------------------------------------------------------------

/// The record bodies of a user sequence.
pub open spec fn user_bodies_of(users: Seq<UserRec>) -> Seq<Seq<char>> {
    Seq::new(users.len(), |i: int| user_body_of(users[i]))
}

/// The text of the users file.
pub open spec fn users_text_of(users: Seq<UserRec>) -> Seq<char> {
    cat_lines(user_bodies_of(users))
}

/// The record bodies of a conversation sequence.
pub open spec fn conv_bodies_of(convs: Seq<ConvRec>) -> Seq<Seq<char>> {
    Seq::new(convs.len(), |i: int| conv_body_of(convs[i]))
}

/// The text of the conversations file.
pub open spec fn convs_text_of(convs: Seq<ConvRec>) -> Seq<char> {
    cat_lines(conv_bodies_of(convs))
}

/// The record bodies of a message sequence.
pub open spec fn msg_bodies_of(msgs: Seq<MsgRec>) -> Seq<Seq<char>> {
    Seq::new(msgs.len(), |i: int| msg_body_of(msgs[i]))
}

/// The text of the messages file.
pub open spec fn msgs_text_of(msgs: Seq<MsgRec>) -> Seq<char> {
    cat_lines(msg_bodies_of(msgs))
}

/// The record bodies of a relationship sequence.
pub open spec fn rel_bodies_of(rels: Seq<RelRec>) -> Seq<Seq<char>> {
    Seq::new(rels.len(), |i: int| rel_body_of(rels[i]))
}

/// The text of the relationships file.
pub open spec fn rels_text_of(rels: Seq<RelRec>) -> Seq<char> {
    cat_lines(rel_bodies_of(rels))
}

/// What a whole users file parses to: every line must parse.
pub open spec fn parse_user_lines(lines: Seq<Seq<char>>) -> Option<Seq<UserRec>>
    decreases lines.len(),
{
    if lines.len() == 0 {
        Some(Seq::empty())
    } else {
        match parse_user_body(lines[0]) {
            None => None,
            Some(u) => match parse_user_lines(lines.drop_first()) {
                None => None,
                Some(rest) => Some(seq![u] + rest),
            },
        }
    }
}

/// What a users file's text parses to.
pub open spec fn parse_users_text(content: Seq<char>) -> Option<Seq<UserRec>> {
    parse_user_lines(content_lines(content))
}

/// What a whole conversations file parses to, against the users already
/// loaded.
pub open spec fn parse_conv_lines(lines: Seq<Seq<char>>, uids: Seq<u128>) -> Option<Seq<ConvRec>>
    decreases lines.len(),
{
    if lines.len() == 0 {
        Some(Seq::empty())
    } else {
        match parse_conv_body(lines[0], uids) {
            None => None,
            Some(c) => match parse_conv_lines(lines.drop_first(), uids) {
                None => None,
                Some(rest) => Some(seq![c] + rest),
            },
        }
    }
}

/// What a conversations file's text parses to.
pub open spec fn parse_convs_text(content: Seq<char>, uids: Seq<u128>) -> Option<Seq<ConvRec>> {
    parse_conv_lines(content_lines(content), uids)
}

/// What a whole messages file parses to, against the users and conversations
/// already loaded.
pub open spec fn parse_msg_lines(lines: Seq<Seq<char>>, uids: Seq<u128>, cids: Seq<u128>) -> Option<
    Seq<MsgRec>,
>
    decreases lines.len(),
{
    if lines.len() == 0 {
        Some(Seq::empty())
    } else {
        match parse_msg_body(lines[0], uids, cids) {
            None => None,
            Some(m) => match parse_msg_lines(lines.drop_first(), uids, cids) {
                None => None,
                Some(rest) => Some(seq![m] + rest),
            },
        }
    }
}

/// What a messages file's text parses to.
pub open spec fn parse_msgs_text(content: Seq<char>, uids: Seq<u128>, cids: Seq<u128>) -> Option<
    Seq<MsgRec>,
> {
    parse_msg_lines(content_lines(content), uids, cids)
}

/// What a whole relationships file parses to.
pub open spec fn parse_rel_lines(lines: Seq<Seq<char>>) -> Option<Seq<RelRec>>
    decreases lines.len(),
{
    if lines.len() == 0 {
        Some(Seq::empty())
    } else {
        match parse_rel_body(lines[0]) {
            None => None,
            Some(r) => match parse_rel_lines(lines.drop_first()) {
                None => None,
                Some(rest) => Some(seq![r] + rest),
            },
        }
    }
}

/// What a relationships file's text parses to.
pub open spec fn parse_rels_text(content: Seq<char>) -> Option<Seq<RelRec>> {
    parse_rel_lines(content_lines(content))
}

// Character-set lemmas --------------------------------------------------------

/// Identifier text never holds a separator of the record format.
pub proof fn lemma_uuid_chars_clean(s: Seq<char>)
    requires
        forall|i: int| 0 <= i < s.len() ==> is_uuid_char(#[trigger] s[i]),
    ensures
        !s.contains(';'),
        !s.contains(','),
        !s.contains('\n'),
{
    assert forall|i: int| 0 <= i < s.len() implies s[i] != ';' && s[i] != ',' && s[i] != '\n' by {
        assert(is_uuid_char(s[i]));
    }
}

/// Date-time text never holds a separator of the record format.
pub proof fn lemma_time_chars_clean(s: Seq<char>)
    requires
        forall|i: int| 0 <= i < s.len() ==> is_time_char(#[trigger] s[i]),
    ensures
        !s.contains(';'),
        !s.contains(','),
        !s.contains('\n'),
{
    assert forall|i: int| 0 <= i < s.len() implies s[i] != ';' && s[i] != ',' && s[i] != '\n' by {
        assert(is_time_char(s[i]));
    }
}

/// Joining pieces free of some character, with a different delimiter, yields
/// text free of that character.
pub proof fn lemma_join_clean(parts: Seq<Seq<char>>, d: char, c: char)
    requires
        c != d,
        forall|i: int| 0 <= i < parts.len() ==> !(#[trigger] parts[i]).contains(c),
    ensures
        !join_with(parts, d).contains(c),
    decreases parts.len(),
{
    if parts.len() > 1 {
        lemma_join_clean(parts.drop_first(), d, c);
        let j = join_with(parts, d);
        let rest = join_with(parts.drop_first(), d);
        assert forall|i: int| 0 <= i < j.len() implies j[i] != c by {
            if i < parts[0].len() {
                assert(parts[0][i] != c);
            } else if i > parts[0].len() {
                assert(rest[i - parts[0].len() - 1] != c);
            }
        }
    }
}

/// Appending one piece to a join.
pub proof fn lemma_join_push(parts: Seq<Seq<char>>, d: char, p: Seq<char>)
    ensures
        parts.len() == 0 ==> join_with(parts.push(p), d) == p,
        parts.len() > 0 ==> join_with(parts.push(p), d) == join_with(parts, d) + seq![d] + p,
    decreases parts.len(),
{
    if parts.len() == 0 {
        assert(join_with(parts.push(p), d) == parts.push(p)[0]);
        assert(parts.push(p)[0] == p);
    } else if parts.len() == 1 {
        assert(parts.push(p).drop_first() =~= seq![p]);
        assert(join_with(seq![p], d) == p);
        assert(join_with(parts.push(p), d) =~= join_with(parts, d) + seq![d] + p);
    } else {
        lemma_join_push(parts.drop_first(), d, p);
        assert(parts.push(p).drop_first() =~= parts.drop_first().push(p));
        assert(join_with(parts.push(p), d) =~= join_with(parts, d) + seq![d] + p);
    }
}

/// Whatever member list resolution admits is a known user id.
pub proof fn lemma_member_ids_parse_present(parts: Seq<Seq<char>>, uids: Seq<u128>)
    ensures
        member_ids_parse(parts, uids) is Some ==> forall|j: int|
            0 <= j < member_ids_parse(parts, uids)->Some_0.len() ==> contains_id(
                uids,
                #[trigger] member_ids_parse(parts, uids)->Some_0[j],
            ),
    decreases parts.len(),
{
    if parts.len() > 0 {
        lemma_member_ids_parse_present(parts.drop_first(), uids);
        if member_ids_parse(parts, uids) is Some {
            let m = uuid_parse(parts[0])->Some_0;
            let rest = member_ids_parse(parts.drop_first(), uids)->Some_0;
            let a = member_ids_parse(parts, uids)->Some_0;
            assert forall|j: int| 0 <= j < a.len() implies contains_id(uids, #[trigger] a[j]) by {
                if contains_id(uids, m) {
                    if j == 0 {
                        assert(a[0] == m);
                    } else {
                        assert(a[j] == rest[j - 1]);
                    }
                } else {
                    assert(a[j] == rest[j]);
                }
            }
        }
    }
}

/// Resolution of the printed member list against users that include every
/// member returns exactly the member list.
pub proof fn lemma_member_ids_parse_texts(ids: Seq<u128>, uids: Seq<u128>)
    requires
        forall|j: int| 0 <= j < ids.len() ==> uuid_parse(uuid_text_of(#[trigger] ids[j])) == Some(
            ids[j],
        ),
        forall|j: int| 0 <= j < ids.len() ==> contains_id(uids, #[trigger] ids[j]),
    ensures
        member_ids_parse(id_texts_of(ids), uids) == Some(ids),
    decreases ids.len(),
{
    let parts = id_texts_of(ids);
    if ids.len() == 0 {
        assert(parts =~= Seq::<Seq<char>>::empty());
    } else {
        assert(parts[0] == uuid_text_of(ids[0]));
        assert forall|j: int| 0 <= j < ids.drop_first().len() implies uuid_parse(
            uuid_text_of(#[trigger] ids.drop_first()[j]),
        ) == Some(ids.drop_first()[j]) && contains_id(uids, ids.drop_first()[j]) by {
            assert(ids.drop_first()[j] == ids[j + 1]);
        }
        lemma_member_ids_parse_texts(ids.drop_first(), uids);
        assert(parts.drop_first() =~= id_texts_of(ids.drop_first()));
        assert(seq![ids[0]] + ids.drop_first() =~= ids);
    }
}

// Executable serialization ------------------------------------------------------

impl UserInfo {
    /// The record line for this user, newline terminated; when the fields
    /// are clean the line parses back to exactly this record.
    pub fn to_string(&self) -> (r: String)
        ensures
            r@ == user_line_of(self@),
            ts_ok(self@.created) && user_clean(self@) ==> parse_user_body(user_body_of(self@))
                == Some(self@) && !user_body_of(self@).contains('\n'),
    {
        let mut r = id_text(self.id);
        let ghost idt = r@;
        r.append(";");
        r.append(self.name.as_str());
        r.append(";");
        r.append(self.email.as_str());
        r.append(";");
        let ts = ts_text(self.create_time);
        r.append(ts.as_str());
        proof {
            reveal_strlit(";");
            assert(";"@ =~= seq![';']);
            let fields = seq![idt, self@.name, self@.email, ts@];
            lemma_join4(idt, self@.name, self@.email, ts@, ';');
            assert(r@ =~= join_with(fields, ';'));
            assert(r@ == user_body_of(self@));
            if ts_ok(self@.created) && user_clean(self@) {
                lemma_uuid_chars_clean(idt);
                lemma_time_chars_clean(ts@);
                assert forall|i: int| 0 <= i < fields.len() implies !(
                #[trigger] fields[i]).contains(';') by {
                    assert(fields[0] == idt && fields[1] == self@.name && fields[2] == self@.email
                        && fields[3] == ts@);
                }
                lemma_split_join(fields, ';');
                assert(parse_user_body(user_body_of(self@)) == Some(self@));
                assert forall|i: int| 0 <= i < fields.len() implies !(
                #[trigger] fields[i]).contains('\n') by {
                    assert(fields[0] == idt && fields[1] == self@.name && fields[2] == self@.email
                        && fields[3] == ts@);
                }
                lemma_join_clean(fields, ';', '\n');
            }
        }
        r.append("\n");
        proof {
            reveal_strlit("\n");
            assert("\n"@ =~= seq!['\n']);
            assert(r@ =~= user_line_of(self@));
        }
        r
    }
}

impl MsgInfo {
    /// The record line for this message, newline terminated; when the text
    /// is clean the line parses back to exactly this record, against any
    /// user and conversation lists that contain its referents.
    pub fn to_string(&self) -> (r: String)
        ensures
            r@ == msg_line_of(self@),
            ts_ok(self@.time) && msg_clean(self@) ==> !msg_body_of(self@).contains('\n') && forall|
                uids: Seq<u128>,
                cids: Seq<u128>,
            |
                contains_id(uids, self@.sender) && contains_id(cids, self@.conv)
                    ==> parse_msg_body(msg_body_of(self@), uids, cids) == Some(self@),
    {
        let mut r = id_text(self.id);
        let ghost idt = r@;
        r.append(";");
        r.append(self.text.as_str());
        r.append(";");
        let ts = ts_text(self.time_stamp);
        r.append(ts.as_str());
        r.append(";");
        let st = id_text(self.user);
        r.append(st.as_str());
        r.append(";");
        let ct = id_text(self.conv);
        r.append(ct.as_str());
        proof {
            reveal_strlit(";");
            assert(";"@ =~= seq![';']);
            let fields = seq![idt, self@.text, ts@, st@, ct@];
            lemma_join5(idt, self@.text, ts@, st@, ct@, ';');
            assert(r@ =~= join_with(fields, ';'));
            assert(r@ == msg_body_of(self@));
            if ts_ok(self@.time) && msg_clean(self@) {
                lemma_uuid_chars_clean(idt);
                lemma_uuid_chars_clean(st@);
                lemma_uuid_chars_clean(ct@);
                lemma_time_chars_clean(ts@);
                assert forall|i: int| 0 <= i < fields.len() implies !(
                #[trigger] fields[i]).contains(';') by {
                    assert(fields[0] == idt && fields[1] == self@.text && fields[2] == ts@
                        && fields[3] == st@ && fields[4] == ct@);
                }
                lemma_split_join(fields, ';');
                assert forall|uids: Seq<u128>, cids: Seq<u128>|
                    contains_id(uids, self@.sender) && contains_id(cids, self@.conv) implies
                    parse_msg_body(msg_body_of(self@), uids, cids) == Some(self@) by {
                    assert(split_at(msg_body_of(self@), seq![';']) == fields);
                }
                assert forall|i: int| 0 <= i < fields.len() implies !(
                #[trigger] fields[i]).contains('\n') by {
                    assert(fields[0] == idt && fields[1] == self@.text && fields[2] == ts@
                        && fields[3] == st@ && fields[4] == ct@);
                }
                lemma_join_clean(fields, ';', '\n');
            }
        }
        r.append("\n");
        proof {
            reveal_strlit("\n");
            assert("\n"@ =~= seq!['\n']);
            assert(r@ =~= msg_line_of(self@));
        }
        r
    }
}

impl RelStatus {
    /// The status tag as saved: the bare tag, with the blocking user's id
    /// appended after a comma for `Blocked`. The saved field — the tag with
    /// its trailing comma — always parses back to the same status.
    pub fn to_string(&self) -> (r: String)
        ensures
            r@ == rel_status_text_of(*self),
            !r@.contains(';'),
            !r@.contains('\n'),
            rel_status_parse(r@ + seq![',']) == Some(*self),
    {
        proof {
            reveal_strlit("BestFriends");
            reveal_strlit("Friends");
            reveal_strlit("Neutral");
            reveal_strlit("Blocked");
            lemma_status_tags();
        }
        match self {
            RelStatus::BestFriends => {
                let s = String::from_str("BestFriends");
                proof {
                    lemma_bare_tag_parse(s@);
                }
                s
            },
            RelStatus::Friends => {
                let s = String::from_str("Friends");
                proof {
                    lemma_bare_tag_parse(s@);
                }
                s
            },
            RelStatus::Neutral => {
                let s = String::from_str("Neutral");
                proof {
                    lemma_bare_tag_parse(s@);
                }
                s
            },
            RelStatus::Blocked(id) => {
                let mut s = String::from_str("Blocked");
                s.append(",");
                let t = id_text(*id);
                s.append(t.as_str());
                proof {
                    reveal_strlit(",");
                    assert(","@ =~= seq![',']);
                    assert(s@ =~= rel_status_text_of(*self));
                    lemma_uuid_chars_clean(t@);
                    let p3 = seq!["Blocked"@, t@, Seq::<char>::empty()];
                    lemma_join3("Blocked"@, t@, Seq::empty(), ',');
                    assert(join_with(p3, ',') =~= s@ + seq![',']);
                    lemma_split_join(p3, ',');
                    let whole = s@ + seq![','];
                    assert(split_at(whole, seq![','])[0] == "Blocked"@);
                    assert(split_at(whole, seq![','])[1] == t@);
                    assert(rel_status_parse(whole) == Some(*self));
                    assert forall|i: int| 0 <= i < s@.len() implies s@[i] != ';' && s@[i]
                        != '\n' by {
                        if i < "Blocked"@.len() {
                            assert(s@[i] == "Blocked"@[i]);
                        } else if i > "Blocked"@.len() {
                            assert(s@[i] == t@[i - "Blocked"@.len() - 1]);
                            assert(is_uuid_char(s@[i]));
                        }
                    }
                }
                s
            },
        }
    }
}

/// The four status tags are pairwise distinct and free of the separators.
proof fn lemma_status_tags()
    ensures
        "BestFriends"@ != "Friends"@,
        "BestFriends"@ != "Neutral"@,
        "BestFriends"@ != "Blocked"@,
        "Friends"@ != "Neutral"@,
        "Friends"@ != "Blocked"@,
        "Neutral"@ != "Blocked"@,
        tag_clean("BestFriends"@),
        tag_clean("Friends"@),
        tag_clean("Neutral"@),
        tag_clean("Blocked"@),
{
    reveal_strlit("BestFriends");
    reveal_strlit("Friends");
    reveal_strlit("Neutral");
    reveal_strlit("Blocked");
    assert("Friends"@[0] == 'F' && "Neutral"@[0] == 'N' && "Blocked"@[0] == 'B');
    assert(tag_clean("BestFriends"@)) by {
        lemma_tag_chars("BestFriends"@);
    }
    assert(tag_clean("Friends"@)) by {
        lemma_tag_chars("Friends"@);
    }
    assert(tag_clean("Neutral"@)) by {
        lemma_tag_chars("Neutral"@);
    }
    assert(tag_clean("Blocked"@)) by {
        lemma_tag_chars("Blocked"@);
    }
}

/// A tag stays clear of all three separators.
pub open spec fn tag_clean(s: Seq<char>) -> bool {
    !s.contains(',') && !s.contains(';') && !s.contains('\n')
}

/// Status tags consist of ASCII letters.
proof fn lemma_tag_chars(s: Seq<char>)
    requires
        forall|i: int| 0 <= i < s.len() ==> is_ascii_letter(#[trigger] s[i]),
    ensures
        tag_clean(s),
{
    assert forall|i: int| 0 <= i < s.len() implies s[i] != ',' && s[i] != ';' && s[i] != '\n' by {
        assert(is_ascii_letter(s[i]));
    }
}

/// An ASCII letter, upper or lower case.
pub open spec fn is_ascii_letter(c: char) -> bool {
    (65 <= c as u32 && c as u32 <= 90) || (97 <= c as u32 && c as u32 <= 122)
}

impl Relationship {
    /// The record line for this relationship, newline terminated, with the
    /// format's trailing comma after the status field; the line always
    /// parses back to exactly this record.
    pub fn to_string(&self) -> (r: String)
        ensures
            r@ == rel_line_of(self@),
            parse_rel_body(rel_body_of(self@)) == Some(self@),
            !rel_body_of(self@).contains('\n'),
    {
        let mut r = id_text(self.members[0]);
        let ghost at = r@;
        r.append(";");
        let bt = id_text(self.members[1]);
        r.append(bt.as_str());
        r.append(";");
        let st = self.status.to_string();
        r.append(st.as_str());
        r.append(",");
        proof {
            reveal_strlit(";");
            reveal_strlit(",");
            assert(";"@ =~= seq![';']);
            assert(","@ =~= seq![',']);
            let sf = st@ + seq![','];
            let fields = seq![at, bt@, sf];
            lemma_join3(at, bt@, sf, ';');
            assert(r@ =~= join_with(fields, ';'));
            assert(r@ == rel_body_of(self@));
            lemma_uuid_chars_clean(at);
            lemma_uuid_chars_clean(bt@);
            assert forall|i: int| 0 <= i < fields.len() implies !(#[trigger] fields[i]).contains(
                ';',
            ) by {
                assert forall|j: int| 0 <= j < sf.len() implies sf[j] != ';' by {
                    if j < st@.len() {
                        assert(sf[j] == st@[j]);
                    }
                }
                assert(fields[0] == at && fields[1] == bt@ && fields[2] == sf);
            }
            lemma_split_join(fields, ';');
            assert(split_at(rel_body_of(self@), seq![';']) == fields);
            assert(parse_rel_body(rel_body_of(self@)) == Some(self@));
            assert forall|i: int| 0 <= i < fields.len() implies !(#[trigger] fields[i]).contains(
                '\n',
            ) by {
                assert forall|j: int| 0 <= j < sf.len() implies sf[j] != '\n' by {
                    if j < st@.len() {
                        assert(sf[j] == st@[j]);
                    }
                }
                assert(fields[0] == at && fields[1] == bt@ && fields[2] == sf);
            }
            lemma_join_clean(fields, ';', '\n');
        }
        r.append("\n");
        proof {
            reveal_strlit("\n");
            assert("\n"@ =~= seq!['\n']);
            assert(r@ =~= rel_line_of(self@));
        }
        r
    }
}

impl ConvInfo {
    /// The record line for this conversation, newline terminated, the member
    /// ids joined with commas; when the name is clean the line parses back
    /// to exactly this record, against any user list containing every
    /// member.
    pub fn to_string(&self) -> (r: String)
        ensures
            r@ == conv_line_of(self@),
            ts_ok(self@.start) && ts_ok(self@.last_msg) && conv_clean(self@) ==> !conv_body_of(
                self@,
            ).contains('\n') && forall|uids: Seq<u128>|
                (forall|j: int| 0 <= j < self@.members.len() ==> contains_id(
                    uids,
                    #[trigger] self@.members[j],
                )) ==> parse_conv_body(conv_body_of(self@), uids) == Some(self@),
    {
        let ghost mseq = self.members@;
        let mut mems = String::new();
        let mut i: usize = 0;
        proof {
            assert(id_texts_of(mseq.take(0)) =~= Seq::<Seq<char>>::empty());
        }
        while i < self.members.len()
            invariant
                0 <= i <= mseq.len(),
                mseq == self.members@,
                i == 0 ==> mems@ == Seq::<char>::empty(),
                i > 0 ==> mems@ == join_with(id_texts_of(mseq.take(i as int)), ','),
                forall|j: int| 0 <= j < i ==> uuid_parse(uuid_text_of(#[trigger] mseq[j]))
                    == Some(mseq[j]),
                forall|j: int, k: int| 0 <= j < i && 0 <= k
                    < uuid_text_of(#[trigger] mseq[j]).len() ==> is_uuid_char(
                    #[trigger] uuid_text_of(mseq[j])[k],
                ),
                forall|j: int| 0 <= j < i ==> uuid_text_of(#[trigger] mseq[j]).len() == 36,
            decreases mseq.len() - i,
        {
            let t = id_text(self.members[i]);
            if i > 0 {
                mems.append(",");
            }
            mems.append(t.as_str());
            proof {
                reveal_strlit(",");
                assert(","@ =~= seq![',']);
                let prev = id_texts_of(mseq.take(i as int));
                let now = id_texts_of(mseq.take(i + 1));
                assert(now =~= prev.push(t@));
                lemma_join_push(prev, ',', t@);
            }
            i += 1;
        }
        proof {
            assert(mseq.take(mseq.len() as int) =~= mseq);
            assert(mems@ == members_text_of(mseq));
        }
        let mut r = id_text(self.id);
        let ghost idt = r@;
        r.append(";");
        r.append(self.name.as_str());
        r.append(";");
        r.append(mems.as_str());
        r.append(";");
        let ts1 = ts_text(self.start);
        r.append(ts1.as_str());
        r.append(";");
        let ts2 = ts_text(self.last_msg);
        r.append(ts2.as_str());
        proof {
            reveal_strlit(";");
            assert(";"@ =~= seq![';']);
            let fields = seq![idt, self@.name, mems@, ts1@, ts2@];
            lemma_join5(idt, self@.name, mems@, ts1@, ts2@, ';');
            assert(r@ =~= join_with(fields, ';'));
            assert(r@ == conv_body_of(self@));
            if ts_ok(self@.start) && ts_ok(self@.last_msg) && conv_clean(self@) {
                lemma_uuid_chars_clean(idt);
                lemma_time_chars_clean(ts1@);
                lemma_time_chars_clean(ts2@);
                assert(!mems@.contains(';') && !mems@.contains('\n')) by {
                    if mseq.len() > 0 {
                        let texts = id_texts_of(mseq);
                        assert forall|j: int| 0 <= j < texts.len() implies !(
                        #[trigger] texts[j]).contains(';') && !texts[j].contains('\n') by {
                            lemma_uuid_chars_clean(uuid_text_of(mseq[j]));
                        }
                        lemma_join_clean(texts, ',', ';');
                        lemma_join_clean(texts, ',', '\n');
                    }
                }
                assert forall|i2: int| 0 <= i2 < fields.len() implies !(
                #[trigger] fields[i2]).contains(';') by {
                    assert(fields[0] == idt && fields[1] == self@.name && fields[2] == mems@
                        && fields[3] == ts1@ && fields[4] == ts2@);
                }
                lemma_split_join(fields, ';');
                assert forall|i2: int| 0 <= i2 < fields.len() implies !(
                #[trigger] fields[i2]).contains('\n') by {
                    assert(fields[0] == idt && fields[1] == self@.name && fields[2] == mems@
                        && fields[3] == ts1@ && fields[4] == ts2@);
                }
                lemma_join_clean(fields, ';', '\n');
                assert forall|uids: Seq<u128>|
                    (forall|j: int| 0 <= j < self@.members.len() ==> contains_id(
                        uids,
                        #[trigger] self@.members[j],
                    )) implies parse_conv_body(conv_body_of(self@), uids) == Some(self@) by {
                    assert(split_at(conv_body_of(self@), seq![';']) == fields);
                    assert(fields.len() == 5);
                    assert(fields[0] == idt && fields[1] == self@.name && fields[2] == mems@
                        && fields[3] == ts1@ && fields[4] == ts2@);
                    assert(uuid_parse(fields[0]) == Some(self@.id));
                    assert(rfc3339_parse(fields[3]) == Some(self@.start));
                    assert(rfc3339_parse(fields[4]) == Some(self@.last_msg));
                    if mseq.len() == 0 {
                        assert(member_ids_parse(Seq::empty(), uids) == Some(Seq::<u128>::empty()));
                        assert(mems@.len() == 0);
                        assert(member_ids_parse(
                            if fields[2].len() == 0 {
                                Seq::empty()
                            } else {
                                split_at(fields[2], seq![','])
                            },
                            uids,
                        ) == Some(mseq));
                    } else {
                        assert forall|j: int| 0 <= j < id_texts_of(mseq).len() implies !(
                        #[trigger] id_texts_of(mseq)[j]).contains(',') by {
                            lemma_uuid_chars_clean(uuid_text_of(mseq[j]));
                        }
                        lemma_split_join(id_texts_of(mseq), ',');
                        assert(mems@.len() > 0) by {
                            assert(uuid_text_of(mseq[0]).len() == 36);
                            lemma_join_len_at_least(id_texts_of(mseq), ',');
                        }
                        lemma_member_ids_parse_texts(mseq, uids);
                        assert(split_at(fields[2], seq![',']) == id_texts_of(mseq));
                        assert(member_ids_parse(
                            if fields[2].len() == 0 {
                                Seq::empty()
                            } else {
                                split_at(fields[2], seq![','])
                            },
                            uids,
                        ) == Some(mseq));
                    }
                }
            }
        }
        r.append("\n");
        proof {
            reveal_strlit("\n");
            assert("\n"@ =~= seq!['\n']);
            assert(r@ =~= conv_line_of(self@));
        }
        r
    }
}

/// A join is at least as long as its first piece.
proof fn lemma_join_len_at_least(parts: Seq<Seq<char>>, d: char)
    requires
        parts.len() > 0,
    ensures
        join_with(parts, d).len() >= parts[0].len(),
{
}

// Round trips over whole files -----------------------------------------------------

proof fn lemma_parse_user_bodies(users: Seq<UserRec>)
    requires
        forall|i: int| 0 <= i < users.len() ==> parse_user_body(
            user_body_of(#[trigger] users[i]),
        ) == Some(users[i]),
    ensures
        parse_user_lines(user_bodies_of(users)) == Some(users),
    decreases users.len(),
{
    let bodies = user_bodies_of(users);
    if users.len() == 0 {
        assert(bodies =~= Seq::<Seq<char>>::empty());
    } else {
        let rest = users.drop_first();
        assert forall|i: int| 0 <= i < rest.len() implies parse_user_body(
            user_body_of(#[trigger] rest[i]),
        ) == Some(rest[i]) by {
            assert(rest[i] == users[i + 1]);
        }
        lemma_parse_user_bodies(rest);
        assert(bodies.drop_first() =~= user_bodies_of(rest));
        assert(bodies[0] == user_body_of(users[0]));
        assert(seq![users[0]] + rest =~= users);
    }
}

/// Loading the text a user sequence saves to reproduces the sequence,
/// record for record, given what each record's serializer guarantees.
pub proof fn lemma_users_file_round_trip(users: Seq<UserRec>)
    requires
        forall|i: int| 0 <= i < users.len() ==> parse_user_body(
            user_body_of(#[trigger] users[i]),
        ) == Some(users[i]) && !user_body_of(users[i]).contains('\n'),
    ensures
        parse_users_text(users_text_of(users)) == Some(users),
{
    let bodies = user_bodies_of(users);
    assert forall|i: int| 0 <= i < bodies.len() implies !(#[trigger] bodies[i]).contains('\n') by {
        assert(bodies[i] == user_body_of(users[i]));
    }
    lemma_content_lines_of_cat(bodies);
    lemma_parse_user_bodies(users);
}

proof fn lemma_parse_conv_bodies(convs: Seq<ConvRec>, uids: Seq<u128>)
    requires
        forall|i: int| 0 <= i < convs.len() ==> parse_conv_body(
            conv_body_of(#[trigger] convs[i]),
            uids,
        ) == Some(convs[i]),
    ensures
        parse_conv_lines(conv_bodies_of(convs), uids) == Some(convs),
    decreases convs.len(),
{
    let bodies = conv_bodies_of(convs);
    if convs.len() == 0 {
        assert(bodies =~= Seq::<Seq<char>>::empty());
    } else {
        let rest = convs.drop_first();
        assert forall|i: int| 0 <= i < rest.len() implies parse_conv_body(
            conv_body_of(#[trigger] rest[i]),
            uids,
        ) == Some(rest[i]) by {
            assert(rest[i] == convs[i + 1]);
        }
        lemma_parse_conv_bodies(rest, uids);
        assert(bodies.drop_first() =~= conv_bodies_of(rest));
        assert(bodies[0] == conv_body_of(convs[0]));
        assert(seq![convs[0]] + rest =~= convs);
    }
}

/// Loading the text a conversation sequence saves to reproduces the
/// sequence, against any user list that contains every member.
pub proof fn lemma_convs_file_round_trip(convs: Seq<ConvRec>, uids: Seq<u128>)
    requires
        forall|i: int| 0 <= i < convs.len() ==> parse_conv_body(
            conv_body_of(#[trigger] convs[i]),
            uids,
        ) == Some(convs[i]) && !conv_body_of(convs[i]).contains('\n'),
    ensures
        parse_convs_text(convs_text_of(convs), uids) == Some(convs),
{
    let bodies = conv_bodies_of(convs);
    assert forall|i: int| 0 <= i < bodies.len() implies !(#[trigger] bodies[i]).contains('\n') by {
        assert(bodies[i] == conv_body_of(convs[i]));
    }
    lemma_content_lines_of_cat(bodies);
    lemma_parse_conv_bodies(convs, uids);
}

proof fn lemma_parse_msg_bodies(msgs: Seq<MsgRec>, uids: Seq<u128>, cids: Seq<u128>)
    requires
        forall|i: int| 0 <= i < msgs.len() ==> parse_msg_body(
            msg_body_of(#[trigger] msgs[i]),
            uids,
            cids,
        ) == Some(msgs[i]),
    ensures
        parse_msg_lines(msg_bodies_of(msgs), uids, cids) == Some(msgs),
    decreases msgs.len(),
{
    let bodies = msg_bodies_of(msgs);
    if msgs.len() == 0 {
        assert(bodies =~= Seq::<Seq<char>>::empty());
    } else {
        let rest = msgs.drop_first();
        assert forall|i: int| 0 <= i < rest.len() implies parse_msg_body(
            msg_body_of(#[trigger] rest[i]),
            uids,
            cids,
        ) == Some(rest[i]) by {
            assert(rest[i] == msgs[i + 1]);
        }
        lemma_parse_msg_bodies(rest, uids, cids);
        assert(bodies.drop_first() =~= msg_bodies_of(rest));
        assert(bodies[0] == msg_body_of(msgs[0]));
        assert(seq![msgs[0]] + rest =~= msgs);
    }
}

/// Loading the text a message sequence saves to reproduces the sequence,
/// against any user and conversation lists that contain every referent.
pub proof fn lemma_msgs_file_round_trip(msgs: Seq<MsgRec>, uids: Seq<u128>, cids: Seq<u128>)
    requires
        forall|i: int| 0 <= i < msgs.len() ==> parse_msg_body(
            msg_body_of(#[trigger] msgs[i]),
            uids,
            cids,
        ) == Some(msgs[i]) && !msg_body_of(msgs[i]).contains('\n'),
    ensures
        parse_msgs_text(msgs_text_of(msgs), uids, cids) == Some(msgs),
{
    let bodies = msg_bodies_of(msgs);
    assert forall|i: int| 0 <= i < bodies.len() implies !(#[trigger] bodies[i]).contains('\n') by {
        assert(bodies[i] == msg_body_of(msgs[i]));
    }
    lemma_content_lines_of_cat(bodies);
    lemma_parse_msg_bodies(msgs, uids, cids);
}

proof fn lemma_parse_rel_bodies(rels: Seq<RelRec>)
    requires
        forall|i: int| 0 <= i < rels.len() ==> parse_rel_body(rel_body_of(#[trigger] rels[i]))
            == Some(rels[i]),
    ensures
        parse_rel_lines(rel_bodies_of(rels)) == Some(rels),
    decreases rels.len(),
{
    let bodies = rel_bodies_of(rels);
    if rels.len() == 0 {
        assert(bodies =~= Seq::<Seq<char>>::empty());
    } else {
        let rest = rels.drop_first();
        assert forall|i: int| 0 <= i < rest.len() implies parse_rel_body(
            rel_body_of(#[trigger] rest[i]),
        ) == Some(rest[i]) by {
            assert(rest[i] == rels[i + 1]);
        }
        lemma_parse_rel_bodies(rest);
        assert(bodies.drop_first() =~= rel_bodies_of(rest));
        assert(bodies[0] == rel_body_of(rels[0]));
        assert(seq![rels[0]] + rest =~= rels);
    }
}

/// Loading the text a relationship sequence saves to reproduces the
/// sequence, unconditionally.
pub proof fn lemma_rels_file_round_trip(rels: Seq<RelRec>)
    requires
        forall|i: int| 0 <= i < rels.len() ==> parse_rel_body(rel_body_of(#[trigger] rels[i]))
            == Some(rels[i]) && !rel_body_of(rels[i]).contains('\n'),
    ensures
        parse_rels_text(rels_text_of(rels)) == Some(rels),
{
    let bodies = rel_bodies_of(rels);
    assert forall|i: int| 0 <= i < bodies.len() implies !(#[trigger] bodies[i]).contains('\n') by {
        assert(bodies[i] == rel_body_of(rels[i]));
    }
    lemma_content_lines_of_cat(bodies);
    lemma_parse_rel_bodies(rels);
}

// Executable parsing -------------------------------------------------------------

/// Splits at a single delimiter character.
pub(crate) fn split_one(s: &str, d: char) -> (r: Vec<String>)
    ensures
        r.deep_view() == split_at(s@, seq![d]),
        r.len() >= 1,
{
    let mut ds: Vec<char> = Vec::new();
    ds.push(d);
    proof {
        assert(ds@ =~= seq![d]);
        lemma_split_at_len(s@, seq![d]);
    }
    let r = crate::text::split_chars(s, ds.as_slice());
    proof {
        assert(r.deep_view().len() == r@.len());
    }
    r
}

/// Splits at either of two delimiter characters.
pub(crate) fn split_two(s: &str, d1: char, d2: char) -> (r: Vec<String>)
    ensures
        r.deep_view() == split_at(s@, seq![d1, d2]),
        r.len() >= 1,
{
    let mut ds: Vec<char> = Vec::new();
    ds.push(d1);
    ds.push(d2);
    proof {
        assert(ds@ =~= seq![d1, d2]);
        lemma_split_at_len(s@, seq![d1, d2]);
    }
    let r = crate::text::split_chars(s, ds.as_slice());
    proof {
        assert(r.deep_view().len() == r@.len());
    }
    r
}

/// Whether `id` occurs in `ids`.
pub fn contains_id_exec(ids: &Vec<u128>, id: u128) -> (r: bool)
    ensures
        r == contains_id(ids@, id),
{
    let mut i: usize = 0;
    while i < ids.len()
        invariant
            0 <= i <= ids@.len(),
            forall|j: int| 0 <= j < i ==> ids@[j] != id,
        decreases ids@.len() - i,
    {
        if ids[i] == id {
            return true;
        }
        i += 1;
    }
    false
}

impl RelStatus {
    /// Reads a status field: the piece before the first comma selects the
    /// status, `Blocked` reads one embedded user id, and anything beyond
    /// what is read is ignored.
    pub fn from_str(input: &str) -> (r: Option<RelStatus>)
        ensures
            r == rel_status_parse(input@),
    {
        let p = split_one(input, ',');
        let ghost ps = split_at(input@, seq![',']);
        proof {
            assert(p.deep_view()[0] == p@[0]@);
        }
        let first = p[0].as_str();
        if str_eq(first, "BestFriends") {
            Some(RelStatus::BestFriends)
        } else if str_eq(first, "Friends") {
            Some(RelStatus::Friends)
        } else if str_eq(first, "Neutral") {
            Some(RelStatus::Neutral)
        } else if str_eq(first, "Blocked") {
            if p.len() >= 2 {
                proof {
                    assert(p.deep_view()[1] == p@[1]@);
                }
                match id_parse(p[1].as_str()) {
                    Some(id) => Some(RelStatus::Blocked(id)),
                    None => None,
                }
            } else {
                None
            }
        } else {
            None
        }
    }
}

/// Parses one users-file record line (without its newline).
pub(crate) fn parse_user_line(l: &str) -> (r: Option<UserInfo>)
    ensures
        match r {
            Some(u) => parse_user_body(l@) == Some(u@),
            None => parse_user_body(l@) is None,
        },
{
    let f = split_one(l, ';');
    proof {
        assert forall|k: int| 0 <= k < f@.len() implies f.deep_view()[k] == #[trigger] f@[k]@ by {}
    }
    if f.len() != 4 {
        return None;
    }
    let id = match id_parse(f[0].as_str()) {
        Some(i) => i,
        None => {
            return None;
        },
    };
    let ts = match ts_parse_rfc3339(f[3].as_str()) {
        Some(t) => t,
        None => {
            return None;
        },
    };
    if !crate::clock::ts_in_range(ts) {
        return None;
    }
    Some(UserInfo::load(id, f[1].as_str(), f[2].as_str(), ts))
}

/// Parses one conversations-file record line against the given user ids:
/// a malformed member id fails the line, an unknown one is dropped.
pub(crate) fn parse_conv_line(l: &str, uids: &Vec<u128>) -> (r: Option<ConvInfo>)
    ensures
        match r {
            Some(c) => parse_conv_body(l@, uids@) == Some(c@),
            None => parse_conv_body(l@, uids@) is None,
        },
{
    let f = split_one(l, ';');
    proof {
        assert forall|k: int| 0 <= k < f@.len() implies f.deep_view()[k] == #[trigger] f@[k]@ by {}
    }
    if f.len() != 5 {
        return None;
    }
    let id = match id_parse(f[0].as_str()) {
        Some(i) => i,
        None => {
            return None;
        },
    };
    let mut members: Vec<u128> = Vec::new();
    if !f[2].as_str().is_empty() {
        let mp = split_one(f[2].as_str(), ',');
        let ghost parts = split_at(f@[2]@, seq![',']);
        proof {
            assert forall|k: int| 0 <= k < mp@.len() implies mp.deep_view()[k]
                == #[trigger] mp@[k]@ by {}
            assert(parts.skip(0) =~= parts);
        }
        let mut j: usize = 0;
        while j < mp.len()
            invariant
                0 <= j <= mp@.len() == parts.len(),
                mp.deep_view() == parts,
                f.deep_view() == split_at(l@, seq![';']),
                f@.len() == 5,
                f@[2]@.len() != 0,
                parts == split_at(f@[2]@, seq![',']),
                member_ids_parse(parts, uids@) == (match member_ids_parse(
                    parts.skip(j as int),
                    uids@,
                ) {
                    None => None::<Seq<u128>>,
                    Some(rest) => Some(members@ + rest),
                }),
            decreases mp@.len() - j,
        {
            proof {
                assert(mp.deep_view()[j as int] == mp@[j as int]@);
                assert(parts.skip(j as int)[0] == parts[j as int]);
                assert(parts.skip(j as int).drop_first() =~= parts.skip(j + 1));
            }
            match id_parse(mp[j].as_str()) {
                None => {
                    proof {
                        assert(uuid_parse(parts[j as int]) is None);
                        assert(member_ids_parse(parts.skip(j as int), uids@) is None);
                        assert(member_ids_parse(parts, uids@) is None);
                        let fs = split_at(l@, seq![';']);
                        assert(fs == f.deep_view());
                        assert(fs.len() == 5);
                        assert(fs[2] == f@[2]@);
                        assert(fs[2].len() != 0);
                        assert(split_at(fs[2], seq![',']) == parts);
                        assert(parse_conv_body(l@, uids@) is None);
                    }
                    return None;
                },
                Some(m) => {
                    let ghost old_members = members@;
                    if contains_id_exec(uids, m) {
                        members.push(m);
                    }
                    proof {
                        if member_ids_parse(parts.skip(j + 1), uids@) is Some {
                            let rest = member_ids_parse(parts.skip(j + 1), uids@)->Some_0;
                            if contains_id(uids@, m) {
                                assert(old_members + (seq![m] + rest) =~= members@ + rest);
                            }
                        }
                    }
                },
            }
            j += 1;
        }
        proof {
            assert(parts.skip(parts.len() as int) =~= Seq::<Seq<char>>::empty());
            assert(member_ids_parse(Seq::empty(), uids@) == Some(Seq::<u128>::empty()));
            assert(members@ + Seq::<u128>::empty() =~= members@);
        }
    }
    let start = match ts_parse_rfc3339(f[3].as_str()) {
        Some(t) => t,
        None => {
            return None;
        },
    };
    if !crate::clock::ts_in_range(start) {
        return None;
    }
    let last_msg = match ts_parse_rfc3339(f[4].as_str()) {
        Some(t) => t,
        None => {
            return None;
        },
    };
    if !crate::clock::ts_in_range(last_msg) {
        return None;
    }
    Some(ConvInfo::load(id, f[1].as_str(), members, start, last_msg))
}

/// Parses one messages-file record line against the given user and
/// conversation ids: an unresolvable reference fails the line.
pub(crate) fn parse_msg_line(l: &str, uids: &Vec<u128>, cids: &Vec<u128>) -> (r: Option<MsgInfo>)
    ensures
        match r {
            Some(m) => parse_msg_body(l@, uids@, cids@) == Some(m@),
            None => parse_msg_body(l@, uids@, cids@) is None,
        },
{
    let f = split_one(l, ';');
    proof {
        assert forall|k: int| 0 <= k < f@.len() implies f.deep_view()[k] == #[trigger] f@[k]@ by {}
    }
    if f.len() != 5 {
        return None;
    }
    let id = match id_parse(f[0].as_str()) {
        Some(i) => i,
        None => {
            return None;
        },
    };
    let ts = match ts_parse_rfc3339(f[2].as_str()) {
        Some(t) => t,
        None => {
            return None;
        },
    };
    let sender = match id_parse(f[3].as_str()) {
        Some(i) => i,
        None => {
            return None;
        },
    };
    let conv = match id_parse(f[4].as_str()) {
        Some(i) => i,
        None => {
            return None;
        },
    };
    if !crate::clock::ts_in_range(ts) {
        return None;
    }
    if !contains_id_exec(uids, sender) {
        return None;
    }
    if !contains_id_exec(cids, conv) {
        return None;
    }
    let text = String::from_str(f[1].as_str());
    Some(MsgInfo::load(id, text, ts, sender, conv))
}

/// Parses one relationships-file record line.
pub(crate) fn parse_rel_line(l: &str) -> (r: Option<Relationship>)
    ensures
        match r {
            Some(rel) => parse_rel_body(l@) == Some(rel@),
            None => parse_rel_body(l@) is None,
        },
{
    let f = split_one(l, ';');
    proof {
        assert forall|k: int| 0 <= k < f@.len() implies f.deep_view()[k] == #[trigger] f@[k]@ by {}
    }
    if f.len() != 3 {
        return None;
    }
    let a = match id_parse(f[0].as_str()) {
        Some(i) => i,
        None => {
            return None;
        },
    };
    let b = match id_parse(f[1].as_str()) {
        Some(i) => i,
        None => {
            return None;
        },
    };
    let st = match RelStatus::from_str(f[2].as_str()) {
        Some(s) => s,
        None => {
            return None;
        },
    };
    let mems: [u128; 2] = [a, b];
    proof {
        assert(mems[0] == a && mems[1] == b);
    }
    Some(Relationship::new(mems, Some(st)))
}

/// A bare tag followed by the trailing comma parses back to the status it
/// prints.
proof fn lemma_bare_tag_parse(tag: Seq<char>)
    requires
        tag == "BestFriends"@ || tag == "Friends"@ || tag == "Neutral"@,
        tag_clean(tag),
    ensures
        tag == "BestFriends"@ ==> rel_status_parse(tag + seq![',']) == Some(
            RelStatus::BestFriends,
        ),
        tag == "Friends"@ ==> rel_status_parse(tag + seq![',']) == Some(RelStatus::Friends),
        tag == "Neutral"@ ==> rel_status_parse(tag + seq![',']) == Some(RelStatus::Neutral),
{
    lemma_status_tags();
    let p2 = seq![tag, Seq::<char>::empty()];
    assert(join_with(p2, ',') =~= tag + seq![',']) by {
        assert(p2.drop_first() =~= seq![Seq::<char>::empty()]);
        assert(join_with(seq![Seq::<char>::empty()], ',') == Seq::<char>::empty());
    }
    lemma_split_join(p2, ',');
    assert(split_at(tag + seq![','], seq![','])[0] == tag);
}

} // verus!
