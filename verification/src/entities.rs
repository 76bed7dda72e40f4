//! The four entity kinds the store owns: users, conversations, messages and
//! pairwise relationships, with their spec-level records.

use vstd::prelude::*;
use vstd::string::*;
use crate::clock::{Timestamp, now_ts, ts_ok};
use crate::ids::fresh_id;
use crate::text::str_eq;

verus! {

/// Recoverable failures of store mutations.
#[derive(Clone, Copy, Debug, PartialEq, Eq, Structural)]
pub enum StoreError {
    /// `add_user` was given a (name, email) pair the store already holds.
    DuplicateUser,
    /// `send_msg` was given a sender outside the conversation's members, or
    /// an unknown conversation.
    NotAMember,
    /// `change_name` was given the name the user already has.
    SameName,
    /// `change_email` was given the email the user already has.
    SameEmail,
}

/// Unrecoverable failures while loading a persistence file: one malformed
/// record line aborts the whole load.
#[derive(Clone, Copy, Debug, PartialEq, Eq, Structural)]
pub enum LoadError {
    /// A users-file line with the wrong field count, a malformed identifier
    /// or a malformed timestamp.
    BadUserRecord,
    /// A conversations-file line with the wrong field count, a malformed
    /// identifier (the member list included) or a malformed timestamp.
    BadConvRecord,
    /// A messages-file line with the wrong field count, a malformed
    /// identifier or timestamp, or an unresolvable sender or conversation.
    BadMsgRecord,
    /// A relationships-file line with the wrong field count, a malformed
    /// identifier or an unknown status tag.
    BadRelRecord,
}

/// Spec-level image of a stored user.
pub ghost struct UserRec {
    pub id: u128,
    pub name: Seq<char>,
    pub email: Seq<char>,
    pub created: Timestamp,
}

/// Spec-level image of a stored conversation.
pub ghost struct ConvRec {
    pub id: u128,
    pub name: Seq<char>,
    pub members: Seq<u128>,
    pub start: Timestamp,
    pub last_msg: Timestamp,
}

/// Spec-level image of a stored message.
pub ghost struct MsgRec {
    pub id: u128,
    pub text: Seq<char>,
    pub time: Timestamp,
    pub sender: u128,
    pub conv: u128,
}

/// Spec-level image of a stored relationship record.
pub ghost struct RelRec {
    pub a: u128,
    pub b: u128,
    pub status: RelStatus,
}

// User ------------------------------------------------------------------

/// A user: immutable identifier, mutable display name and email, and the
/// creation time.
#[derive(Debug)]
pub struct UserInfo {
    pub id: u128,
    pub name: String,
    pub email: String,
    pub create_time: Timestamp,
}

impl View for UserInfo {
    type V = UserRec;

    open spec fn view(&self) -> UserRec {
        UserRec { id: self.id, name: self.name@, email: self.email@, created: self.create_time }
    }
}

impl Clone for UserInfo {
    fn clone(&self) -> (r: Self)
        ensures
            r@ == self@,
    {
        UserInfo {
            id: self.id,
            name: self.name.clone(),
            email: self.email.clone(),
            create_time: self.create_time,
        }
    }
}

impl UserInfo {
    /// A brand-new user: fresh identifier, the given name and email, and the
    /// current (normalized) clock reading.
    pub fn new(name: &str, email: &str) -> (r: UserInfo)
        ensures
            r@.name == name@,
            r@.email == email@,
            ts_ok(r@.created),
    {
        UserInfo {
            id: fresh_id(),
            name: String::from_str(name),
            email: String::from_str(email),
            create_time: now_ts(),
        }
    }

    /// A user rebuilt from already-parsed record fields.
    pub fn load(id: u128, name: &str, email: &str, create_time: Timestamp) -> (r: UserInfo)
        ensures
            r@ == (UserRec { id, name: name@, email: email@, created: create_time }),
    {
        UserInfo { id, name: String::from_str(name), email: String::from_str(email), create_time }
    }

    /// Replaces the display name; rejects the name the user already has.
    pub fn change_name(&mut self, name: &str) -> (r: Result<(), StoreError>)
        ensures
            old(self)@.name != name@ ==> r == Ok::<(), StoreError>(())
                && final(self)@ == (UserRec { name: name@, ..old(self)@ }),
            old(self)@.name == name@ ==> r == Err::<(), StoreError>(StoreError::SameName)
                && final(self)@ == old(self)@,
    {
        if !str_eq(self.name.as_str(), name) {
            self.name = String::from_str(name);
            Ok(())
        } else {
            Err(StoreError::SameName)
        }
    }

    /// Replaces the email; rejects the email the user already has.
    pub fn change_email(&mut self, email: &str) -> (r: Result<(), StoreError>)
        ensures
            old(self)@.email != email@ ==> r == Ok::<(), StoreError>(())
                && final(self)@ == (UserRec { email: email@, ..old(self)@ }),
            old(self)@.email == email@ ==> r == Err::<(), StoreError>(StoreError::SameEmail)
                && final(self)@ == old(self)@,
    {
        if !str_eq(self.email.as_str(), email) {
            self.email = String::from_str(email);
            Ok(())
        } else {
            Err(StoreError::SameEmail)
        }
    }

    pub fn id(&self) -> (r: u128)
        ensures
            r == self@.id,
    {
        self.id
    }

    pub fn name(&self) -> (r: &str)
        ensures
            r@ == self@.name,
    {
        self.name.as_str()
    }

    pub fn email(&self) -> (r: &str)
        ensures
            r@ == self@.email,
    {
        self.email.as_str()
    }

    pub fn time(&self) -> (r: Timestamp)
        ensures
            r == self@.created,
    {
        self.create_time
    }
}

// Conversation ------------------------------------------------------------

/// A conversation: identifier, name, member user identifiers in insertion
/// order, start time and the time of the latest message.
#[derive(Debug)]
pub struct ConvInfo {
    pub id: u128,
    pub name: String,
    pub members: Vec<u128>,
    pub start: Timestamp,
    pub last_msg: Timestamp,
}

impl View for ConvInfo {
    type V = ConvRec;

    open spec fn view(&self) -> ConvRec {
        ConvRec {
            id: self.id,
            name: self.name@,
            members: self.members@,
            start: self.start,
            last_msg: self.last_msg,
        }
    }
}

impl Clone for ConvInfo {
    fn clone(&self) -> (r: Self)
        ensures
            r@ == self@,
    {
        ConvInfo {
            id: self.id,
            name: self.name.clone(),
            members: self.members.clone(),
            start: self.start,
            last_msg: self.last_msg,
        }
    }
}

impl ConvInfo {
    /// A brand-new conversation: fresh identifier, the given name and
    /// members, started now, with the latest-message time equal to the start.
    pub fn new(name: &str, members: Vec<u128>) -> (r: ConvInfo)
        ensures
            r@.name == name@,
            r@.members == members@,
            r@.last_msg == r@.start,
            ts_ok(r@.start),
    {
        let time = now_ts();
        ConvInfo { id: fresh_id(), name: String::from_str(name), members, start: time, last_msg: time }
    }

    /// A conversation rebuilt from already-parsed record fields.
    pub fn load(id: u128, name: &str, members: Vec<u128>, start: Timestamp, last_msg: Timestamp) -> (r:
        ConvInfo)
        ensures
            r@ == (ConvRec { id, name: name@, members: members@, start, last_msg }),
    {
        ConvInfo { id, name: String::from_str(name), members, start, last_msg }
    }

    /// Notes that a message was just appended: moves the latest-message time
    /// to the current (normalized) clock reading.
    pub fn new_msg(&mut self)
        ensures
            final(self)@ == (ConvRec { last_msg: final(self)@.last_msg, ..old(self)@ }),
            ts_ok(final(self)@.last_msg),
    {
        self.last_msg = now_ts();
    }

    pub fn id(&self) -> (r: u128)
        ensures
            r == self@.id,
    {
        self.id
    }

    pub fn name(&self) -> (r: &str)
        ensures
            r@ == self@.name,
    {
        self.name.as_str()
    }

    pub fn members(&self) -> (r: &Vec<u128>)
        ensures
            r@ == self@.members,
    {
        &self.members
    }
}

// Message ------------------------------------------------------------------

/// A message: identifier, text, creation time, and references (by
/// identifier) to the sending user and the owning conversation.
#[derive(Debug)]
pub struct MsgInfo {
    pub id: u128,
    pub text: String,
    pub time_stamp: Timestamp,
    pub user: u128,
    pub conv: u128,
}

impl View for MsgInfo {
    type V = MsgRec;

    open spec fn view(&self) -> MsgRec {
        MsgRec {
            id: self.id,
            text: self.text@,
            time: self.time_stamp,
            sender: self.user,
            conv: self.conv,
        }
    }
}

impl Clone for MsgInfo {
    fn clone(&self) -> (r: Self)
        ensures
            r@ == self@,
    {
        MsgInfo {
            id: self.id,
            text: self.text.clone(),
            time_stamp: self.time_stamp,
            user: self.user,
            conv: self.conv,
        }
    }
}

impl MsgInfo {
    /// A brand-new message from `user` into `conv`, stamped with the current
    /// (normalized) clock reading.
    pub fn new(user: u128, conv: u128, text: &str) -> (r: MsgInfo)
        ensures
            r@.text == text@,
            r@.sender == user,
            r@.conv == conv,
            ts_ok(r@.time),
    {
        MsgInfo { id: fresh_id(), text: String::from_str(text), time_stamp: now_ts(), user, conv }
    }

    /// A message rebuilt from already-parsed record fields.
    pub fn load(id: u128, text: String, time_stamp: Timestamp, user: u128, conv: u128) -> (r:
        MsgInfo)
        ensures
            r@ == (MsgRec { id, text: text@, time: time_stamp, sender: user, conv }),
    {
        MsgInfo { id, text, time_stamp, user, conv }
    }
}

// Relationship ---------------------------------------------------------------

/// The standing between two users; `Blocked` records who blocked.
#[derive(Clone, Copy, Debug, PartialEq, Eq, Structural)]
pub enum RelStatus {
    BestFriends,
    Friends,
    Neutral,
    Blocked(u128),
}

/// A status record for an unordered pair of user identifiers.
#[derive(Debug)]
pub struct Relationship {
    pub members: [u128; 2],
    pub status: RelStatus,
}

impl View for Relationship {
    type V = RelRec;

    open spec fn view(&self) -> RelRec {
        RelRec { a: self.members[0], b: self.members[1], status: self.status }
    }
}

impl Clone for Relationship {
    fn clone(&self) -> (r: Self)
        ensures
            r@ == self@,
    {
        Relationship { members: [self.members[0], self.members[1]], status: self.status }
    }
}

impl Relationship {
    /// A relationship between the given pair; a missing status means the
    /// first-contact default, `Neutral`.
    pub fn new(members: [u128; 2], status: Option<RelStatus>) -> (r: Relationship)
        ensures
            r@.a == members[0],
            r@.b == members[1],
            r@.status == (match status {
                Some(st) => st,
                None => RelStatus::Neutral,
            }),
    {
        Relationship {
            members,
            status: match status {
                Some(st) => st,
                None => RelStatus::Neutral,
            },
        }
    }

    /// The recorded status.
    pub fn status(&self) -> (r: RelStatus)
        ensures
            r == self@.status,
    {
        self.status
    }
}

} // verus!
