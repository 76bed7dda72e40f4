//! The command-protocol engine: parses one request line, queries the store,
//! and serializes the response. The grammar, and the exact response to every
//! request, is pinned down by `response_of`.

use vstd::prelude::*;
use vstd::string::*;
use crate::codec::{
    conv_line_of,
    user_body_of,
    user_bodies_of,
    user_line_of,
    users_text_of,
    lemma_cat_lines_push,
};
use crate::entities::UserRec;
use crate::store::{
    App,
    ConvSearch,
    StoreV,
    all_user_matches,
    find_conv_by_members,
    find_conv_by_name,
    find_user_match,
    user_views_of,
};
use crate::text::{split_at, str_eq, trim_spec, trim_ws};

verus! {

/// A request the engine treats as a protocol violation rather than a
/// diagnosable error: the word after `GET` is missing or not a known noun.
#[derive(Clone, Copy, Debug, PartialEq, Eq, Structural)]
pub enum ProtocolError {
    UnknownTarget,
}

/// The response to a `GET USER ...` request, given its space-separated
/// tokens.
pub open spec fn user_cmd_response(s: StoreV, toks: Seq<Seq<char>>) -> Seq<char> {
    if toks.len() < 3 {
        "NO OPTION PROVIDED"@
    } else {
        let o = toks[2];
        if o != "ID"@ && o != "NAME"@ && o != "EMAIL"@ && o != "MULT"@ {
            "INVALID GET USER <_> COMMAND"@
        } else if o == "MULT"@ {
            if toks.len() < 4 {
                "NO OPTION OR SEARCH TERM PROVIDED"@
            } else if toks.len() < 5 {
                "NO SEARCH TERM PROVIDED"@
            } else {
                let ms = all_user_matches(s.users, toks[3], trim_spec(toks[4]));
                if ms.len() == 0 {
                    "NO USERS FOUND"@
                } else {
                    users_text_of(ms)
                }
            }
        } else {
            if toks.len() < 4 {
                "NO SEARCH TERM PROVIDED"@
            } else {
                match find_user_match(s.users, o, trim_spec(toks[3])) {
                    Some(u) => user_line_of(u),
                    None => "NO USER FOUND"@,
                }
            }
        }
    }
}

/// Whether some piece of the id list resolves to no user at all.
pub open spec fn some_id_unresolved(users: Seq<UserRec>, idtoks: Seq<Seq<char>>) -> bool {
    exists|j: int|
        0 <= j < idtoks.len() && find_user_match(users, "ID"@, #[trigger] idtoks[j]) is None
}

/// The users each piece of the id list resolves to, by identifier.
pub open spec fn resolved_ids(users: Seq<UserRec>, idtoks: Seq<Seq<char>>) -> Seq<u128> {
    Seq::new(idtoks.len(), |j: int| find_user_match(users, "ID"@, idtoks[j])->Some_0.id)
}

/// The response to a `GET CONV ...` request, given its space-separated
/// tokens. The `MEMBERS` term is a delimiter-separated id list whose last
/// piece (normally empty, after the trailing delimiter) is discarded.
pub open spec fn conv_cmd_response(s: StoreV, toks: Seq<Seq<char>>) -> Seq<char> {
    let option = if toks.len() > 2 {
        toks[2]
    } else {
        "NONE"@
    };
    let search = if toks.len() > 3 {
        toks[3]
    } else {
        "NONE"@
    };
    if option == "NONE"@ || search == "NONE"@ {
        "INCOMPLETE COMMAND"@
    } else if option == "NAME"@ {
        match find_conv_by_name(s.convs, trim_spec(search)) {
            Some(c) => conv_line_of(c),
            None => "NO CONVS FOUND"@,
        }
    } else if option == "MEMBERS"@ {
        let idtoks = split_at(search, seq![',', '\n']).drop_last();
        if idtoks.len() == 0 {
            "NO VALID USERS PROVIDED"@
        } else if some_id_unresolved(s.users, idtoks) {
            "INVALID USER PROVIDED"@
        } else {
            match find_conv_by_members(s.convs, resolved_ids(s.users, idtoks)) {
                Some(c) => conv_line_of(c),
                None => "NO CONVS FOUND"@,
            }
        }
    } else {
        Seq::empty()
    }
}

/// The response to a whole request line, or nothing for a protocol
/// violation: anything that does not start with `GET` is answered
/// `NOT GET`; `REL` and `MSG` are reserved extension points answered with
/// the empty string; an unknown or missing noun after `GET` is a violation.
pub open spec fn response_of(s: StoreV, req: Seq<char>) -> Option<Seq<char>> {
    let toks = split_at(req, seq![' ']);
    if toks[0] != "GET"@ {
        Some("NOT GET"@)
    } else if toks.len() < 2 {
        None
    } else if toks[1] == "USER"@ {
        Some(user_cmd_response(s, toks))
    } else if toks[1] == "CONV"@ {
        Some(conv_cmd_response(s, toks))
    } else if toks[1] == "REL"@ || toks[1] == "MSG"@ {
        Some(Seq::empty())
    } else {
        None
    }
}

/// Whether a request is the sentinel that ends a connection loop.
pub fn is_end(req: &str) -> (r: bool)
    ensures
        r == (trim_spec(req@) == "END"@),
{
    str_eq(trim_ws(req), "END")
}

impl App {
    fn user_cmd(&self, toks: &Vec<String>) -> (r: String)
        ensures
            r@ == user_cmd_response(self@, toks.deep_view()),
    {
        let ghost tv = toks.deep_view();
        proof {
            assert forall|k: int| 0 <= k < toks@.len() implies tv[k] == #[trigger] toks@[k]@ by {}
        }
        if toks.len() < 3 {
            return String::from_str("NO OPTION PROVIDED");
        }
        let o = toks[2].as_str();
        let is_id = str_eq(o, "ID");
        let is_name = str_eq(o, "NAME");
        let is_email = str_eq(o, "EMAIL");
        let is_mult = str_eq(o, "MULT");
        if !is_id && !is_name && !is_email && !is_mult {
            return String::from_str("INVALID GET USER <_> COMMAND");
        }
        if is_mult {
            if toks.len() < 4 {
                return String::from_str("NO OPTION OR SEARCH TERM PROVIDED");
            }
            if toks.len() < 5 {
                return String::from_str("NO SEARCH TERM PROVIDED");
            }
            let opt = toks[3].as_str();
            let term = trim_ws(toks[4].as_str());
            match self.get_user_mult(opt, term) {
                None => String::from_str("NO USERS FOUND"),
                Some(us) => {
                    let ghost ms = all_user_matches(self@.users, tv[3], trim_spec(tv[4]));
                    proof {
                        assert(user_views_of(us@) == ms);
                        assert(ms.len() > 0);
                    }
                    let mut out = String::new();
                    proof {
                        assert(user_bodies_of(ms.take(0)) =~= Seq::<Seq<char>>::empty());
                        assert(out@ =~= users_text_of(ms.take(0)));
                    }
                    let mut i: usize = 0;
                    while i < us.len()
                        invariant
                            0 <= i <= us@.len() == ms.len(),
                            user_views_of(us@) == ms,
                            out@ == users_text_of(ms.take(i as int)),
                        decreases us@.len() - i,
                    {
                        proof {
                            assert(user_views_of(us@)[i as int] == us@[i as int]@);
                        }
                        let line = us[i].to_string();
                        out.append(line.as_str());
                        proof {
                            let taken = ms.take(i as int);
                            assert(user_bodies_of(ms.take(i + 1)) =~= user_bodies_of(taken).push(
                                user_body_of(ms[i as int]),
                            ));
                            lemma_cat_lines_push(user_bodies_of(taken), user_body_of(ms[i as int]));
                            assert(out@ =~= users_text_of(ms.take(i + 1)));
                        }
                        i += 1;
                    }
                    proof {
                        assert(ms.take(ms.len() as int) =~= ms);
                    }
                    out
                },
            }
        } else {
            if toks.len() < 4 {
                return String::from_str("NO SEARCH TERM PROVIDED");
            }
            let term = trim_ws(toks[3].as_str());
            match self.get_user(o, term) {
                None => String::from_str("NO USER FOUND"),
                Some(u) => u.to_string(),
            }
        }
    }

    #[verifier::loop_isolation(false)]
    fn conv_cmd(&self, toks: &Vec<String>) -> (r: String)
        ensures
            r@ == conv_cmd_response(self@, toks.deep_view()),
    {
        let ghost tv = toks.deep_view();
        proof {
            assert forall|k: int| 0 <= k < toks@.len() implies tv[k] == #[trigger] toks@[k]@ by {}
            reveal_strlit("NONE");
            reveal_strlit("NAME");
            reveal_strlit("MEMBERS");
        }
        if toks.len() < 4 {
            return String::from_str("INCOMPLETE COMMAND");
        }
        let option = toks[2].as_str();
        let search = toks[3].as_str();
        if str_eq(option, "NONE") || str_eq(search, "NONE") {
            return String::from_str("INCOMPLETE COMMAND");
        }
        if str_eq(option, "NAME") {
            let term = trim_ws(search);
            match self.get_conv(ConvSearch::Name(String::from_str(term))) {
                Some(c) => c.to_string(),
                None => String::from_str("NO CONVS FOUND"),
            }
        } else if str_eq(option, "MEMBERS") {
            let mut parts = crate::codec::split_two(search, ',', '\n');
            let ghost pv = split_at(search@, seq![',', '\n']);
            let ghost pre_pop = parts@;
            parts.pop();
            proof {
                assert forall|k: int| 0 <= k < parts@.len() implies parts.deep_view()[k]
                    == pv.drop_last()[k] by {
                    assert(parts@[k] == pre_pop[k]);
                    assert(parts.deep_view()[k] == parts@[k]@);
                }
                assert(parts.deep_view() =~= pv.drop_last());
            }
            let ghost idtoks = pv.drop_last();
            if parts.len() == 0 {
                return String::from_str("NO VALID USERS PROVIDED");
            }
            let mut rids: Vec<u128> = Vec::new();
            let mut j: usize = 0;
            while j < parts.len()
                invariant
                    0 <= j <= parts@.len() == idtoks.len(),
                    parts.deep_view() == idtoks,
                    rids@.len() == j,
                    forall|k: int| 0 <= k < j ==> find_user_match(
                        self@.users,
                        "ID"@,
                        #[trigger] idtoks[k],
                    ) is Some,
                    forall|k: int| 0 <= k < j ==> rids@[k] == find_user_match(
                        self@.users,
                        "ID"@,
                        #[trigger] idtoks[k],
                    )->Some_0.id,
                decreases parts@.len() - j,
            {
                proof {
                    assert(parts.deep_view()[j as int] == parts@[j as int]@);
                }
                match self.get_user("ID", parts[j].as_str()) {
                    None => {
                        proof {
                            assert(find_user_match(self@.users, "ID"@, idtoks[j as int]) is None);
                            assert(some_id_unresolved(self@.users, idtoks));
                        }
                        return String::from_str("INVALID USER PROVIDED");
                    },
                    Some(u) => {
                        rids.push(u.id);
                    },
                }
                j += 1;
            }
            proof {
                assert(!some_id_unresolved(self@.users, idtoks));
                assert(rids@ =~= resolved_ids(self@.users, idtoks));
            }
            match self.get_conv(ConvSearch::Members(rids)) {
                Some(c) => c.to_string(),
                None => String::from_str("NO CONVS FOUND"),
            }
        } else {
            String::new()
        }
    }

    /// Answers one request line. Every well-formed or diagnosable request
    /// gets its response text — the grammar and all diagnostic strings are
    /// fixed by `response_of` — and never changes the store; a request whose
    /// word after `GET` is missing or unknown is a protocol violation,
    /// surfaced as an error for the connection loop to handle.
    pub fn execute(&mut self, req: String) -> (r: Result<String, ProtocolError>)
        ensures
            final(self)@ == old(self)@,
            match r {
                Ok(resp) => response_of(old(self)@, req@) == Some(resp@),
                Err(e) => response_of(old(self)@, req@) is None && e
                    == ProtocolError::UnknownTarget,
            },
    {
        let toks = crate::codec::split_one(req.as_str(), ' ');
        proof {
            assert(toks.deep_view()[0] == toks@[0]@);
            assert(toks.deep_view()[1] == toks@[1]@ || toks@.len() < 2);
        }
        if !str_eq(toks[0].as_str(), "GET") {
            return Ok(String::from_str("NOT GET"));
        }
        if toks.len() < 2 {
            return Err(ProtocolError::UnknownTarget);
        }
        let noun = toks[1].as_str();
        if str_eq(noun, "USER") {
            Ok(self.user_cmd(&toks))
        } else if str_eq(noun, "CONV") {
            Ok(self.conv_cmd(&toks))
        } else if str_eq(noun, "REL") || str_eq(noun, "MSG") {
            Ok(String::new())
        } else {
            Err(ProtocolError::UnknownTarget)
        }
    }
}

} // verus!
