//! Registration: the interactive polling handshake.
//!
//! A new credential is issued only after a physical button press on the
//! bridge, and the gateway offers no notification channel, so the client
//! polls: it POSTs a fixed device identifier to each candidate address in
//! turn until one replies with an issued token. The machine here holds the
//! candidates and the poll count and decides every transition; the I/O layer
//! only performs the POST, sleeps the fixed interval, and feeds each reply
//! body back.

use vstd::prelude::*;

use crate::errors::RegistrationError;
use crate::text::match_at;

verus! {

/// What one registration reply means.
#[derive(Debug, PartialEq, Eq)]
pub enum RegReply {
    /// The well-known "link button not pressed" error: keep polling.
    ButtonNotPressed,
    /// A token was issued; the handshake is over.
    Success(String),
    /// Anything else; treated as "not yet" and polled past.
    Unrecognized,
}

/// A reply body carrying an issued token: exactly
/// `[{"success":{"username":"<token>"}}]` with a quote-free, escape-free
/// token.
pub open spec fn is_success_reply(s: Seq<char>) -> bool {
    &&& s.len() >= 29
    &&& s.take(25) == "[{\"success\":{\"username\":\""@
    &&& s.skip(s.len() - 4) == "\"}}]"@
    &&& (forall|i: int| 25 <= i < s.len() - 4 ==> s[i] != '"' && s[i] != '\\')
}

/// The token inside a success reply.
pub open spec fn success_token(s: Seq<char>) -> Seq<char> {
    s.subrange(25, s.len() - 4)
}

/// A reply body opening with the well-known "link button not pressed" error,
/// `[{"error":{"type":101` followed by `,` or `}`.
pub open spec fn is_button_wait_reply(s: Seq<char>) -> bool {
    &&& s.len() >= 22
    &&& s.take(21) == "[{\"error\":{\"type\":101"@
    &&& (s[21] == ',' || s[21] == '}')
}

/// Decides whether a range of the body is free of quotes and escapes.
fn plain_range(s: &str, n: usize, from: usize, to: usize) -> (b: bool)
    requires
        n == s@.len(),
        from <= to <= n,
    ensures
        b == (forall|k: int| from <= k < to ==> s@[k] != '"' && s@[k] != '\\'),
{
    let mut i: usize = from;
    while i < to
        invariant
            n == s@.len(),
            from <= i <= to <= n,
            forall|k: int| from <= k < i ==> s@[k] != '"' && s@[k] != '\\',
        decreases to - i,
    {
        let c = s.get_char(i);
        if c == '"' || c == '\\' {
            assert(!(s@[i as int] != '"' && s@[i as int] != '\\'));
            return false;
        }
        i = i + 1;
    }
    true
}

/// Classifies one registration reply body by its structure: an issued token,
/// the "button not pressed" error, or anything else.
pub fn classify_reply(body: &str) -> (r: RegReply)
    ensures
        (r is Success) == is_success_reply(body@),
        (r is ButtonNotPressed) == (!is_success_reply(body@) && is_button_wait_reply(body@)),
        r matches RegReply::Success(t) ==> t@ == success_token(body@),
{
    let n = body.unicode_len();
    let suc_pre = "[{\"success\":{\"username\":\"";
    let suc_suf = "\"}}]";
    proof {
        reveal_strlit("[{\"success\":{\"username\":\"");
        reveal_strlit("\"}}]");
        assert(suc_pre@.len() == 25);
        assert(suc_suf@.len() == 4);
    }
    if n >= 29 && match_at(body, n, 0, suc_pre) && match_at(body, n, n - 4, suc_suf) {
        proof {
            assert(body@.take(25) =~= body@.subrange(0, suc_pre@.len() as int));
            assert(body@.skip(n - 4) =~= body@.subrange(n - 4, n - 4 + suc_suf@.len()));
        }
        let clean = plain_range(body, n, 25, n - 4);
        if clean {
            let token = body.substring_char(25, n - 4);
            proof {
                assert(token@ =~= success_token(body@));
            }
            return RegReply::Success(token.to_owned());
        }
        assert(!is_success_reply(body@));
        assert(!is_button_wait_reply(body@)) by {
            reveal_strlit("[{\"error\":{\"type\":101");
            if is_button_wait_reply(body@) {
                assert(body@.take(21)[3] == body@[3]);
                assert(body@.take(25)[3] == body@[3]);
            }
        }
        return RegReply::Unrecognized;
    }
    let err_pre = "[{\"error\":{\"type\":101";
    proof {
        reveal_strlit("[{\"error\":{\"type\":101");
        assert(err_pre@.len() == 21);
    }
    assert(!is_success_reply(body@)) by {
        if is_success_reply(body@) {
            assert(body@.subrange(0, 25) == body@.take(25));
            assert(body@.subrange(n - 4, n as int) =~= body@.skip(n - 4));
        }
    }
    if n >= 22 && match_at(body, n, 0, err_pre) {
        proof {
            assert(body@.take(21) =~= body@.subrange(0, err_pre@.len() as int));
        }
        let c = body.get_char(21);
        if c == ',' || c == '}' {
            return RegReply::ButtonNotPressed;
        }
        return RegReply::Unrecognized;
    }
    assert(!is_button_wait_reply(body@)) by {
        if is_button_wait_reply(body@) {
            assert(body@.subrange(0, 21) == body@.take(21));
        }
    }
    RegReply::Unrecognized
}

/// The fixed body of every registration POST: the client's device type.
pub fn registration_body() -> (r: String)
    ensures
        r@ == "{\"devicetype\":\"lighthouse\"}"@,
{
    String::from_str("{\"devicetype\":\"lighthouse\"}")
}

/// The terminal result of the handshake: which address issued which token.
#[derive(Debug, PartialEq, Eq)]
pub struct RegOutcome {
    pub address: u32,
    pub token: String,
}

/// The registration machine: candidates to poll round-robin, the number of
/// polls made so far, and the outcome once a token was issued.
#[derive(Debug)]
pub struct Registration {
    pub candidates: Vec<u32>,
    pub next: usize,
    pub polls: u64,
    pub outcome: Option<RegOutcome>,
}

/// `p` plus one more poll, safely at the top of the range.
pub open spec fn inc_polls(p: u64) -> u64 {
    if p < u64::MAX {
        (p + 1) as u64
    } else {
        p
    }
}

impl Registration {
    /// The machine is usable: at least one candidate, and the cursor points
    /// at one of them.
    pub open spec fn wf(&self) -> bool {
        self.candidates@.len() >= 1 && (self.next as int) < self.candidates@.len()
    }

    /// Starts the handshake against the discovered candidates.
    ///
    /// Fails exactly when no candidates were found; otherwise the machine
    /// starts at the first candidate with no polls made and no outcome.
    pub fn start(candidates: Vec<u32>) -> (r: Result<Registration, RegistrationError>)
        ensures
            r is Ok <==> candidates@.len() >= 1,
            r is Err ==> r.unwrap_err() == RegistrationError::NoBridgesFound,
            r is Ok ==> {
                let m = r.unwrap();
                m.wf() && m.candidates@ == candidates@ && m.next == 0 && m.polls == 0
                    && m.outcome is None
            },
    {
        if candidates.len() == 0 {
            return Err(RegistrationError::NoBridgesFound);
        }
        Ok(Registration { candidates, next: 0, polls: 0, outcome: None })
    }

    /// The address the next poll must POST to.
    pub fn poll_address(&self) -> (r: u32)
        requires
            self.wf(),
        ensures
            r == self.candidates@[self.next as int],
    {
        self.candidates[self.next]
    }

    /// Feeds back the reply body of one poll.
    ///
    /// A success reply captures the replying address and the issued token and
    /// ends the handshake; any other reply (the "button not pressed" error or
    /// an unrecognized body) advances the cursor to the following candidate,
    /// wrapping around. Every call counts as exactly one poll.
    pub fn on_reply(&mut self, body: &str)
        requires
            old(self).wf(),
            old(self).outcome is None,
        ensures
            final(self).wf(),
            final(self).candidates@ == old(self).candidates@,
            final(self).polls == inc_polls(old(self).polls),
            is_success_reply(body@) ==> {
                &&& final(self).outcome matches Some(o) && o.address == old(self).candidates@[old(
                    self,
                ).next as int] && o.token@ == success_token(body@)
                &&& final(self).next == old(self).next
            },
            !is_success_reply(body@) ==> {
                &&& final(self).outcome is None
                &&& final(self).next as int == (old(self).next + 1) as int % old(
                    self,
                ).candidates@.len() as int
            },
    {
        let reply = classify_reply(body);
        if self.polls < u64::MAX {
            self.polls = self.polls + 1;
        }
        match reply {
            RegReply::Success(token) => {
                let address = self.candidates[self.next];
                self.outcome = Some(RegOutcome { address, token });
            },
            _ => {
                let bound = self.candidates.len();
                self.next = (self.next + 1) % bound;
            },
        }
    }
}

} // verus!
