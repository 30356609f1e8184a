//! The bridge session.
//!
//! A session owns the base target URL (host plus credential-derived path),
//! fixed at construction, and a cached device inventory that only an explicit
//! scan replaces. Its operations produce fully resolved request descriptors
//! and consume decoded replies; the I/O layer around it performs the actual
//! HTTP calls and hands plain values back.

use vstd::prelude::*;

use crate::digits::dec_seq;
use crate::digits::is_digit_char;
use crate::digits::push_dec_u32;
use crate::errors::ConstructionError;
use crate::errors::DecodeError;
use crate::errors::DispatchError;
use crate::lights::Light;
use crate::lights::LightCollection;
use crate::lights::strictly_increasing_ids;
use crate::methods::AllowedMethod;
use crate::target::RequestTarget;
use crate::target::generate_target;
use crate::target::host_ok;
use crate::target::is_rel_char;
use crate::target::lemma_target_text_valid_base;
use crate::target::rel_body;
use crate::target::resolve;
use crate::target::target_text;
use crate::target::valid_rel;
use crate::target::valid_token;
use vstd::pervasive::unreached;

verus! {

/// The URL of the state endpoint of device `id` under `base`.
pub open spec fn state_url(base: Seq<char>, id: u8) -> Seq<char> {
    base + "lights/"@ + dec_seq(id as nat) + "/state"@
}

/// Digits may stand in a relative reference.
proof fn lemma_digit_is_rel_char(c: char)
    requires
        is_digit_char(c),
    ensures
        is_rel_char(c),
{
}

/// A session against one bridge: the immutable base target plus the cached
/// inventory.
#[derive(Debug)]
pub struct Bridge {
    pub target: String,
    pub host: String,
    pub token: String,
    pub lights: LightCollection,
}

impl Bridge {
    /// A session is coherent: the target is exactly the base URL built from
    /// its host and its usable token, and the inventory is coherent.
    pub open spec fn wf(&self) -> bool {
        &&& self.target@ == target_text(self.host@, self.token@)
        &&& valid_token(self.token@)
        &&& self.lights.wf()
    }

    /// Constructs a session from a host and a credential token.
    ///
    /// Succeeds exactly when the host is a syntactically valid URL host and
    /// the token is usable; the new session's target is
    /// `http://<host>/api/<token>/` and its inventory is empty. Construction
    /// is atomic: no partially initialized session is observable.
    pub fn new(host: &str, token: &str) -> (r: Result<Bridge, ConstructionError>)
        ensures
            r is Ok <==> host_ok(host@) && valid_token(token@),
            r is Ok ==> {
                let b = r.unwrap();
                &&& b.wf()
                &&& b.host@ == host@
                &&& b.token@ == token@
                &&& b.target@ == target_text(host@, token@)
                &&& b.lights.lights@.len() == 0
            },
            r is Err ==> (r.unwrap_err() == ConstructionError::InvalidHost <==> !host_ok(host@)),
    {
        match generate_target(host, token) {
            Ok(target) => Ok(
                Bridge {
                    target,
                    host: String::from_str(host),
                    token: String::from_str(token),
                    lights: LightCollection::empty(),
                },
            ),
            Err(e) => Err(e),
        }
    }

    /// The request that fetches the device list: one GET on `./lights`
    /// resolved against the session target.
    pub fn scan_request(&self) -> (t: RequestTarget)
        requires
            self.wf(),
        ensures
            t.url@ == self.target@ + "lights"@,
            t.method == AllowedMethod::GET,
    {
        proof {
            lemma_target_text_valid_base(self.host@, self.token@);
            reveal_strlit("./lights");
            reveal_strlit("lights");
            let r = "./lights"@;
            assert(rel_body(r) =~= "lights"@);
            assert forall|i: int| 0 <= i < "lights"@.len() implies is_rel_char("lights"@[i]) by {
                if i == 0 {
                    assert("lights"@[0] == 'l');
                } else if i == 1 {
                    assert("lights"@[1] == 'i');
                } else if i == 2 {
                    assert("lights"@[2] == 'g');
                } else if i == 3 {
                    assert("lights"@[3] == 'h');
                } else if i == 4 {
                    assert("lights"@[4] == 't');
                } else {
                    assert("lights"@[5] == 's');
                }
            }
            assert(valid_rel(r));
        }
        match resolve(self.target.as_str(), "./lights", AllowedMethod::GET) {
            Ok(t) => t,
            Err(_) => unreached(),
        }
    }

    /// The request that sends a desired state to device `id`: one PUT on
    /// `./lights/<id>/state` resolved against the session target.
    pub fn state_to(&self, id: u8) -> (t: RequestTarget)
        requires
            self.wf(),
        ensures
            t.url@ == state_url(self.target@, id),
            t.method == AllowedMethod::PUT,
    {
        let mut rel = String::from_str("./lights/");
        push_dec_u32(&mut rel, id as u32);
        rel.append("/state");
        proof {
            lemma_target_text_valid_base(self.host@, self.token@);
            reveal_strlit("./lights/");
            reveal_strlit("lights/");
            reveal_strlit("/state");
            let r = rel@;
            assert(r == "./lights/"@ + dec_seq(id as nat) + "/state"@);
            crate::digits::lemma_dec_seq_props(id as nat);
            assert(rel_body(r) =~= "lights/"@ + dec_seq(id as nat) + "/state"@) by {
                assert(r[0] == "./lights/"@[0]);
                assert(r[1] == "./lights/"@[1]);
                assert(r.skip(2) =~= "lights/"@ + dec_seq(id as nat) + "/state"@);
            }
            let body = rel_body(r);
            assert forall|i: int| 0 <= i < body.len() implies is_rel_char(body[i]) by {
                let d = dec_seq(id as nat).len() as int;
                if i < 7 {
                    assert(body[i] == "lights/"@[i]);
                    if i == 0 {
                        assert("lights/"@[0] == 'l');
                    } else if i == 1 {
                        assert("lights/"@[1] == 'i');
                    } else if i == 2 {
                        assert("lights/"@[2] == 'g');
                    } else if i == 3 {
                        assert("lights/"@[3] == 'h');
                    } else if i == 4 {
                        assert("lights/"@[4] == 't');
                    } else if i == 5 {
                        assert("lights/"@[5] == 's');
                    } else {
                        assert("lights/"@[6] == '/');
                    }
                } else if i < 7 + d {
                    assert(body[i] == dec_seq(id as nat)[i - 7]);
                    lemma_digit_is_rel_char(dec_seq(id as nat)[i - 7]);
                } else {
                    assert(body[i] == "/state"@[i - 7 - d]);
                    if i - 7 - d == 0 {
                        assert("/state"@[0] == '/');
                    } else if i - 7 - d == 1 {
                        assert("/state"@[1] == 's');
                    } else if i - 7 - d == 2 {
                        assert("/state"@[2] == 't');
                    } else if i - 7 - d == 3 {
                        assert("/state"@[3] == 'a');
                    } else if i - 7 - d == 4 {
                        assert("/state"@[4] == 't');
                    } else {
                        assert("/state"@[5] == 'e');
                    }
                }
            }
            assert(body[0] == 'l');
            assert(valid_rel(r));
        }
        match resolve(self.target.as_str(), rel.as_str(), AllowedMethod::PUT) {
            Ok(t) => {
                proof {
                    assert(t.url@ =~= state_url(self.target@, id));
                }
                t
            },
            Err(_) => unreached(),
        }
    }

    /// The request batch that sends one state per device of `ids`.
    ///
    /// `payload_count` is the length of the parallel payload collection;
    /// mismatched lengths are a caller contract violation and fail here,
    /// before anything is dispatched, never zipped short. On success, target
    /// `i` is the state endpoint of `ids[i]`, so results correlate by index.
    pub fn state_to_multiple(&self, ids: &Vec<u8>, payload_count: usize) -> (r: Result<
        Vec<RequestTarget>,
        DispatchError,
    >)
        requires
            self.wf(),
        ensures
            r is Ok <==> ids@.len() == payload_count,
            r is Ok ==> {
                let ts = r.unwrap();
                &&& ts@.len() == ids@.len()
                &&& (forall|i: int|
                    0 <= i < ids@.len() ==> (#[trigger] ts@[i]).url@ == state_url(
                        self.target@,
                        ids@[i],
                    ) && ts@[i].method == AllowedMethod::PUT)
            },
            r is Err ==> r.unwrap_err() == DispatchError::LengthMismatch,
    {
        if ids.len() != payload_count {
            return Err(DispatchError::LengthMismatch);
        }
        let mut ts: Vec<RequestTarget> = Vec::new();
        let mut i: usize = 0;
        while i < ids.len()
            invariant
                self.wf(),
                i <= ids@.len(),
                ts@.len() == i,
                forall|k: int|
                    0 <= k < i ==> (#[trigger] ts@[k]).url@ == state_url(self.target@, ids@[k])
                        && ts@[k].method == AllowedMethod::PUT,
            decreases ids@.len() - i,
        {
            ts.push(self.state_to(ids[i]));
            i = i + 1;
        }
        Ok(ts)
    }

    /// The request batch that broadcasts one shared state to every device in
    /// the current inventory, in inventory order.
    pub fn all_targets(&self) -> (r: Vec<RequestTarget>)
        requires
            self.wf(),
        ensures
            r@.len() == self.lights.ids@.len(),
            forall|i: int|
                0 <= i < r@.len() ==> (#[trigger] r@[i]).url@ == state_url(
                    self.target@,
                    self.lights.ids@[i],
                ) && r@[i].method == AllowedMethod::PUT,
    {
        let mut ts: Vec<RequestTarget> = Vec::new();
        let mut i: usize = 0;
        while i < self.lights.ids.len()
            invariant
                self.wf(),
                i <= self.lights.ids@.len(),
                ts@.len() == i,
                forall|k: int|
                    0 <= k < i ==> (#[trigger] ts@[k]).url@ == state_url(
                        self.target@,
                        self.lights.ids@[k],
                    ) && ts@[k].method == AllowedMethod::PUT,
            decreases self.lights.ids@.len() - i,
        {
            ts.push(self.state_to(self.lights.ids[i]));
            i = i + 1;
        }
        ts
    }

    /// Replaces the inventory with the decoded result of one scan.
    ///
    /// Succeeds exactly when the decoded entries arrive with strictly
    /// increasing IDs; the previous inventory is then fully replaced - an ID
    /// absent from the new list is gone, not retained stale. On failure the
    /// session is unchanged.
    pub fn scan(&mut self, entries: Vec<(u8, Light)>) -> (r: Result<(), DecodeError>)
        requires
            old(self).wf(),
        ensures
            final(self).wf(),
            r is Ok <==> strictly_increasing_ids(entries@),
            r is Ok ==> final(self).lights.lights@ == entries@,
            r is Err ==> *final(self) == *old(self) && r.unwrap_err()
                == DecodeError::UnorderedInventory,
            final(self).target@ == old(self).target@,
            final(self).host@ == old(self).host@,
            final(self).token@ == old(self).token@,
    {
        match LightCollection::from_entries(entries) {
            Ok(col) => {
                self.lights = col;
                Ok(())
            },
            Err(e) => Err(e),
        }
    }

    /// A snapshot copy of the inventory: (ID, record) pairs in ascending ID
    /// order. Callers iterate the copy; a later scan cannot mutate it.
    pub fn get_lights(&self) -> (r: Vec<(u8, Light)>)
        ensures
            r@ == self.lights.lights@,
    {
        let mut out: Vec<(u8, Light)> = Vec::new();
        let mut i: usize = 0;
        while i < self.lights.lights.len()
            invariant
                i <= self.lights.lights@.len(),
                out@.len() == i,
                forall|k: int| 0 <= k < i ==> out@[k] == self.lights.lights@[k],
            decreases self.lights.lights@.len() - i,
        {
            let id = self.lights.lights[i].0;
            let record = self.lights.lights[i].1.clone();
            out.push((id, record));
            i = i + 1;
        }
        proof {
            assert(out@ =~= self.lights.lights@);
        }
        out
    }

    /// The two-line credential text this session persists: the host, a line
    /// break, then the token.
    pub fn to_credentials(&self) -> (r: String)
        ensures
            r@ == self.host@ + "\n"@ + self.token@,
    {
        let mut out = String::new();
        out.append(self.host.as_str());
        out.append("\n");
        out.append(self.token.as_str());
        out
    }
}

/// Splits persisted credential text at its first line break.
///
/// Succeeds exactly when the text contains a line break; the host is then
/// everything before the first one (so it holds none itself) and the token is
/// everything after it.
pub fn parse_credentials(s: &str) -> (r: Result<(String, String), DecodeError>)
    ensures
        r is Ok <==> (exists|k: int| 0 <= k < s@.len() && s@[k] == '\n'),
        r matches Ok((h, t)) ==> h@ + "\n"@ + t@ == s@ && (forall|i: int|
            0 <= i < h@.len() ==> h@[i] != '\n'),
        r is Err ==> r.unwrap_err() == DecodeError::Malformed,
{
    let n = s.unicode_len();
    let mut k: usize = 0;
    while k < n && s.get_char(k) != '\n'
        invariant
            n == s@.len(),
            k <= n,
            forall|i: int| 0 <= i < k ==> s@[i] != '\n',
        decreases n - k,
    {
        k = k + 1;
    }
    if k == n {
        assert(!(exists|k: int| 0 <= k < s@.len() && s@[k] == '\n'));
        return Err(DecodeError::Malformed);
    }
    assert(s@[k as int] == '\n');
    let host = s.substring_char(0, k).to_owned();
    let token = s.substring_char(k + 1, n).to_owned();
    proof {
        reveal_strlit("\n");
        assert("\n"@ =~= seq!['\n']);
        assert(host@ + "\n"@ + token@ =~= s@);
    }
    Ok((host, token))
}

/// Law: the two-line credential format splits one way only. If two
/// break-free hosts and two tokens render to the same credential text, they
/// were the same host and the same token; persisting and re-reading
/// credentials is lossless.
pub proof fn lemma_credentials_split_unique(
    h1: Seq<char>,
    t1: Seq<char>,
    h2: Seq<char>,
    t2: Seq<char>,
)
    requires
        h1 + "\n"@ + t1 == h2 + "\n"@ + t2,
        forall|i: int| 0 <= i < h1.len() ==> h1[i] != '\n',
        forall|i: int| 0 <= i < h2.len() ==> h2[i] != '\n',
    ensures
        h1 == h2,
        t1 == t2,
{
    reveal_strlit("\n");
    assert("\n"@ =~= seq!['\n']);
    let s = h1 + "\n"@ + t1;
    assert(s[h1.len() as int] == '\n');
    assert((h2 + "\n"@ + t2)[h2.len() as int] == '\n');
    if h1.len() < h2.len() {
        assert(s[h1.len() as int] == h2[h1.len() as int]);
        assert(false);
    }
    if h2.len() < h1.len() {
        assert(s[h2.len() as int] == h1[h2.len() as int]);
        assert(false);
    }
    assert(h1 =~= h2) by {
        assert forall|i: int| 0 <= i < h1.len() implies h1[i] == h2[i] by {
            assert(s[i] == h1[i]);
            assert(s[i] == h2[i]);
        }
    }
    assert(s.len() == h1.len() + 1 + t1.len());
    assert(s.len() == h2.len() + 1 + t2.len());
    assert(t1 =~= t2) by {
        assert forall|i: int| 0 <= i < t1.len() implies t1[i] == t2[i] by {
            assert(s == (h1 + "\n"@) + t1);
            assert((h1 + "\n"@).len() == h1.len() + 1);
            assert(((h1 + "\n"@) + t1)[h1.len() + 1 + i] == t1[i]);
            assert(s == (h2 + "\n"@) + t2);
            assert((h2 + "\n"@).len() == h2.len() + 1);
            assert(((h2 + "\n"@) + t2)[h2.len() + 1 + i] == t2[i]);
        }
    }
}

} // verus!
