//! The sparse desired-state payload and its wire text.
//!
//! Every attribute of a payload is optional; an absent attribute is omitted
//! from the wire text entirely (never sent as null), so the device leaves it
//! unchanged. The wire text is canonical JSON: attributes in one fixed order,
//! no whitespace, numbers in canonical decimal, chromaticity as a pair of
//! six-decimal fractions. `render_payload` is the one definition of that
//! text; the writer produces it exactly and the reader accepts it exactly.

use vstd::prelude::*;

use crate::digits::dec_at;
use crate::digits::dec_seq;
use crate::digits::is_digit_char;
use crate::digits::padded;
use crate::digits::parse_dec;
use crate::digits::parse_padded;
use crate::digits::pow10;
use crate::digits::push_dec_u32;
use crate::digits::push_padded;
use crate::errors::DecodeError;
use crate::lights::State;
use crate::lights::Xy;
use crate::lights::bool_text;
use crate::lights::clone_opt_string;
use crate::text::match_at;
use crate::text::occurs_at;

verus! {

/// A desired-state command for one light: only the attributes to change are
/// present. The default carries the deliberate transition time of 1; a value
/// built with `none()` carries nothing at all.
#[derive(Debug, PartialEq, Eq)]
pub struct SendableState {
    pub on: Option<bool>,
    pub bri: Option<u8>,
    pub hue: Option<u16>,
    pub sat: Option<u8>,
    pub effect: Option<String>,
    pub xy: Option<Xy>,
    pub alert: Option<String>,
    pub transitiontime: Option<u8>,
    pub colormode: Option<String>,
}

impl Clone for SendableState {
    /// An exact copy of the payload.
    fn clone(&self) -> (r: Self)
        ensures
            r == self,
    {
        SendableState {
            on: self.on,
            bri: self.bri,
            hue: self.hue,
            sat: self.sat,
            effect: clone_opt_string(&self.effect),
            xy: self.xy,
            alert: clone_opt_string(&self.alert),
            transitiontime: self.transitiontime,
            colormode: clone_opt_string(&self.colormode),
        }
    }
}

impl Default for SendableState {
    /// The empty command with the deliberate default transition time of 1.
    /// This default is injected by the constructor, not by the device.
    fn default() -> (r: Self)
        ensures
            r.on is None,
            r.bri is None,
            r.hue is None,
            r.sat is None,
            r.effect is None,
            r.xy is None,
            r.alert is None,
            r.transitiontime == Some(1u8),
            r.colormode is None,
    {
        SendableState {
            on: None,
            bri: None,
            hue: None,
            sat: None,
            effect: None,
            xy: None,
            alert: None,
            transitiontime: Some(1),
            colormode: None,
        }
    }
}

impl SendableState {
    /// The payload that changes nothing at all.
    pub fn none() -> (r: Self)
        ensures
            r.on is None,
            r.bri is None,
            r.hue is None,
            r.sat is None,
            r.effect is None,
            r.xy is None,
            r.alert is None,
            r.transitiontime is None,
            r.colormode is None,
    {
        SendableState {
            on: None,
            bri: None,
            hue: None,
            sat: None,
            effect: None,
            xy: None,
            alert: None,
            transitiontime: None,
            colormode: None,
        }
    }
}

impl From<State> for SendableState {
    /// A command that reproduces a device state: its power flag and color
    /// attributes, the deliberate default transition time, and no alert.
    fn from(state: State) -> (r: Self)
        ensures
            r == from_state(state),
    {
        SendableState {
            on: Some(state.on),
            bri: state.bri,
            hue: state.hue,
            sat: state.sat,
            effect: state.effect,
            xy: state.xy,
            alert: None,
            transitiontime: Some(1),
            colormode: state.colormode,
        }
    }
}

/// What converting a device state to a command yields.
pub open spec fn from_state(state: State) -> SendableState {
    SendableState {
        on: Some(state.on),
        bri: state.bri,
        hue: state.hue,
        sat: state.sat,
        effect: state.effect,
        xy: state.xy,
        alert: None,
        transitiontime: Some(1u8),
        colormode: state.colormode,
    }
}

impl vstd::std_specs::convert::FromSpecImpl<State> for SendableState {
    open spec fn obeys_from_spec() -> bool {
        true
    }

    open spec fn from_spec(state: State) -> SendableState {
        from_state(state)
    }
}

/// Text that may sit inside a JSON string with no escaping: printable and
/// free of quotes and backslashes.
pub open spec fn plain_text(s: Seq<char>) -> bool {
    forall|i: int| 0 <= i < s.len() ==> 32 <= (#[trigger] s[i]) as u32 && s[i] != '"' && s[i]
        != '\\'
}

impl SendableState {
    /// The string attributes can be written to the wire without escaping.
    pub open spec fn wf(&self) -> bool {
        &&& (self.effect matches Some(e) ==> plain_text(e@))
        &&& (self.alert matches Some(a) ==> plain_text(a@))
        &&& (self.colormode matches Some(c) ==> plain_text(c@))
    }
}

/// A fraction in millionths as canonical text: the integer part, a point,
/// and exactly six fraction digits.
pub open spec fn fixed6(v: nat) -> Seq<char> {
    dec_seq(v / 1000000) + "."@ + padded(v % 1000000, 6)
}

/// The wire text of each present attribute.
pub open spec fn on_chunk(b: bool) -> Seq<char> {
    "\"on\":"@ + bool_text(b)
}

pub open spec fn bri_chunk(v: u8) -> Seq<char> {
    "\"bri\":"@ + dec_seq(v as nat)
}

pub open spec fn hue_chunk(v: u16) -> Seq<char> {
    "\"hue\":"@ + dec_seq(v as nat)
}

pub open spec fn sat_chunk(v: u8) -> Seq<char> {
    "\"sat\":"@ + dec_seq(v as nat)
}

pub open spec fn effect_chunk(s: Seq<char>) -> Seq<char> {
    "\"effect\":\""@ + s + "\""@
}

pub open spec fn xy_chunk(xy: Xy) -> Seq<char> {
    "\"xy\":["@ + fixed6(xy.x_micro as nat) + ","@ + fixed6(xy.y_micro as nat) + "]"@
}

pub open spec fn alert_chunk(s: Seq<char>) -> Seq<char> {
    "\"alert\":\""@ + s + "\""@
}

pub open spec fn transitiontime_chunk(v: u8) -> Seq<char> {
    "\"transitiontime\":"@ + dec_seq(v as nat)
}

pub open spec fn colormode_chunk(s: Seq<char>) -> Seq<char> {
    "\"colormode\":\""@ + s + "\""@
}

/// The chunk list extended by one more attribute when it is present.
pub open spec fn opt_push(cs: Seq<Seq<char>>, present: bool, c: Seq<char>) -> Seq<Seq<char>> {
    if present {
        cs.push(c)
    } else {
        cs
    }
}

/// The present attribute chunks of a payload, in the one canonical order.
pub open spec fn chunks(p: SendableState) -> Seq<Seq<char>> {
    let c0 = Seq::<Seq<char>>::empty();
    let c1 = opt_push(c0, p.on is Some, on_chunk(p.on->0));
    let c2 = opt_push(c1, p.bri is Some, bri_chunk(p.bri->0));
    let c3 = opt_push(c2, p.hue is Some, hue_chunk(p.hue->0));
    let c4 = opt_push(c3, p.sat is Some, sat_chunk(p.sat->0));
    let c5 = opt_push(c4, p.effect is Some, effect_chunk(p.effect->0@));
    let c6 = opt_push(c5, p.xy is Some, xy_chunk(p.xy->0));
    let c7 = opt_push(c6, p.alert is Some, alert_chunk(p.alert->0@));
    let c8 = opt_push(c7, p.transitiontime is Some, transitiontime_chunk(p.transitiontime->0));
    opt_push(c8, p.colormode is Some, colormode_chunk(p.colormode->0@))
}

/// Chunks joined with commas.
pub open spec fn join_chunks(cs: Seq<Seq<char>>) -> Seq<char>
    decreases cs.len(),
{
    if cs.len() == 0 {
        Seq::<char>::empty()
    } else if cs.len() == 1 {
        cs[0]
    } else {
        join_chunks(cs.drop_last()) + ","@ + cs.last()
    }
}

/// The canonical wire text of a payload.
pub open spec fn render_payload(p: SendableState) -> Seq<char> {
    "{"@ + join_chunks(chunks(p)) + "}"@
}

/// Appending one more chunk appends a comma first exactly when chunks came
/// before it.
pub proof fn lemma_join_push(cs: Seq<Seq<char>>, c: Seq<char>)
    ensures
        join_chunks(cs.push(c)) == if cs.len() == 0 {
            c
        } else {
            join_chunks(cs) + ","@ + c
        },
{
    let w = cs.push(c);
    assert(w.drop_last() =~= cs);
    assert(w.last() == c);
    if cs.len() == 0 {
        assert(w.len() == 1);
        assert(w[0] == c);
    }
}

/// Appends the canonical text of a fraction in millionths.
fn push_fixed6(out: &mut String, v: u32)
    ensures
        final(out)@ == old(out)@ + fixed6(v as nat),
{
    push_dec_u32(out, v / 1000000);
    out.append(".");
    push_padded(out, v % 1000000, 6);
}


/// The texts of a string list.
pub open spec fn views(ss: Seq<String>) -> Seq<Seq<char>> {
    ss.map_values(|x: String| x@)
}

/// One more string keeps the text list in step.
pub proof fn lemma_views_push(ss: Seq<String>, x: String)
    ensures
        views(ss.push(x)) == views(ss).push(x@),
{
    assert(views(ss.push(x))[ss.len() as int] == x@);
    assert(views(ss.push(x)) =~= views(ss).push(x@));
}

/// The wire text of the power attribute.
fn on_text(b: bool) -> (r: String)
    ensures
        r@ == on_chunk(b),
{
    let mut r = String::from_str("\"on\":");
    if b {
        r.append("true");
    } else {
        r.append("false");
    }
    r
}

/// The wire text of one numeric attribute, from its key-and-colon literal.
fn num_text(key: &str, v: u32) -> (r: String)
    ensures
        r@ == key@ + dec_seq(v as nat),
{
    let mut r = String::from_str(key);
    push_dec_u32(&mut r, v);
    r
}

/// The wire text of one string attribute, from its literal up to the opening
/// quote.
fn str_text(key: &str, v: &str) -> (r: String)
    ensures
        r@ == key@ + v@ + "\""@,
{
    let mut r = String::from_str(key);
    r.append(v);
    r.append("\"");
    r
}

/// The wire text of the chromaticity attribute.
fn xy_text(xy: &Xy) -> (r: String)
    ensures
        r@ == xy_chunk(*xy),
{
    let mut r = String::from_str("\"xy\":[");
    push_fixed6(&mut r, xy.x_micro);
    r.append(",");
    push_fixed6(&mut r, xy.y_micro);
    r.append("]");
    r
}

impl SendableState {
    /// Writes the payload as its canonical wire text: exactly the present
    /// attributes, in canonical order, absent ones omitted entirely.
    /// The wire texts of the present attributes, in canonical order.
    fn chunk_items(&self) -> (items: Vec<String>)
        ensures
            views(items@) == chunks(*self),
    {
        let mut items: Vec<String> = Vec::new();
        proof {
            assert(views(items@) =~= Seq::<Seq<char>>::empty());
        }
        match &self.on {
            Some(v) => {
                let t = on_text(*v);
                proof {
                    lemma_views_push(items@, t);
                }
                items.push(t);
            },
            None => {},
        }
        proof {
            assert(views(items@) == opt_push(Seq::<Seq<char>>::empty(), self.on is Some, on_chunk(self.on->0)));
        }
        match &self.bri {
            Some(v) => {
                let t = num_text("\"bri\":", *v as u32);
                proof {
                    lemma_views_push(items@, t);
                }
                items.push(t);
            },
            None => {},
        }
        proof {
            assert(views(items@) == opt_push(opt_push(Seq::<Seq<char>>::empty(), self.on is Some, on_chunk(self.on->0)), self.bri is Some, bri_chunk(self.bri->0)));
        }
        match &self.hue {
            Some(v) => {
                let t = num_text("\"hue\":", *v as u32);
                proof {
                    lemma_views_push(items@, t);
                }
                items.push(t);
            },
            None => {},
        }
        proof {
            assert(views(items@) == opt_push(opt_push(opt_push(Seq::<Seq<char>>::empty(), self.on is Some, on_chunk(self.on->0)), self.bri is Some, bri_chunk(self.bri->0)), self.hue is Some, hue_chunk(self.hue->0)));
        }
        match &self.sat {
            Some(v) => {
                let t = num_text("\"sat\":", *v as u32);
                proof {
                    lemma_views_push(items@, t);
                }
                items.push(t);
            },
            None => {},
        }
        proof {
            assert(views(items@) == opt_push(opt_push(opt_push(opt_push(Seq::<Seq<char>>::empty(), self.on is Some, on_chunk(self.on->0)), self.bri is Some, bri_chunk(self.bri->0)), self.hue is Some, hue_chunk(self.hue->0)), self.sat is Some, sat_chunk(self.sat->0)));
        }
        match &self.effect {
            Some(v) => {
                let t = str_text("\"effect\":\"", v.as_str());
                proof {
                    lemma_views_push(items@, t);
                }
                items.push(t);
            },
            None => {},
        }
        proof {
            assert(views(items@) == opt_push(opt_push(opt_push(opt_push(opt_push(Seq::<Seq<char>>::empty(), self.on is Some, on_chunk(self.on->0)), self.bri is Some, bri_chunk(self.bri->0)), self.hue is Some, hue_chunk(self.hue->0)), self.sat is Some, sat_chunk(self.sat->0)), self.effect is Some, effect_chunk(self.effect->0@)));
        }
        match &self.xy {
            Some(v) => {
                let t = xy_text(v);
                proof {
                    lemma_views_push(items@, t);
                }
                items.push(t);
            },
            None => {},
        }
        proof {
            assert(views(items@) == opt_push(opt_push(opt_push(opt_push(opt_push(opt_push(Seq::<Seq<char>>::empty(), self.on is Some, on_chunk(self.on->0)), self.bri is Some, bri_chunk(self.bri->0)), self.hue is Some, hue_chunk(self.hue->0)), self.sat is Some, sat_chunk(self.sat->0)), self.effect is Some, effect_chunk(self.effect->0@)), self.xy is Some, xy_chunk(self.xy->0)));
        }
        match &self.alert {
            Some(v) => {
                let t = str_text("\"alert\":\"", v.as_str());
                proof {
                    lemma_views_push(items@, t);
                }
                items.push(t);
            },
            None => {},
        }
        proof {
            assert(views(items@) == opt_push(opt_push(opt_push(opt_push(opt_push(opt_push(opt_push(Seq::<Seq<char>>::empty(), self.on is Some, on_chunk(self.on->0)), self.bri is Some, bri_chunk(self.bri->0)), self.hue is Some, hue_chunk(self.hue->0)), self.sat is Some, sat_chunk(self.sat->0)), self.effect is Some, effect_chunk(self.effect->0@)), self.xy is Some, xy_chunk(self.xy->0)), self.alert is Some, alert_chunk(self.alert->0@)));
        }
        match &self.transitiontime {
            Some(v) => {
                let t = num_text("\"transitiontime\":", *v as u32);
                proof {
                    lemma_views_push(items@, t);
                }
                items.push(t);
            },
            None => {},
        }
        proof {
            assert(views(items@) == opt_push(opt_push(opt_push(opt_push(opt_push(opt_push(opt_push(opt_push(Seq::<Seq<char>>::empty(), self.on is Some, on_chunk(self.on->0)), self.bri is Some, bri_chunk(self.bri->0)), self.hue is Some, hue_chunk(self.hue->0)), self.sat is Some, sat_chunk(self.sat->0)), self.effect is Some, effect_chunk(self.effect->0@)), self.xy is Some, xy_chunk(self.xy->0)), self.alert is Some, alert_chunk(self.alert->0@)), self.transitiontime is Some, transitiontime_chunk(self.transitiontime->0)));
        }
        match &self.colormode {
            Some(v) => {
                let t = str_text("\"colormode\":\"", v.as_str());
                proof {
                    lemma_views_push(items@, t);
                }
                items.push(t);
            },
            None => {},
        }
        proof {
            assert(views(items@) == opt_push(opt_push(opt_push(opt_push(opt_push(opt_push(opt_push(opt_push(opt_push(Seq::<Seq<char>>::empty(), self.on is Some, on_chunk(self.on->0)), self.bri is Some, bri_chunk(self.bri->0)), self.hue is Some, hue_chunk(self.hue->0)), self.sat is Some, sat_chunk(self.sat->0)), self.effect is Some, effect_chunk(self.effect->0@)), self.xy is Some, xy_chunk(self.xy->0)), self.alert is Some, alert_chunk(self.alert->0@)), self.transitiontime is Some, transitiontime_chunk(self.transitiontime->0)), self.colormode is Some, colormode_chunk(self.colormode->0@)));
        }
        items
    }

    pub fn to_json(&self) -> (r: String)
        ensures
            r@ == render_payload(*self),
    {
        let items = self.chunk_items();
        let ghost cs = views(items@);
        let mut body = String::new();
        let mut k: usize = 0;
        proof {
            assert(body@ =~= join_chunks(cs.take(0)));
        }
        while k < items.len()
            invariant
                cs == views(items@),
                cs.len() == items@.len(),
                k <= items@.len(),
                body@ == join_chunks(cs.take(k as int)),
            decreases items@.len() - k,
        {
            if k > 0 {
                body.append(",");
            }
            body.append(items[k].as_str());
            proof {
                assert(cs[k as int] == items@[k as int]@);
                lemma_join_push(cs.take(k as int), cs[k as int]);
                assert(cs.take(k as int).push(cs[k as int]) =~= cs.take(k + 1));
                if k == 0 {
                    assert(body@ =~= join_chunks(cs.take(k + 1)));
                }
            }
            k = k + 1;
        }
        proof {
            assert(cs.take(cs.len() as int) =~= cs);
            assert(cs == chunks(*self));
        }
        let mut out = String::from_str("{");
        out.append(body.as_str());
        out.append("}");
        out
    }
}

/// Reads the plain content of a JSON string up to its closing quote,
/// rejecting anything that rendering could not have written there.
fn scan_plain_string(s: &str, n: usize, pos: usize) -> (r: Option<(String, usize)>)
    requires
        n == s@.len(),
        pos <= n,
    ensures
        r matches Some((t, end)) ==> {
            &&& pos < end <= n
            &&& plain_text(t@)
            &&& t@ == s@.subrange(pos as int, end - 1)
            &&& s@[end - 1] == '"'
            &&& (forall|w: int| pos <= w < end - 1 ==> s@[w] != '"')
        },
        r is None ==> (forall|e: int|
            pos <= e < s@.len() && s@[e] == '"' ==> exists|w: int|
                pos <= w < e && ((s@[w] as u32) < 32 || #[trigger] s@[w] == '\\')),
{
    let mut i: usize = pos;
    while i < n
        invariant
            n == s@.len(),
            pos <= i <= n,
            forall|k: int|
                pos <= k < i ==> 32 <= (#[trigger] s@[k]) as u32 && s@[k] != '"' && s@[k] != '\\',
        decreases n - i,
    {
        let c = s.get_char(i);
        if c == '"' {
            let content = s.substring_char(pos, i).to_owned();
            proof {
                assert(plain_text(content@));
                assert forall|w: int| pos <= w < i implies s@[w] != '"' by {
                    assert(content@[w - pos] == s@[w]);
                }
            }
            return Some((content, i + 1));
        }
        if (c as u32) < 32 || c == '\\' {
            proof {
                assert forall|e: int|
                    pos <= e < s@.len() && s@[e] == '"' implies exists|w: int|
                        pos <= w < e && ((s@[w] as u32) < 32 || #[trigger] s@[w]
                            == '\\') by {
                    assert(e > i);
                    assert(pos <= i < e && ((s@[i as int] as u32) < 32 || s@[i as int] == '\\'));
                }
            }
            return None;
        }
        i = i + 1;
    }
    None
}

/// The canonical text of the fraction `u` in millionths sits at `pos`.
pub open spec fn fixed6_at(s: Seq<char>, pos: int, u: u32) -> bool {
    &&& 0 <= pos
    &&& pos + fixed6(u as nat).len() <= s.len()
    &&& s.subrange(pos, pos + fixed6(u as nat).len() as int) == fixed6(u as nat)
}

/// A fraction text determines where its point sits and what its parts are.
proof fn lemma_fixed6_at_parts(s: Seq<char>, pos: int, u: u32)
    requires
        fixed6_at(s, pos, u),
    ensures
        dec_at(s, pos, (u as nat) / 1000000),
        ({
            let dl = dec_seq((u as nat) / 1000000).len() as int;
            &&& s[pos + dl] == '.'
            &&& pos + dl + 7 == pos + fixed6(u as nat).len()
            &&& pos + dl + 7 <= s.len()
            &&& s.subrange(pos + dl + 1, pos + dl + 7) == padded((u as nat) % 1000000, 6)
            &&& (forall|w: int|
                0 <= w < 6 ==> s[pos + dl + 1 + w] == #[trigger] padded(
                    (u as nat) % 1000000,
                    6,
                )[w])
        }),
{
    reveal_strlit(".");
    crate::digits::lemma_dec_seq_props((u as nat) / 1000000);
    crate::digits::lemma_padded_props((u as nat) % 1000000, 6);
    let d = dec_seq((u as nat) / 1000000);
    let f = padded((u as nat) % 1000000, 6);
    let fx = fixed6(u as nat);
    assert("."@ =~= seq!['.']);
    assert(fx =~= d + (seq!['.'] + f));
    let tail = s.skip(pos + fx.len() as int);
    assert(s.skip(pos) =~= fx + tail) by {
        assert forall|i: int|
            0 <= i < s.skip(pos).len() implies s.skip(pos)[i] == (fx + tail)[i] by {
            assert(s.skip(pos)[i] == s[i + pos]);
            if i < fx.len() {
                assert(s.subrange(pos, pos + fx.len() as int)[i] == s[i + pos]);
            } else {
                assert(tail[i - fx.len()] == s[i - fx.len() + (pos + fx.len())]);
            }
        }
    }
    assert(s.skip(pos) == d + ((seq!['.'] + f) + tail)) by {
        assert(fx + tail =~= d + ((seq!['.'] + f) + tail));
    }
    crate::text::lemma_skip_split(s, pos, d, (seq!['.'] + f) + tail);
    let dl = d.len() as int;
    let b = (seq!['.'] + f) + tail;
    assert(s[pos + dl] == b[0]);
    assert(b[0] == '.');
    assert forall|w: int|
        0 <= w < 6 implies s[pos + dl + 1 + w] == #[trigger] padded(
        (u as nat) % 1000000,
        6,
    )[w] by {
        assert(s[pos + dl + (1 + w)] == b[1 + w]);
        assert(b[1 + w] == (seq!['.'] + f)[1 + w]);
        assert((seq!['.'] + f)[1 + w] == f[w]);
    }
    assert(s.subrange(pos + dl + 1, pos + dl + 7) =~= f);
    assert(!is_digit_char('.'));
    assert(dec_at(s, pos, (u as nat) / 1000000));
}

/// Reads the canonical text of a fraction in millionths: exactly the fraction
/// whose text sits at `pos`, if any 32-bit one does.
fn parse_fixed6(s: &str, n: usize, pos: usize) -> (r: Option<(u32, usize)>)
    requires
        n == s@.len(),
        pos <= n,
    ensures
        r matches Some((v, end)) ==> {
            &&& pos < end <= n
            &&& fixed6_at(s@, pos as int, v)
            &&& end == pos + fixed6(v as nat).len()
            &&& (forall|u: u32| fixed6_at(s@, pos as int, u) ==> u == v)
        },
        r is None ==> (forall|u: u32| !fixed6_at(s@, pos as int, u)),
{
    proof {
        crate::digits::lemma_pow10_le9(6);
    }
    let (ip, e1) = match parse_dec(s, n, pos, 4294) {
        Some(x) => x,
        None => {
            proof {
                assert forall|u: u32| !fixed6_at(s@, pos as int, u) by {
                    if fixed6_at(s@, pos as int, u) {
                        lemma_fixed6_at_parts(s@, pos as int, u);
                        assert((u as nat) / 1000000 <= 4294);
                    }
                }
            }
            return None;
        },
    };
    if e1 >= n || s.get_char(e1) != '.' {
        proof {
            assert forall|u: u32| !fixed6_at(s@, pos as int, u) by {
                if fixed6_at(s@, pos as int, u) {
                    lemma_fixed6_at_parts(s@, pos as int, u);
                    crate::digits::lemma_dec_at_unique(s@, pos as int, ip as nat,
                        (u as nat) / 1000000);
                }
            }
        }
        return None;
    }
    let (fr, e2) = match parse_padded(s, n, e1 + 1, 6) {
        Some(x) => x,
        None => {
            proof {
                assert forall|u: u32| !fixed6_at(s@, pos as int, u) by {
                    if fixed6_at(s@, pos as int, u) {
                        lemma_fixed6_at_parts(s@, pos as int, u);
                        crate::digits::lemma_dec_at_unique(s@, pos as int, ip as nat,
                            (u as nat) / 1000000);
                        crate::digits::lemma_dec_seq_props(ip as nat);
                        crate::digits::lemma_padded_props((u as nat) % 1000000, 6);
                        let dl = dec_seq((u as nat) / 1000000).len() as int;
                        assert(e1 == pos + dl);
                        assert(e1 + 1 + 6 <= n);
                        assert forall|k: int|
                            e1 + 1 <= k < e1 + 1 + 6 implies is_digit_char(s@[k]) by {
                            let w = k - e1 - 1;
                            assert(s@[pos + dl + 1 + w] == padded((u as nat) % 1000000, 6)[w]);
                        }
                    }
                }
            }
            return None;
        },
    };
    let v: u64 = ip * 1000000 + fr;
    proof {
        assert forall|u: u32| fixed6_at(s@, pos as int, u) implies u as u64 == v by {
            lemma_fixed6_at_parts(s@, pos as int, u);
            crate::digits::lemma_dec_at_unique(s@, pos as int, ip as nat, (u as nat) / 1000000);
            crate::digits::lemma_dec_seq_props(ip as nat);
            crate::digits::lemma_padded_props((u as nat) % 1000000, 6);
            crate::digits::lemma_padded_props(fr as nat, 6);
            let dl = dec_seq((u as nat) / 1000000).len() as int;
            assert(e1 == pos + dl);
            assert(s@.subrange(e1 + 1, e1 + 7) == padded((u as nat) % 1000000, 6));
            assert(s@.subrange(e1 + 1, e2 as int) == padded(fr as nat, 6));
            assert(crate::digits::seq_val(padded(fr as nat, 6)) == crate::digits::seq_val(
                padded((u as nat) % 1000000, 6)));
            assert(fr as nat % pow10(6) == fr as nat);
            assert((u as nat) % 1000000 % pow10(6) == (u as nat) % 1000000);
            assert((u as nat) / 1000000 * 1000000 + (u as nat) % 1000000 == u as nat)
                by (nonlinear_arith);
        }
    }
    if v > 0xFFFF_FFFF {
        proof {
            assert forall|u: u32| !fixed6_at(s@, pos as int, u) by {
                if fixed6_at(s@, pos as int, u) {
                    assert(u as u64 == v);
                }
            }
        }
        return None;
    }
    proof {
        assert((v as nat) / 1000000 == ip as nat && (v as nat) % 1000000 == fr as nat)
            by (nonlinear_arith)
            requires
                v == ip * 1000000 + fr,
                fr < 1000000,
                ip <= 4294,
        ;
        crate::digits::lemma_padded_props(fr as nat, 6);
        reveal_strlit(".");
        assert(fixed6(v as nat).len() == dec_seq(ip as nat).len() + 1 + 6);
        assert(e2 == pos + fixed6(v as nat).len());
        assert(fixed6_at(s@, pos as int, v as u32)) by {
            reveal_strlit(".");
            assert("."@ =~= seq!['.']);
            assert((v as nat) / 1000000 == ip as nat && (v as nat) % 1000000 == fr as nat)
                by (nonlinear_arith)
                requires
                    v == ip * 1000000 + fr,
                    fr < 1000000,
                    ip <= 4294,
            ;
            assert(s@.subrange(pos as int, e1 as int) == dec_seq(ip as nat));
            assert(s@.subrange(e1 + 1, e2 as int) == padded(fr as nat, 6));
            assert(s@.subrange(pos as int, e2 as int) =~= dec_seq(ip as nat) + seq!['.']
                + padded(fr as nat, 6)) by {
                assert(forall|i: int|
                    pos <= i < e1 ==> #[trigger] s@[i] == dec_seq(ip as nat)[i - pos]);
                assert(forall|i: int|
                    e1 + 1 <= i < e2 ==> #[trigger] s@[i] == padded(fr as nat, 6)[i - e1 - 1]);
            }
            assert(fixed6(v as nat) =~= dec_seq(ip as nat) + seq!['.'] + padded(fr as nat, 6));
        }
    }
    Some((v as u32, e2))
}

/// Reads a payload from its canonical wire text.
///
/// Accepts exactly the texts the writer produces: it succeeds precisely on
/// the canonical rendering of some well-formed payload, and then returns the
/// payload whose rendering is the input, byte for byte. Anything else - other
/// key orders, whitespace, nulls, unknown attributes, non-canonical numbers -
/// is a decode error.
#[verifier::rlimit(100)]
#[verifier::spinoff_prover]
pub fn from_json(s: &str) -> (r: Result<SendableState, DecodeError>)
    ensures
        r matches Ok(p) ==> p.wf() && s@ == render_payload(p),
        (r is Ok) <==> (exists|q: SendableState| q.wf() && s@ == #[trigger] render_payload(q)),
        r is Err ==> r.unwrap_err() == DecodeError::Malformed,
{
    let ghost m = exists|q: SendableState| q.wf() && s@ == #[trigger] render_payload(q);
    let ghost q0 = choose|q: SendableState| q.wf() && s@ == #[trigger] render_payload(q);
    proof {
        reveal_strlit("{");
        reveal_strlit("}");
        if m {
            lemma_chunks_from_zero(q0);
            lemma_join_rest(chunks_from(q0, 0));
            assert(s@ == "{"@ + (join_chunks(chunks(q0)) + "}"@)) by {
                assert(("{"@ + join_chunks(chunks(q0))) + "}"@ =~= "{"@ + (join_chunks(
                    chunks(q0),
                ) + "}"@));
            }
            assert(s@.skip(0) =~= s@);
            crate::text::lemma_skip_split(s@, 0, "{"@, join_chunks(chunks(q0)) + "}"@);
        }
    }
    let n = s.unicode_len();
    if n < 2 {
        proof {
            if m {
                lemma_rest_len(chunks_from(q0, 0), true);
                assert(false);
            }
        }
        return Err(DecodeError::Malformed);
    }
    if s.get_char(0) != '{' {
        proof {
            if m {
                assert(s@[0] == '{');
                assert(false);
            }
        }
        return Err(DecodeError::Malformed);
    }
    let mut p = SendableState::none();
    let mut pos: usize = 1;
    let mut first: bool = true;
    let ghost mut k: int = 0;
    while pos < n && s.get_char(pos) != '}'
        invariant
            n == s@.len(),
            1 <= pos <= n,
            p.wf(),
            m == (exists|q: SendableState| q.wf() && s@ == #[trigger] render_payload(q)),
            m ==> q0.wf() && s@ == render_payload(q0),
            m ==> 0 <= k <= 9,
            m ==> agrees_below(p, q0, k),
            m ==> none_from(p, k),
            m ==> s@.skip(pos as int) == rest_render(chunks_from(q0, k), first),
        decreases n - pos,
    {
        proof {
            if m {
                lemma_step_setup(s@, pos as int, q0, k, first);
            }
        }
        let ghost j: int = first_present(q0, k);
        let ghost tail: Seq<Seq<char>> = chunks_from(q0, j + 1);
        if !first {
            if s.get_char(pos) != ',' {
                proof {
                    if m {
                        assert(false);
                    }
                }
                return Err(DecodeError::Malformed);
            }
            pos = pos + 1;
        }
        if match_at(s, n, pos, "\"on\":") {
            proof {
                reveal_strlit("\"on\":");
                if m {
                    lemma_rank_is(s@, pos as int, q0, j, 0, tail);
                }
            }
            pos = pos + 5;
            if match_at(s, n, pos, "true") {
                proof {
                    reveal_strlit("true");
                    if m {
                        lemma_value_bool(s@, pos as int, q0.on->0, tail);
                        if !(q0.on->0) {
                            lemma_occurs_first(s@, pos as int, "true"@);
                            assert(false);
                        }
                        k = 1int;
                    }
                }
                p.on = Some(true);
                pos = pos + 4;
            } else if match_at(s, n, pos, "false") {
                proof {
                    reveal_strlit("false");
                    if m {
                        lemma_value_bool(s@, pos as int, q0.on->0, tail);
                        if q0.on->0 {
                            lemma_occurs_first(s@, pos as int, "false"@);
                            assert(false);
                        }
                        k = 1int;
                    }
                }
                p.on = Some(false);
                pos = pos + 5;
            } else {
                proof {
                    if m {
                        lemma_value_bool(s@, pos as int, q0.on->0, tail);
                        assert(false);
                    }
                }
                return Err(DecodeError::Malformed);
            }
        } else if match_at(s, n, pos, "\"bri\":") {
            proof {
                reveal_strlit("\"bri\":");
                if m {
                    lemma_rank_is(s@, pos as int, q0, j, 1, tail);
                }
            }
            pos = pos + 6;
            match parse_dec(s, n, pos, 255) {
                Some((v, end)) => {
                    proof {
                        if m {
                            lemma_value_num(s@, pos as int, q0.bri->0 as nat, tail);
                            crate::digits::lemma_dec_at_unique(
                                s@,
                                pos as int,
                                v as nat,
                                q0.bri->0 as nat,
                            );
                            k = 2int;
                        }
                    }
                    p.bri = Some(v as u8);
                    pos = end;
                },
                None => {
                    proof {
                        if m {
                            lemma_value_num(s@, pos as int, q0.bri->0 as nat, tail);
                            assert(false);
                        }
                    }
                    return Err(DecodeError::Malformed);
                },
            }
        } else if match_at(s, n, pos, "\"hue\":") {
            proof {
                reveal_strlit("\"hue\":");
                if m {
                    lemma_rank_is(s@, pos as int, q0, j, 2, tail);
                }
            }
            pos = pos + 6;
            match parse_dec(s, n, pos, 65535) {
                Some((v, end)) => {
                    proof {
                        if m {
                            lemma_value_num(s@, pos as int, q0.hue->0 as nat, tail);
                            crate::digits::lemma_dec_at_unique(
                                s@,
                                pos as int,
                                v as nat,
                                q0.hue->0 as nat,
                            );
                            k = 3int;
                        }
                    }
                    p.hue = Some(v as u16);
                    pos = end;
                },
                None => {
                    proof {
                        if m {
                            lemma_value_num(s@, pos as int, q0.hue->0 as nat, tail);
                            assert(false);
                        }
                    }
                    return Err(DecodeError::Malformed);
                },
            }
        } else if match_at(s, n, pos, "\"sat\":") {
            proof {
                reveal_strlit("\"sat\":");
                if m {
                    lemma_rank_is(s@, pos as int, q0, j, 3, tail);
                }
            }
            pos = pos + 6;
            match parse_dec(s, n, pos, 255) {
                Some((v, end)) => {
                    proof {
                        if m {
                            lemma_value_num(s@, pos as int, q0.sat->0 as nat, tail);
                            crate::digits::lemma_dec_at_unique(
                                s@,
                                pos as int,
                                v as nat,
                                q0.sat->0 as nat,
                            );
                            k = 4int;
                        }
                    }
                    p.sat = Some(v as u8);
                    pos = end;
                },
                None => {
                    proof {
                        if m {
                            lemma_value_num(s@, pos as int, q0.sat->0 as nat, tail);
                            assert(false);
                        }
                    }
                    return Err(DecodeError::Malformed);
                },
            }
        } else if match_at(s, n, pos, "\"effect\":\"") {
            proof {
                reveal_strlit("\"effect\":\"");
                if m {
                    lemma_rank_is(s@, pos as int, q0, j, 4, tail);
                }
            }
            pos = pos + 10;
            match scan_plain_string(s, n, pos) {
                Some((t, end)) => {
                    proof {
                        if m {
                            lemma_value_str(s@, pos as int, q0.effect->0@, tail);
                            let vl = q0.effect->0@.len() as int;
                            assert(end - 1 == pos + vl) by {
                                if end - 1 < pos + vl {
                                    assert(s@[end - 1] != '"');
                                }
                                if end - 1 > pos + vl {
                                    assert(s@[pos + vl] != '"');
                                }
                            }
                            assert(t@ == q0.effect->0@) by {
                                assert(s@.subrange(pos as int, pos + vl) == q0.effect->0@);
                            }
                            k = 5int;
                        }
                    }
                    p.effect = Some(t);
                    pos = end;
                },
                None => {
                    proof {
                        if m {
                            lemma_value_str(s@, pos as int, q0.effect->0@, tail);
                            let e = pos + q0.effect->0@.len() as int;
                            assert(s@[e] == '"' && pos <= e < s@.len());
                            let w = choose|w: int|
                                pos <= w < e && ((s@[w] as u32) < 32 || #[trigger] s@[w] == '\\');
                            assert(32 <= (s@[w] as u32) && s@[w] != '\\');
                            assert(false);
                        }
                    }
                    return Err(DecodeError::Malformed);
                },
            }
        } else if match_at(s, n, pos, "\"xy\":[") {
            proof {
                reveal_strlit("\"xy\":[");
                if m {
                    lemma_rank_is(s@, pos as int, q0, j, 5, tail);
                    lemma_value_xy(s@, pos + 6, q0.xy->0, tail);
                }
            }
            pos = pos + 6;
            let x = match parse_fixed6(s, n, pos) {
                Some((v, end)) => {
                    proof {
                        if m {
                            assert(fixed6_at(s@, pos as int, q0.xy->0.x_micro));
                            assert(v == q0.xy->0.x_micro);
                        }
                    }
                    pos = end;
                    v
                },
                None => {
                    proof {
                        if m {
                            assert(fixed6_at(s@, pos as int, q0.xy->0.x_micro));
                            assert(false);
                        }
                    }
                    return Err(DecodeError::Malformed);
                },
            };
            if pos >= n || s.get_char(pos) != ',' {
                proof {
                    if m {
                        assert(false);
                    }
                }
                return Err(DecodeError::Malformed);
            }
            pos = pos + 1;
            let y = match parse_fixed6(s, n, pos) {
                Some((v, end)) => {
                    proof {
                        if m {
                            assert(fixed6_at(s@, pos as int, q0.xy->0.y_micro));
                            assert(v == q0.xy->0.y_micro);
                        }
                    }
                    pos = end;
                    v
                },
                None => {
                    proof {
                        if m {
                            assert(fixed6_at(s@, pos as int, q0.xy->0.y_micro));
                            assert(false);
                        }
                    }
                    return Err(DecodeError::Malformed);
                },
            };
            if pos >= n || s.get_char(pos) != ']' {
                proof {
                    if m {
                        assert(false);
                    }
                }
                return Err(DecodeError::Malformed);
            }
            proof {
                if m {
                    assert(Xy { x_micro: x, y_micro: y } == q0.xy->0);
                    k = 6int;
                }
            }
            pos = pos + 1;
            p.xy = Some(Xy { x_micro: x, y_micro: y });
        } else if match_at(s, n, pos, "\"alert\":\"") {
            proof {
                reveal_strlit("\"alert\":\"");
                if m {
                    lemma_rank_is(s@, pos as int, q0, j, 6, tail);
                }
            }
            pos = pos + 9;
            match scan_plain_string(s, n, pos) {
                Some((t, end)) => {
                    proof {
                        if m {
                            lemma_value_str(s@, pos as int, q0.alert->0@, tail);
                            let vl = q0.alert->0@.len() as int;
                            assert(end - 1 == pos + vl) by {
                                if end - 1 < pos + vl {
                                    assert(s@[end - 1] != '"');
                                }
                                if end - 1 > pos + vl {
                                    assert(s@[pos + vl] != '"');
                                }
                            }
                            assert(t@ == q0.alert->0@) by {
                                assert(s@.subrange(pos as int, pos + vl) == q0.alert->0@);
                            }
                            k = 7int;
                        }
                    }
                    p.alert = Some(t);
                    pos = end;
                },
                None => {
                    proof {
                        if m {
                            lemma_value_str(s@, pos as int, q0.alert->0@, tail);
                            let e = pos + q0.alert->0@.len() as int;
                            assert(s@[e] == '"' && pos <= e < s@.len());
                            let w = choose|w: int|
                                pos <= w < e && ((s@[w] as u32) < 32 || #[trigger] s@[w] == '\\');
                            assert(32 <= (s@[w] as u32) && s@[w] != '\\');
                            assert(false);
                        }
                    }
                    return Err(DecodeError::Malformed);
                },
            }
        } else if match_at(s, n, pos, "\"transitiontime\":") {
            proof {
                reveal_strlit("\"transitiontime\":");
                if m {
                    lemma_rank_is(s@, pos as int, q0, j, 7, tail);
                }
            }
            pos = pos + 17;
            match parse_dec(s, n, pos, 255) {
                Some((v, end)) => {
                    proof {
                        if m {
                            lemma_value_num(s@, pos as int, q0.transitiontime->0 as nat, tail);
                            crate::digits::lemma_dec_at_unique(
                                s@,
                                pos as int,
                                v as nat,
                                q0.transitiontime->0 as nat,
                            );
                            k = 8int;
                        }
                    }
                    p.transitiontime = Some(v as u8);
                    pos = end;
                },
                None => {
                    proof {
                        if m {
                            lemma_value_num(s@, pos as int, q0.transitiontime->0 as nat, tail);
                            assert(false);
                        }
                    }
                    return Err(DecodeError::Malformed);
                },
            }
        } else if match_at(s, n, pos, "\"colormode\":\"") {
            proof {
                reveal_strlit("\"colormode\":\"");
                if m {
                    lemma_rank_is(s@, pos as int, q0, j, 8, tail);
                }
            }
            pos = pos + 13;
            match scan_plain_string(s, n, pos) {
                Some((t, end)) => {
                    proof {
                        if m {
                            lemma_value_str(s@, pos as int, q0.colormode->0@, tail);
                            let vl = q0.colormode->0@.len() as int;
                            assert(end - 1 == pos + vl) by {
                                if end - 1 < pos + vl {
                                    assert(s@[end - 1] != '"');
                                }
                                if end - 1 > pos + vl {
                                    assert(s@[pos + vl] != '"');
                                }
                            }
                            assert(t@ == q0.colormode->0@) by {
                                assert(s@.subrange(pos as int, pos + vl) == q0.colormode->0@);
                            }
                            k = 9int;
                        }
                    }
                    p.colormode = Some(t);
                    pos = end;
                },
                None => {
                    proof {
                        if m {
                            lemma_value_str(s@, pos as int, q0.colormode->0@, tail);
                            let e = pos + q0.colormode->0@.len() as int;
                            assert(s@[e] == '"' && pos <= e < s@.len());
                            let w = choose|w: int|
                                pos <= w < e && ((s@[w] as u32) < 32 || #[trigger] s@[w] == '\\');
                            assert(32 <= (s@[w] as u32) && s@[w] != '\\');
                            assert(false);
                        }
                    }
                    return Err(DecodeError::Malformed);
                },
            }
        }
        else {
            proof {
                if m {
                    lemma_at_chunk(s@, pos as int, q0, j, tail);
                    assert(false);
                }
            }
            return Err(DecodeError::Malformed);
        }
        first = false;
    }
    if pos >= n {
        proof {
            if m {
                lemma_rest_len(chunks_from(q0, k), first);
                assert(s@.skip(pos as int).len() == 0);
                assert(false);
            }
        }
        return Err(DecodeError::Malformed);
    }
    proof {
        reveal_strlit("}");
        if m {
            if chunks_from(q0, k).len() > 0 {
                lemma_first_chunk(q0, k);
                let jj = first_present(q0, k);
                let cs = chunks_from(q0, k);
                if first {
                    lemma_chunk_shape(q0, jj);
                    lemma_key_opens_quote(jj);
                    assert(rest_render(cs, true) == (Seq::<char>::empty() + cs[0]) + rest_render(
                        cs.skip(1),
                        false,
                    ));
                    assert(s@[pos as int] == s@.skip(pos as int)[0]);
                    assert(cs[0] == chunk_of(q0, jj));
                    assert(chunk_of(q0, jj)[0] == key_of(jj)[0]);
                    assert(s@.skip(pos as int)[0] == cs[0][0]);
                    assert(false);
                } else {
                    reveal_strlit(",");
                    assert(rest_render(cs, false) == (","@ + cs[0]) + rest_render(
                        cs.skip(1),
                        false,
                    ));
                    assert(s@[pos as int] == s@.skip(pos as int)[0]);
                    assert(false);
                }
            }
            assert(s@.skip(pos as int) == "}"@);
            assert(s@.len() == pos + 1);
            lemma_empty_tail(q0, k);
            assert(agrees_below(p, q0, 9)) by {
                assert(k <= 0 ==> !has_field(q0, 0));
                assert(k <= 1 ==> !has_field(q0, 1));
                assert(k <= 2 ==> !has_field(q0, 2));
                assert(k <= 3 ==> !has_field(q0, 3));
                assert(k <= 4 ==> !has_field(q0, 4));
                assert(k <= 5 ==> !has_field(q0, 5));
                assert(k <= 6 ==> !has_field(q0, 6));
                assert(k <= 7 ==> !has_field(q0, 7));
                assert(k <= 8 ==> !has_field(q0, 8));
            }
            lemma_render_agrees(p, q0);
        }
    }
    if pos + 1 != n {
        proof {
            if m {
                assert(false);
            }
        }
        return Err(DecodeError::Malformed);
    }
    // the text is accepted only if it is exactly the canonical rendering of
    // what was read
    let rendered = p.to_json();
    let input = String::from_str(s);
    if rendered == input {
        proof {
            assert(p.wf() && s@ == render_payload(p));
            assert(exists|q: SendableState| q.wf() && s@ == #[trigger] render_payload(q)) by {
                assert(p.wf() && s@ == render_payload(p));
            }
        }
        Ok(p)
    } else {
        proof {
            if m {
                assert(rendered@ == render_payload(p));
                assert(false);
            }
        }
        Err(DecodeError::Malformed)
    }
}

} // verus!

verus! {

/// The key text opening the chunk of each attribute rank (0 through 8, in
/// canonical order); string-valued attributes include their opening quote,
/// the chromaticity its opening bracket.
pub open spec fn key_of(k: int) -> Seq<char> {
    if k == 0 {
        "\"on\":"@
    } else if k == 1 {
        "\"bri\":"@
    } else if k == 2 {
        "\"hue\":"@
    } else if k == 3 {
        "\"sat\":"@
    } else if k == 4 {
        "\"effect\":\""@
    } else if k == 5 {
        "\"xy\":["@
    } else if k == 6 {
        "\"alert\":\""@
    } else if k == 7 {
        "\"transitiontime\":"@
    } else {
        "\"colormode\":\""@
    }
}

/// Whether the attribute of rank `k` is present in `q`.
pub open spec fn has_field(q: SendableState, k: int) -> bool {
    if k == 0 {
        q.on is Some
    } else if k == 1 {
        q.bri is Some
    } else if k == 2 {
        q.hue is Some
    } else if k == 3 {
        q.sat is Some
    } else if k == 4 {
        q.effect is Some
    } else if k == 5 {
        q.xy is Some
    } else if k == 6 {
        q.alert is Some
    } else if k == 7 {
        q.transitiontime is Some
    } else if k == 8 {
        q.colormode is Some
    } else {
        false
    }
}

/// The chunk of the attribute of rank `k`.
pub open spec fn chunk_of(q: SendableState, k: int) -> Seq<char> {
    if k == 0 {
        on_chunk(q.on->0)
    } else if k == 1 {
        bri_chunk(q.bri->0)
    } else if k == 2 {
        hue_chunk(q.hue->0)
    } else if k == 3 {
        sat_chunk(q.sat->0)
    } else if k == 4 {
        effect_chunk(q.effect->0@)
    } else if k == 5 {
        xy_chunk(q.xy->0)
    } else if k == 6 {
        alert_chunk(q.alert->0@)
    } else if k == 7 {
        transitiontime_chunk(q.transitiontime->0)
    } else {
        colormode_chunk(q.colormode->0@)
    }
}

/// What follows the key inside the chunk of rank `k`.
pub open spec fn value_of(q: SendableState, k: int) -> Seq<char> {
    if k == 0 {
        bool_text(q.on->0)
    } else if k == 1 {
        dec_seq(q.bri->0 as nat)
    } else if k == 2 {
        dec_seq(q.hue->0 as nat)
    } else if k == 3 {
        dec_seq(q.sat->0 as nat)
    } else if k == 4 {
        q.effect->0@ + "\""@
    } else if k == 5 {
        fixed6(q.xy->0.x_micro as nat) + ","@ + fixed6(q.xy->0.y_micro as nat) + "]"@
    } else if k == 6 {
        q.alert->0@ + "\""@
    } else if k == 7 {
        dec_seq(q.transitiontime->0 as nat)
    } else {
        q.colormode->0@ + "\""@
    }
}

/// Each chunk is its key followed by its value.
pub proof fn lemma_chunk_shape(q: SendableState, k: int)
    requires
        0 <= k < 9,
    ensures
        chunk_of(q, k) == key_of(k) + value_of(q, k),
{
    if k == 4 {
        assert(effect_chunk(q.effect->0@) =~= "\"effect\":\""@ + (q.effect->0@ + "\""@));
    } else if k == 5 {
        assert(xy_chunk(q.xy->0) =~= "\"xy\":["@ + (fixed6(q.xy->0.x_micro as nat) + ","@
            + fixed6(q.xy->0.y_micro as nat) + "]"@));
    } else if k == 6 {
        assert(alert_chunk(q.alert->0@) =~= "\"alert\":\""@ + (q.alert->0@ + "\""@));
    } else if k == 8 {
        assert(colormode_chunk(q.colormode->0@) =~= "\"colormode\":\""@ + (q.colormode->0@
            + "\""@));
    }
}

/// The chunks of the attributes of rank `k` and above, in canonical order.
pub open spec fn chunks_from(q: SendableState, k: int) -> Seq<Seq<char>>
    decreases 9 - k,
{
    if k < 0 || k >= 9 {
        Seq::<Seq<char>>::empty()
    } else if has_field(q, k) {
        seq![chunk_of(q, k)] + chunks_from(q, k + 1)
    } else {
        chunks_from(q, k + 1)
    }
}

/// The rank of the first present attribute at or above `k` (9 when none is).
pub open spec fn first_present(q: SendableState, k: int) -> int
    decreases 9 - k,
{
    if k < 0 || k >= 9 {
        9
    } else if has_field(q, k) {
        k
    } else {
        first_present(q, k + 1)
    }
}

/// A nonempty chunk tail starts with the chunk of the first present rank.
pub proof fn lemma_first_chunk(q: SendableState, k: int)
    requires
        0 <= k <= 9,
        chunks_from(q, k).len() > 0,
    ensures
        k <= first_present(q, k) < 9,
        has_field(q, first_present(q, k)),
        forall|r: int| k <= r < first_present(q, k) ==> !has_field(q, r),
        chunks_from(q, k) == seq![chunk_of(q, first_present(q, k))] + chunks_from(
            q,
            first_present(q, k) + 1,
        ),
    decreases 9 - k,
{
    if k < 9 {
        if !has_field(q, k) {
            lemma_first_chunk(q, k + 1);
        }
    }
}

/// An empty chunk tail means no attribute of rank `k` or above is present.
pub proof fn lemma_empty_tail(q: SendableState, k: int)
    requires
        0 <= k <= 9,
        chunks_from(q, k).len() == 0,
    ensures
        forall|r: int| k <= r < 9 ==> !has_field(q, r),
    decreases 9 - k,
{
    if k < 9 {
        lemma_empty_tail(q, k + 1);
    }
}

/// The text remaining after some chunks were consumed: the rest of the
/// chunks, each preceded by its separator, then the closing brace.
pub open spec fn rest_render(cs: Seq<Seq<char>>, first: bool) -> Seq<char>
    decreases cs.len(),
{
    if cs.len() == 0 {
        "}"@
    } else {
        (if first {
            Seq::<char>::empty()
        } else {
            ","@
        }) + cs[0] + rest_render(cs.skip(1), false)
    }
}

/// Conditional pushes over a rank range, as the canonical chunk list builds.
pub open spec fn push_range(cs: Seq<Seq<char>>, q: SendableState, k: int) -> Seq<Seq<char>>
    decreases 9 - k,
{
    if k < 0 || k >= 9 {
        cs
    } else {
        push_range(opt_push(cs, has_field(q, k), chunk_of(q, k)), q, k + 1)
    }
}

/// Pushing the remaining ranks appends their chunk tail.
proof fn lemma_push_range_split(cs: Seq<Seq<char>>, q: SendableState, k: int)
    requires
        0 <= k <= 9,
    ensures
        push_range(cs, q, k) == cs + chunks_from(q, k),
    decreases 9 - k,
{
    if k >= 9 {
        assert(cs + chunks_from(q, k) =~= cs);
    } else {
        let nxt = opt_push(cs, has_field(q, k), chunk_of(q, k));
        lemma_push_range_split(nxt, q, k + 1);
        if has_field(q, k) {
            assert(cs.push(chunk_of(q, k)) + chunks_from(q, k + 1) =~= cs + (seq![
                chunk_of(q, k),
            ] + chunks_from(q, k + 1)));
        }
    }
}

/// The canonical chunk list is exactly the chunk tail from rank zero.
pub proof fn lemma_chunks_from_zero(q: SendableState)
    ensures
        chunks(q) == chunks_from(q, 0),
{
    let c0 = Seq::<Seq<char>>::empty();
    let c1 = opt_push(c0, q.on is Some, on_chunk(q.on->0));
    let c2 = opt_push(c1, q.bri is Some, bri_chunk(q.bri->0));
    let c3 = opt_push(c2, q.hue is Some, hue_chunk(q.hue->0));
    let c4 = opt_push(c3, q.sat is Some, sat_chunk(q.sat->0));
    let c5 = opt_push(c4, q.effect is Some, effect_chunk(q.effect->0@));
    let c6 = opt_push(c5, q.xy is Some, xy_chunk(q.xy->0));
    let c7 = opt_push(c6, q.alert is Some, alert_chunk(q.alert->0@));
    let c8 = opt_push(c7, q.transitiontime is Some, transitiontime_chunk(q.transitiontime->0));
    let c9 = opt_push(c8, q.colormode is Some, colormode_chunk(q.colormode->0@));
    assert(push_range(c0, q, 0) == push_range(c1, q, 1));
    assert(push_range(c1, q, 1) == push_range(c2, q, 2));
    assert(push_range(c2, q, 2) == push_range(c3, q, 3));
    assert(push_range(c3, q, 3) == push_range(c4, q, 4));
    assert(push_range(c4, q, 4) == push_range(c5, q, 5));
    assert(push_range(c5, q, 5) == push_range(c6, q, 6));
    assert(push_range(c6, q, 6) == push_range(c7, q, 7));
    assert(push_range(c7, q, 7) == push_range(c8, q, 8));
    assert(push_range(c8, q, 8) == push_range(c9, q, 9));
    assert(push_range(c9, q, 9) == c9);
    assert(chunks(q) == c9);
    lemma_push_range_split(c0, q, 0);
    assert(c0 + chunks_from(q, 0) =~= chunks_from(q, 0));
}

/// Chunks joined with commas, then the closing brace: the same text as the
/// separator-per-chunk reading.
pub proof fn lemma_join_rest(cs: Seq<Seq<char>>)
    ensures
        rest_render(cs, true) == join_chunks(cs) + "}"@,
        cs.len() >= 1 ==> rest_render(cs, false) == ","@ + join_chunks(cs) + "}"@,
    decreases cs.len(),
{
    if cs.len() == 0 {
        assert(join_chunks(cs) + "}"@ =~= "}"@);
    } else if cs.len() == 1 {
        assert(cs.skip(1).len() == 0);
        assert(rest_render(cs.skip(1), false) == "}"@);
        assert(Seq::<char>::empty() + cs[0] =~= cs[0]);
        assert(join_chunks(cs) == cs[0]);
        assert(rest_render(cs, true) =~= cs[0] + "}"@);
        assert(join_chunks(cs) + "}"@ =~= cs[0] + "}"@);
        assert(rest_render(cs, false) =~= ","@ + join_chunks(cs) + "}"@);
    } else {
        lemma_join_rest(cs.skip(1));
        lemma_join_front(cs);
        assert(rest_render(cs, true) == cs[0] + rest_render(cs.skip(1), false)) by {
            assert(Seq::<char>::empty() + cs[0] =~= cs[0]);
        }
        assert(rest_render(cs.skip(1), false) == ","@ + join_chunks(cs.skip(1)) + "}"@);
        assert(rest_render(cs, true) =~= (cs[0] + ","@ + join_chunks(cs.skip(1))) + "}"@);
        assert(join_chunks(cs) + "}"@ =~= (cs[0] + ","@ + join_chunks(cs.skip(1))) + "}"@);
        assert(rest_render(cs, false) =~= ","@ + join_chunks(cs) + "}"@);
    }
}

/// Reading the joined chunks from the front.
pub proof fn lemma_join_front(cs: Seq<Seq<char>>)
    requires
        cs.len() >= 2,
    ensures
        join_chunks(cs) == cs[0] + ","@ + join_chunks(cs.skip(1)),
    decreases cs.len(),
{
    let dl = cs.drop_last();
    if cs.len() == 2 {
        assert(dl.len() == 1);
        assert(join_chunks(cs) == join_chunks(dl) + ","@ + cs.last());
        assert(join_chunks(dl) == dl[0]);
        assert(cs.skip(1).len() == 1);
        assert(join_chunks(cs.skip(1)) == cs.skip(1)[0]);
        assert(cs.skip(1)[0] == cs[1]);
        assert(dl[0] == cs[0]);
        assert(cs.last() == cs[1]);
    } else {
        lemma_join_front(dl);
        assert(join_chunks(cs) == join_chunks(dl) + ","@ + cs.last());
        assert(join_chunks(dl) == dl[0] + ","@ + join_chunks(dl.skip(1)));
        assert(dl[0] == cs[0]);
        let t = cs.skip(1);
        assert(t.len() >= 2);
        assert(t.drop_last() =~= dl.skip(1));
        assert(t.last() == cs.last());
        assert(join_chunks(t) == join_chunks(dl.skip(1)) + ","@ + cs.last());
        assert((dl[0] + ","@ + join_chunks(dl.skip(1))) + ","@ + cs.last() =~= cs[0] + ","@ + (
        join_chunks(dl.skip(1)) + ","@ + cs.last()));
    }
}

/// Any two distinct attribute keys differ right after the opening quote, so
/// no chunk can be mistaken for another's.
pub proof fn lemma_key_distinct(r: int, j: int)
    requires
        0 <= r < 9,
        0 <= j < 9,
        r != j,
    ensures
        key_of(r).len() >= 2,
        key_of(j).len() >= 2,
        key_of(r)[1] != key_of(j)[1],
        key_of(j)[0] == '"',
{
    reveal_strlit("\"on\":");
    reveal_strlit("\"bri\":");
    reveal_strlit("\"hue\":");
    reveal_strlit("\"sat\":");
    reveal_strlit("\"effect\":\"");
    reveal_strlit("\"xy\":[");
    reveal_strlit("\"alert\":\"");
    reveal_strlit("\"transitiontime\":");
    reveal_strlit("\"colormode\":\"");
}

/// Every key opens with a quote.
pub proof fn lemma_key_opens_quote(j: int)
    requires
        0 <= j < 9,
    ensures
        key_of(j).len() >= 2,
        key_of(j)[0] == '"',
{
    reveal_strlit("\"on\":");
    reveal_strlit("\"bri\":");
    reveal_strlit("\"hue\":");
    reveal_strlit("\"sat\":");
    reveal_strlit("\"effect\":\"");
    reveal_strlit("\"xy\":[");
    reveal_strlit("\"alert\":\"");
    reveal_strlit("\"transitiontime\":");
    reveal_strlit("\"colormode\":\"");
}

} // verus!

verus! {

/// Optional strings with the same presence and the same text.
pub open spec fn opt_str_eq(a: Option<String>, b: Option<String>) -> bool {
    (a is Some <==> b is Some) && (a is Some ==> a->0@ == b->0@)
}

/// The attributes of rank below `k` agree between `p` and `q` (string
/// attributes by text).
pub open spec fn agrees_below(p: SendableState, q: SendableState, k: int) -> bool {
    &&& (k > 0 ==> p.on == q.on)
    &&& (k > 1 ==> p.bri == q.bri)
    &&& (k > 2 ==> p.hue == q.hue)
    &&& (k > 3 ==> p.sat == q.sat)
    &&& (k > 4 ==> opt_str_eq(p.effect, q.effect))
    &&& (k > 5 ==> p.xy == q.xy)
    &&& (k > 6 ==> opt_str_eq(p.alert, q.alert))
    &&& (k > 7 ==> p.transitiontime == q.transitiontime)
    &&& (k > 8 ==> opt_str_eq(p.colormode, q.colormode))
}

/// The attributes of rank `k` and above are still unset in `p`.
pub open spec fn none_from(p: SendableState, k: int) -> bool {
    &&& (k <= 0 ==> p.on is None)
    &&& (k <= 1 ==> p.bri is None)
    &&& (k <= 2 ==> p.hue is None)
    &&& (k <= 3 ==> p.sat is None)
    &&& (k <= 4 ==> p.effect is None)
    &&& (k <= 5 ==> p.xy is None)
    &&& (k <= 6 ==> p.alert is None)
    &&& (k <= 7 ==> p.transitiontime is None)
    &&& (k <= 8 ==> p.colormode is None)
}

/// Agreement on every attribute makes the chunk tails equal.
proof fn lemma_chunks_from_agrees(p: SendableState, q: SendableState, k: int)
    requires
        agrees_below(p, q, 9),
        0 <= k <= 9,
    ensures
        chunks_from(p, k) == chunks_from(q, k),
    decreases 9 - k,
{
    if k < 9 {
        lemma_chunks_from_agrees(p, q, k + 1);
    }
}

/// Law: the wire text of a payload depends only on which attributes are
/// present and on their values; two payloads that agree attribute for
/// attribute render to the same text.
pub proof fn lemma_render_agrees(p: SendableState, q: SendableState)
    requires
        agrees_below(p, q, 9),
    ensures
        render_payload(p) == render_payload(q),
{
    lemma_chunks_from_agrees(p, q, 0);
    lemma_chunks_from_zero(p);
    lemma_chunks_from_zero(q);
}

/// A chunk tail's text is nonempty.
proof fn lemma_rest_len(cs: Seq<Seq<char>>, first: bool)
    ensures
        rest_render(cs, first).len() >= 1,
    decreases cs.len(),
{
    reveal_strlit("}");
    if cs.len() != 0 {
        lemma_rest_len(cs.skip(1), false);
    }
}

/// After at least one chunk, the remaining text opens with a separator or the
/// closing brace - never a digit, a quote, or anything a value could continue
/// with.
proof fn lemma_rest_starts(cs: Seq<Seq<char>>)
    ensures
        rest_render(cs, false).len() >= 1,
        rest_render(cs, false)[0] == ',' || rest_render(cs, false)[0] == '}',
        !is_digit_char(rest_render(cs, false)[0]),
        rest_render(cs, false)[0] != '"',
{
    reveal_strlit("}");
    reveal_strlit(",");
    lemma_rest_len(cs, false);
    if cs.len() == 0 {
        assert(rest_render(cs, false) == "}"@);
    } else {
        assert(rest_render(cs, false)[0] == (","@ + cs[0])[0]);
    }
}

/// Standing at a chunk: the key opens it and the value follows.
proof fn lemma_at_chunk(s: Seq<char>, pos1: int, q: SendableState, r: int, tail: Seq<Seq<char>>)
    requires
        0 <= r < 9,
        0 <= pos1 <= s.len(),
        s.skip(pos1) == chunk_of(q, r) + rest_render(tail, false),
    ensures
        occurs_at(s, pos1, key_of(r)),
        pos1 + key_of(r).len() <= s.len(),
        s.skip(pos1 + key_of(r).len()) == value_of(q, r) + rest_render(tail, false),
{
    lemma_chunk_shape(q, r);
    assert(s.skip(pos1) == key_of(r) + (value_of(q, r) + rest_render(tail, false))) by {
        assert((key_of(r) + value_of(q, r)) + rest_render(tail, false) =~= key_of(r) + (value_of(
            q,
            r,
        ) + rest_render(tail, false)));
    }
    crate::text::lemma_skip_split(
        s,
        pos1,
        key_of(r),
        value_of(q, r) + rest_render(tail, false),
    );
}

/// Standing at a string value: its plain text runs to the next quote, and the
/// rest follows right after that quote.
proof fn lemma_value_str(s: Seq<char>, pos2: int, t: Seq<char>, tail: Seq<Seq<char>>)
    requires
        0 <= pos2 <= s.len(),
        plain_text(t),
        s.skip(pos2) == (t + "\""@) + rest_render(tail, false),
    ensures
        pos2 + t.len() < s.len(),
        s[pos2 + t.len()] == '"',
        s.subrange(pos2, pos2 + t.len()) == t,
        forall|w: int| pos2 <= w < pos2 + t.len() ==> s[w] != '"',
        forall|w: int|
            pos2 <= w < pos2 + t.len() ==> 32 <= (#[trigger] s[w]) as u32 && s[w] != '\\',
        s.skip(pos2 + t.len() + 1) == rest_render(tail, false),
{
    reveal_strlit("\"");
    assert("\""@ =~= seq!['"']);
    lemma_rest_len(tail, false);
    assert(s.skip(pos2) == t + (seq!['"'] + rest_render(tail, false))) by {
        assert((t + "\""@) + rest_render(tail, false) =~= t + (seq!['"'] + rest_render(
            tail,
            false,
        )));
    }
    crate::text::lemma_skip_split(s, pos2, t, seq!['"'] + rest_render(tail, false));
    assert(s[pos2 + t.len()] == (seq!['"'] + rest_render(tail, false))[0]);
    crate::text::lemma_skip_split(s, pos2 + t.len(), seq!['"'], rest_render(tail, false));
    assert forall|w: int| pos2 <= w < pos2 + t.len() implies s[w] != '"' by {
        assert(s[pos2 + (w - pos2)] == t[w - pos2]);
    }
    assert forall|w: int|
        pos2 <= w < pos2 + t.len() implies 32 <= (#[trigger] s[w]) as u32 && s[w] != '\\' by {
        assert(s[pos2 + (w - pos2)] == t[w - pos2]);
    }
}

/// Standing at a number value: the number sits there canonically, terminated
/// by the separator or brace that follows.
proof fn lemma_value_num(s: Seq<char>, pos2: int, v: nat, tail: Seq<Seq<char>>)
    requires
        0 <= pos2 <= s.len(),
        s.skip(pos2) == dec_seq(v) + rest_render(tail, false),
    ensures
        dec_at(s, pos2, v),
        s.skip(pos2 + dec_seq(v).len()) == rest_render(tail, false),
{
    lemma_rest_starts(tail);
    crate::text::lemma_skip_split(s, pos2, dec_seq(v), rest_render(tail, false));
    assert(s[pos2 + dec_seq(v).len()] == rest_render(tail, false)[0]);
}

/// The first character a pattern puts where it occurs.
proof fn lemma_occurs_first(s: Seq<char>, pos: int, pat: Seq<char>)
    requires
        occurs_at(s, pos, pat),
        pat.len() >= 1,
    ensures
        s[pos] == pat[0],
{
    assert(s.subrange(pos, pos + pat.len() as int)[0] == pat[0]);
}

/// One parsing step: inside the object and not at the closing brace, the text
/// continues with the separator (unless at the first chunk) and then the
/// chunk of the first present rank; the ranks skipped over are absent.
proof fn lemma_step_setup(s: Seq<char>, pos: int, q: SendableState, k: int, first: bool)
    requires
        0 <= k <= 9,
        0 <= pos < s.len(),
        s.skip(pos) == rest_render(chunks_from(q, k), first),
        s[pos] != '}',
    ensures
        chunks_from(q, k).len() > 0,
        k <= first_present(q, k) < 9,
        has_field(q, first_present(q, k)),
        ({
            let j = first_present(q, k);
            let tail = chunks_from(q, j + 1);
            &&& (!first ==> s[pos] == ',' && pos + 1 <= s.len() && s.skip(pos + 1) == chunk_of(
                q,
                j,
            ) + rest_render(tail, false))
            &&& (first ==> s.skip(pos) == chunk_of(q, j) + rest_render(tail, false))
        }),
        k <= 0 < first_present(q, k) ==> q.on is None,
        k <= 1 < first_present(q, k) ==> q.bri is None,
        k <= 2 < first_present(q, k) ==> q.hue is None,
        k <= 3 < first_present(q, k) ==> q.sat is None,
        k <= 4 < first_present(q, k) ==> q.effect is None,
        k <= 5 < first_present(q, k) ==> q.xy is None,
        k <= 6 < first_present(q, k) ==> q.alert is None,
        k <= 7 < first_present(q, k) ==> q.transitiontime is None,
        k <= 8 < first_present(q, k) ==> q.colormode is None,
{
    reveal_strlit("}");
    reveal_strlit(",");
    lemma_rest_len(chunks_from(q, k), first);
    let cs = chunks_from(q, k);
    if cs.len() == 0 {
        assert(s.skip(pos) == "}"@);
        assert(s[pos + 0] == s.skip(pos)[0]);
        assert(false);
    }
    lemma_first_chunk(q, k);
    let j = first_present(q, k);
    let tail = chunks_from(q, j + 1);
    assert(cs[0] == chunk_of(q, j)) by {
        assert(cs == seq![chunk_of(q, j)] + tail);
        assert((seq![chunk_of(q, j)] + tail)[0] == chunk_of(q, j));
    }
    assert(cs.skip(1) =~= tail) by {
        assert(cs == seq![chunk_of(q, j)] + tail);
    }
    if first {
        assert(s.skip(pos) == chunk_of(q, j) + rest_render(tail, false)) by {
            assert(rest_render(cs, true) == (Seq::<char>::empty() + cs[0]) + rest_render(
                cs.skip(1),
                false,
            ));
            assert((Seq::<char>::empty() + cs[0]) + rest_render(cs.skip(1), false) =~= cs[0]
                + rest_render(tail, false));
        }
    } else {
        assert(rest_render(cs, false) == ","@ + (cs[0] + rest_render(cs.skip(1), false))) by {
            assert((","@ + cs[0]) + rest_render(cs.skip(1), false) =~= ","@ + (cs[0]
                + rest_render(cs.skip(1), false)));
        }
        crate::text::lemma_skip_split(s, pos, ","@, cs[0] + rest_render(cs.skip(1), false));
        assert(","@[0] == ',');
        assert(s[pos + 0] == ","@[0]);
    }
    assert(k <= 0 < j ==> !has_field(q, 0));
    assert(k <= 1 < j ==> !has_field(q, 1));
    assert(k <= 2 < j ==> !has_field(q, 2));
    assert(k <= 3 < j ==> !has_field(q, 3));
    assert(k <= 4 < j ==> !has_field(q, 4));
    assert(k <= 5 < j ==> !has_field(q, 5));
    assert(k <= 6 < j ==> !has_field(q, 6));
    assert(k <= 7 < j ==> !has_field(q, 7));
    assert(k <= 8 < j ==> !has_field(q, 8));
}

/// Standing at a boolean value: its literal sits there, the rest after it.
proof fn lemma_value_bool(s: Seq<char>, pos2: int, b: bool, tail: Seq<Seq<char>>)
    requires
        0 <= pos2 <= s.len(),
        s.skip(pos2) == bool_text(b) + rest_render(tail, false),
    ensures
        b ==> occurs_at(s, pos2, "true"@) && s.skip(pos2 + 4) == rest_render(tail, false)
            && s[pos2] == 't',
        !b ==> occurs_at(s, pos2, "false"@) && s.skip(pos2 + 5) == rest_render(tail, false)
            && s[pos2] == 'f',
{
    reveal_strlit("true");
    reveal_strlit("false");
    if b {
        crate::text::lemma_skip_split(s, pos2, "true"@, rest_render(tail, false));
        lemma_occurs_first(s, pos2, "true"@);
    } else {
        crate::text::lemma_skip_split(s, pos2, "false"@, rest_render(tail, false));
        lemma_occurs_first(s, pos2, "false"@);
    }
}

/// Standing at a chunk whose key was recognized: it is the chunk of that very
/// rank, and its value follows the key.
proof fn lemma_rank_is(
    s: Seq<char>,
    pos1: int,
    q: SendableState,
    j: int,
    r: int,
    tail: Seq<Seq<char>>,
)
    requires
        0 <= j < 9,
        0 <= r < 9,
        0 <= pos1 <= s.len(),
        s.skip(pos1) == chunk_of(q, j) + rest_render(tail, false),
        occurs_at(s, pos1, key_of(r)),
    ensures
        j == r,
        pos1 + key_of(r).len() <= s.len(),
        s.skip(pos1 + key_of(r).len()) == value_of(q, r) + rest_render(tail, false),
{
    lemma_at_chunk(s, pos1, q, j, tail);
    if j != r {
        lemma_key_distinct(r, j);
        assert(s[pos1 + 1] == key_of(j)[1]) by {
            assert(s.subrange(pos1, pos1 + key_of(j).len() as int)[1] == key_of(j)[1]);
        }
        assert(s[pos1 + 1] == key_of(r)[1]) by {
            assert(s.subrange(pos1, pos1 + key_of(r).len() as int)[1] == key_of(r)[1]);
        }
        assert(false);
    }
}

/// Standing at a chromaticity value: both fractions sit there, bracketed and
/// comma-separated, with the rest right after the closing bracket.
proof fn lemma_value_xy(s: Seq<char>, pos2: int, xy: Xy, tail: Seq<Seq<char>>)
    requires
        0 <= pos2 <= s.len(),
        s.skip(pos2) == (fixed6(xy.x_micro as nat) + ","@ + fixed6(xy.y_micro as nat) + "]"@)
            + rest_render(tail, false),
    ensures
        fixed6_at(s, pos2, xy.x_micro),
        ({
            let lx = fixed6(xy.x_micro as nat).len() as int;
            let ly = fixed6(xy.y_micro as nat).len() as int;
            &&& pos2 + lx < s.len()
            &&& s[pos2 + lx] == ','
            &&& fixed6_at(s, pos2 + lx + 1, xy.y_micro)
            &&& pos2 + lx + 1 + ly < s.len()
            &&& s[pos2 + lx + 1 + ly] == ']'
            &&& s.skip(pos2 + lx + 1 + ly + 1) == rest_render(tail, false)
        }),
{
    reveal_strlit(",");
    reveal_strlit("]");
    lemma_rest_len(tail, false);
    let fx = fixed6(xy.x_micro as nat);
    let fy = fixed6(xy.y_micro as nat);
    let rest = rest_render(tail, false);
    assert(s.skip(pos2) == fx + (","@ + (fy + ("]"@ + rest)))) by {
        assert((((fx + ","@) + fy) + "]"@) + rest =~= fx + (","@ + (fy + ("]"@ + rest))));
    }
    crate::text::lemma_skip_split(s, pos2, fx, ","@ + (fy + ("]"@ + rest)));
    let lx = fx.len() as int;
    assert(s[pos2 + lx] == (","@ + (fy + ("]"@ + rest)))[0]);
    crate::text::lemma_skip_split(s, pos2 + lx, ","@, fy + ("]"@ + rest));
    crate::text::lemma_skip_split(s, pos2 + lx + 1, fy, "]"@ + rest);
    let ly = fy.len() as int;
    assert(s[pos2 + lx + 1 + ly] == ("]"@ + rest)[0]);
    crate::text::lemma_skip_split(s, pos2 + lx + 1 + ly, "]"@, rest);
}

} // verus!
