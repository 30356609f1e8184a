//! Device records and the device inventory.
//!
//! A device record holds the last-known state of one light plus descriptive
//! metadata. Two product families expose slightly different metadata, so the
//! record is a tagged union of the two shapes; fields the logic never reads
//! (update status, capabilities, config) are carried verbatim as opaque text.
//! The inventory maps small integer device IDs to records and is replaced
//! wholesale by a scan, never merged.

use vstd::prelude::*;

use crate::errors::DecodeError;

verus! {

/// A chromaticity coordinate pair in millionths: `x_micro == 250_000` stands
/// for the coordinate 0.25. Plain integers keep the arithmetic exact.
#[derive(Debug, Clone, Copy, PartialEq, Eq, Structural)]
pub struct Xy {
    pub x_micro: u32,
    pub y_micro: u32,
}

/// The state part of one device record: the power flag plus whichever color
/// and mode attributes the device reported.
#[derive(Debug, PartialEq, Eq)]
pub struct State {
    pub on: bool,
    pub bri: Option<u8>,
    pub hue: Option<u16>,
    pub sat: Option<u8>,
    pub effect: Option<String>,
    pub xy: Option<Xy>,
    pub ct: Option<u32>,
    pub alert: String,
    pub colormode: Option<String>,
    pub mode: String,
    pub reachable: bool,
}

/// Clones an optional string, preserving its value.
pub fn clone_opt_string(o: &Option<String>) -> (r: Option<String>)
    ensures
        r == o,
{
    match o {
        Some(s) => Some(s.clone()),
        None => None,
    }
}

impl Clone for State {
    /// An exact copy of the state record.
    fn clone(&self) -> (r: Self)
        ensures
            r == self,
    {
        State {
            on: self.on,
            bri: self.bri,
            hue: self.hue,
            sat: self.sat,
            effect: clone_opt_string(&self.effect),
            xy: self.xy,
            ct: self.ct,
            alert: self.alert.clone(),
            colormode: clone_opt_string(&self.colormode),
            mode: self.mode.clone(),
            reachable: self.reachable,
        }
    }
}

impl Default for State {
    /// A plain white-light default record.
    fn default() -> (r: Self)
        ensures
            r.on == false,
            r.bri == Some(254u8),
            r.hue == Some(1000u16),
            r.sat == Some(100u8),
            r.effect matches Some(e) && e@ == "none"@,
            r.xy == Some(Xy { x_micro: 0u32, y_micro: 0u32 }),
            r.ct == Some(300u32),
            r.alert@ == "select"@,
            r.colormode matches Some(c) && c@ == "ct"@,
            r.mode@ == "homeautomation"@,
            r.reachable == true,
    {
        State {
            on: false,
            bri: Some(254),
            hue: Some(1000),
            sat: Some(100),
            effect: Some(String::from_str("none")),
            xy: Some(Xy { x_micro: 0, y_micro: 0 }),
            ct: Some(300),
            alert: String::from_str("select"),
            colormode: Some(String::from_str("ct")),
            mode: String::from_str("homeautomation"),
            reachable: true,
        }
    }
}

/// One controllable light, in one of the two record shapes the gateway
/// serves. The ID is the inventory key and is not repeated inside the record.
#[derive(Debug, PartialEq, Eq)]
pub enum Light {
    LightBulb {
        state: State,
        swupdate: String,
        kind: String,
        name: String,
        modelid: String,
        manufacturername: String,
        productname: String,
        capabilities: String,
        config: String,
        uniqueid: String,
        swversion: String,
        swconfigid: String,
        productid: String,
    },
    LightStrip {
        state: State,
        swupdate: String,
        kind: String,
        name: String,
        modelid: String,
        manufacturername: String,
        productname: String,
        capabilities: String,
        config: String,
        uniqueid: String,
        swversion: String,
    },
}

/// The state sub-record of a light.
pub open spec fn state_of(l: Light) -> State {
    match l {
        Light::LightBulb { state, .. } => state,
        Light::LightStrip { state, .. } => state,
    }
}

/// The display name of a light.
pub open spec fn name_of(l: Light) -> Seq<char> {
    match l {
        Light::LightBulb { name, .. } => name@,
        Light::LightStrip { name, .. } => name@,
    }
}

/// The text of a boolean.
pub open spec fn bool_text(b: bool) -> Seq<char> {
    if b {
        "true"@
    } else {
        "false"@
    }
}

impl Clone for Light {
    /// An exact copy of the record.
    fn clone(&self) -> (r: Self)
        ensures
            r == self,
    {
        match self {
            Light::LightBulb {
                state,
                swupdate,
                kind,
                name,
                modelid,
                manufacturername,
                productname,
                capabilities,
                config,
                uniqueid,
                swversion,
                swconfigid,
                productid,
            } => Light::LightBulb {
                state: state.clone(),
                swupdate: swupdate.clone(),
                kind: kind.clone(),
                name: name.clone(),
                modelid: modelid.clone(),
                manufacturername: manufacturername.clone(),
                productname: productname.clone(),
                capabilities: capabilities.clone(),
                config: config.clone(),
                uniqueid: uniqueid.clone(),
                swversion: swversion.clone(),
                swconfigid: swconfigid.clone(),
                productid: productid.clone(),
            },
            Light::LightStrip {
                state,
                swupdate,
                kind,
                name,
                modelid,
                manufacturername,
                productname,
                capabilities,
                config,
                uniqueid,
                swversion,
            } => Light::LightStrip {
                state: state.clone(),
                swupdate: swupdate.clone(),
                kind: kind.clone(),
                name: name.clone(),
                modelid: modelid.clone(),
                manufacturername: manufacturername.clone(),
                productname: productname.clone(),
                capabilities: capabilities.clone(),
                config: config.clone(),
                uniqueid: uniqueid.clone(),
                swversion: swversion.clone(),
            },
        }
    }
}

impl Light {
    /// A one-line description of the light: its power flag and its name.
    pub fn describe(&self) -> (r: String)
        ensures
            r@ == "{ on: "@ + bool_text(state_of(*self).on) + " } : "@ + name_of(*self),
    {
        let mut out = String::from_str("{ on: ");
        let on = match self {
            Light::LightBulb { state, .. } => state.on,
            Light::LightStrip { state, .. } => state.on,
        };
        if on {
            out.append("true");
        } else {
            out.append("false");
        }
        out.append(" } : ");
        match self {
            Light::LightBulb { name, .. } => out.append(name.as_str()),
            Light::LightStrip { name, .. } => out.append(name.as_str()),
        }
        out
    }
}

/// The keys of an inventory entry list.
pub open spec fn entry_ids(entries: Seq<(u8, Light)>) -> Seq<u8> {
    entries.map_values(|e: (u8, Light)| e.0)
}

/// Entry keys are strictly increasing: sorted and free of duplicates.
pub open spec fn strictly_increasing_ids(entries: Seq<(u8, Light)>) -> bool {
    forall|i: int, j: int|
        0 <= i < j < entries.len() ==> (#[trigger] entries[i]).0 < (#[trigger] entries[j]).0
}

/// The device inventory: records keyed by strictly increasing device IDs,
/// with the ID list and the count kept alongside.
#[derive(Debug)]
pub struct LightCollection {
    pub lights: Vec<(u8, Light)>,
    pub ids: Vec<u8>,
    pub count: usize,
}

impl LightCollection {
    /// The inventory is coherent: `ids` lists exactly the entry keys in
    /// order, keys strictly increase, and `count` is the number of entries.
    pub open spec fn wf(&self) -> bool {
        &&& self.ids@ == entry_ids(self.lights@)
        &&& strictly_increasing_ids(self.lights@)
        &&& self.count == self.lights@.len()
    }

    /// The empty inventory.
    pub fn empty() -> (r: Self)
        ensures
            r.wf(),
            r.lights@.len() == 0,
    {
        let r = LightCollection { lights: Vec::new(), ids: Vec::new(), count: 0 };
        proof {
            assert(r.ids@ =~= entry_ids(r.lights@));
        }
        r
    }

    /// Builds an inventory from decoded (ID, record) entries.
    ///
    /// Succeeds exactly when the entry keys are strictly increasing - the
    /// order a well-formed device-list document yields - and then holds
    /// exactly those entries.
    pub fn from_entries(entries: Vec<(u8, Light)>) -> (r: Result<Self, DecodeError>)
        ensures
            r is Ok <==> strictly_increasing_ids(entries@),
            r is Ok ==> r.unwrap().wf() && r.unwrap().lights@ == entries@,
            r is Err ==> r.unwrap_err() == DecodeError::UnorderedInventory,
    {
        let n = entries.len();
        let mut ids: Vec<u8> = Vec::new();
        let mut i: usize = 0;
        while i < n
            invariant
                n == entries@.len(),
                i <= n,
                ids@.len() == i,
                forall|k: int| 0 <= k < i ==> ids@[k] == (#[trigger] entries@[k]).0,
                forall|j: int, k: int|
                    0 <= j < k < i ==> (#[trigger] entries@[j]).0 < (#[trigger] entries@[k]).0,
            decreases n - i,
        {
            if i > 0 {
                let prev = entries[i - 1].0;
                let cur = entries[i].0;
                if prev >= cur {
                    assert(!strictly_increasing_ids(entries@));
                    return Err(DecodeError::UnorderedInventory);
                }
                assert forall|j: int, k: int|
                    0 <= j < k < i + 1 implies (#[trigger] entries@[j]).0 < (
                #[trigger] entries@[k]).0 by {
                    if k == i {
                        if j < i - 1 {
                            assert(entries@[j].0 < entries@[i - 1].0);
                        }
                    }
                }
            }
            ids.push(entries[i].0);
            i = i + 1;
        }
        let count = entries.len();
        let r = LightCollection { lights: entries, ids, count };
        proof {
            assert(r.ids@ =~= entry_ids(r.lights@));
        }
        Ok(r)
    }
}

} // verus!
