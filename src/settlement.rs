use crate::hydrology::{descending_order, is_descending_order};
use vstd::prelude::*;

verus! {

/// Most settlements a map holds.
pub const MAX_SETTLEMENTS: u32 = 16;
/// Most candidates, best first, that selection examines.
pub const MAX_CANDIDATES: usize = 200;
/// Order key of 0.2, the most water a site may hold.
pub const K_SITE_WATER: u32 = 0xBE4C_CCCD;
/// Order key of 0.08, the roughest a site may be.
pub const K_SITE_FLATNESS: u32 = 0xBDA3_D70A;
/// Order key of 0.35, the score a site must exceed.
pub const K_SITE_SCORE: u32 = 0xBEB3_3333;
/// Order key of 120, the least distance between two settlements.
pub const K_SPACING: u32 = 0xC2F0_0000;

/// A cell qualifies as a candidate site: above the land line (sea level plus
/// 0.02), dry enough, flat enough, and scoring high enough.
pub open spec fn site_ok(elev: u32, land_line: u32, water: u32, flatness: u32, score: u32) -> bool {
    elev > land_line && water <= K_SITE_WATER && flatness <= K_SITE_FLATNESS && score > K_SITE_SCORE
}

/// Whether a cell, given the order keys of its elevation, water, flatness and
/// score, is a candidate site.
pub fn is_site(elev: u32, land_line: u32, water: u32, flatness: u32, score: u32) -> (r: bool)
    ensures
        r == site_ok(elev, land_line, water, flatness, score),
{
    elev > land_line && water <= K_SITE_WATER && flatness <= K_SITE_FLATNESS && score > K_SITE_SCORE
}

/// Whether a candidate lies closer than the least spacing to one of the
/// settlements placed so far, given the order keys of its distances to them.
pub fn too_close(distances: &Vec<u32>) -> (r: bool)
    ensures
        r == exists|k: int| 0 <= k < distances@.len() && #[trigger] distances@[k] < K_SPACING,
{
    let mut k: usize = 0;
    while k < distances.len()
        invariant
            k <= distances@.len(),
            forall|j: int| 0 <= j < k ==> #[trigger] distances@[j] >= K_SPACING,
        decreases distances@.len() - k,
    {
        if distances[k] < K_SPACING {
            return true;
        }
        k = k + 1;
    }
    false
}

/// The candidates that selection examines, best score first: the first
/// `MAX_CANDIDATES` of the candidates in descending score order, where equal
/// scores keep their order of discovery.
pub fn top_candidates(scores: &Vec<u32>) -> (r: Vec<usize>)
    requires
        scores@.len() <= 0x1_0000_0000,
    ensures
        r@.len() == if scores@.len() < MAX_CANDIDATES {
            scores@.len() as int
        } else {
            MAX_CANDIDATES as int
        },
        exists|full: Seq<usize>| is_descending_order(scores@, full) && r@ == full.subrange(0, r@.len() as int),
{
    let full = descending_order(scores);
    let mut r: Vec<usize> = Vec::new();
    let mut k: usize = 0;
    while k < full.len() && k < MAX_CANDIDATES
        invariant
            k <= full@.len(),
            k <= MAX_CANDIDATES,
            r@ == full@.subrange(0, k as int),
        decreases full@.len() - k,
    {
        r.push(full[k]);
        k = k + 1;
    }
    assert(is_descending_order(scores@, full@));
    r
}

/// Greedy selection of settlements among ranked candidates: counts the
/// candidates examined and the settlements accepted.
pub struct SitePicker {
    pub examined: usize,
    pub accepted: u32,
}

impl SitePicker {
    /// Selection can go on: fewer than the most settlements accepted and
    /// fewer than the most candidates examined.
    pub open spec fn open(&self) -> bool {
        self.accepted < MAX_SETTLEMENTS && self.examined < MAX_CANDIDATES
    }

    pub open spec fn wf(&self) -> bool {
        self.accepted <= MAX_SETTLEMENTS && self.accepted as int <= self.examined as int
            && self.examined <= MAX_CANDIDATES
    }

    /// A picker that has examined nothing.
    pub fn new() -> (r: SitePicker)
        ensures
            r.wf(),
            r.examined == 0,
            r.accepted == 0,
    {
        SitePicker { examined: 0, accepted: 0 }
    }

    /// Whether selection goes on to another candidate.
    pub fn wants_more(&self) -> (r: bool)
        ensures
            r == self.open(),
    {
        self.accepted < MAX_SETTLEMENTS && self.examined < MAX_CANDIDATES
    }

    /// Examines the next candidate: one lying too close to a placed
    /// settlement is passed over; otherwise it is accepted and receives the
    /// next id, its acceptance rank.
    pub fn offer(&mut self, crowded: bool) -> (r: Option<u32>)
        requires
            old(self).wf(),
            old(self).open(),
        ensures
            final(self).wf(),
            final(self).examined == old(self).examined + 1,
            crowded ==> r.is_none() && final(self).accepted == old(self).accepted,
            !crowded ==> r == Some(old(self).accepted) && final(self).accepted == old(self).accepted
                + 1,
    {
        self.examined = self.examined + 1;
        if crowded {
            None
        } else {
            let id = self.accepted;
            self.accepted = self.accepted + 1;
            Some(id)
        }
    }
}

/// A well-formed picker, which is what `new` and every `offer` leave behind,
/// has accepted at most the most settlements and examined at most the most
/// candidates.
pub proof fn lemma_picker_bounds(p: SitePicker)
    requires
        p.wf(),
    ensures
        p.accepted <= MAX_SETTLEMENTS,
        p.examined <= MAX_CANDIDATES,
{
}

} // verus!
