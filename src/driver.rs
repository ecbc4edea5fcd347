//! Turns the change sets into per-zone batches for the provider.
use crate::resource::{strs_view, ResHash, Resource, ResourceV};
use vstd::prelude::*;

verus! {

/// The most changes one batch may carry.
pub const BATCH_LIMIT: usize = 100;

/// What to do with a resource at the provider.
#[derive(Clone, Copy, Debug, PartialEq, Eq, Structural)]
pub enum Action {
    Create,
    Upsert,
    Delete,
}

impl Action {
    /// The provider's name for the action.
    pub fn name(&self) -> (r: &'static str)
        ensures
            r@ == action_name(*self),
    {
        match self {
            Action::Create => "CREATE",
            Action::Upsert => "UPSERT",
            Action::Delete => "DELETE",
        }
    }
}

pub open spec fn action_name(a: Action) -> Seq<char> {
    match a {
        Action::Create => "CREATE"@,
        Action::Upsert => "UPSERT"@,
        Action::Delete => "DELETE"@,
    }
}

/// One resource with the action to apply to it.
pub struct Change {
    pub action: Action,
    pub resource: Resource,
}

pub struct ChangeV {
    pub action: Action,
    pub resource: ResourceV,
}

impl View for Change {
    type V = ChangeV;

    open spec fn view(&self) -> ChangeV {
        ChangeV { action: self.action, resource: self.resource@ }
    }
}

/// Changes for one zone, submitted together.
pub struct ZoneBatch {
    pub zone_id: String,
    pub changes: Vec<Change>,
}

pub struct ZoneBatchV {
    pub zone_id: Seq<char>,
    pub changes: Seq<ChangeV>,
}

pub open spec fn changes_view(v: Seq<Change>) -> Seq<ChangeV> {
    v.map_values(|c: Change| c@)
}

impl View for ZoneBatch {
    type V = ZoneBatchV;

    open spec fn view(&self) -> ZoneBatchV {
        ZoneBatchV { zone_id: self.zone_id@, changes: changes_view(self.changes@) }
    }
}

pub open spec fn batches_view(v: Seq<ZoneBatch>) -> Seq<ZoneBatchV> {
    v.map_values(|b: ZoneBatch| b@)
}

pub open spec fn tagged(rs: Seq<ResourceV>, a: Action) -> Seq<ChangeV> {
    rs.map_values(|r: ResourceV| ChangeV { action: a, resource: r })
}

/// Every change in order: creations, then updates, then deletions.
pub open spec fn all_changes(n: Seq<ResourceV>, u: Seq<ResourceV>, d: Seq<ResourceV>) -> Seq<ChangeV> {
    tagged(n, Action::Create) + tagged(u, Action::Upsert) + tagged(d, Action::Delete)
}

/// The changes of `s` in zone `z`, in order.
pub open spec fn in_zone(s: Seq<ChangeV>, z: Seq<char>) -> Seq<ChangeV>
    decreases s.len(),
{
    if s.len() == 0 {
        Seq::empty()
    } else if s.last().resource.zone_id == z {
        in_zone(s.drop_last(), z).push(s.last())
    } else {
        in_zone(s.drop_last(), z)
    }
}

/// The changes that the batches for zone `z` carry, in order.
pub open spec fn zone_changes(bs: Seq<ZoneBatchV>, z: Seq<char>) -> Seq<ChangeV>
    decreases bs.len(),
{
    if bs.len() == 0 {
        Seq::empty()
    } else if bs.last().zone_id == z {
        zone_changes(bs.drop_last(), z) + bs.last().changes
    } else {
        zone_changes(bs.drop_last(), z)
    }
}

/// A batch is not empty, holds at most [`BATCH_LIMIT`] changes, all of its zone.
pub open spec fn good_batch(b: ZoneBatchV) -> bool {
    &&& 0 < b.changes.len() <= BATCH_LIMIT
    &&& forall|i: int| 0 <= i < b.changes.len() ==> (#[trigger] b.changes[i]).resource.zone_id == b.zone_id
}

proof fn lemma_in_zone_none(s: Seq<ChangeV>, z: Seq<char>)
    requires
        forall|i: int| 0 <= i < s.len() ==> (#[trigger] s[i]).resource.zone_id != z,
    ensures
        in_zone(s, z) == Seq::<ChangeV>::empty(),
    decreases s.len(),
{
    if s.len() > 0 {
        lemma_in_zone_none(s.drop_last(), z);
    }
}

fn push_tagged(out: &mut Vec<Change>, h: &ResHash, a: Action)
    requires
        h.wf(),
    ensures
        changes_view(final(out)@) == changes_view(old(out)@) + tagged(h.val_seq(), a),
{
    let ghost start = changes_view(out@);
    let mut i: usize = 0;
    while i < h.vals.len()
        invariant
            h.wf(),
            i <= h.vals@.len(),
            changes_view(out@) == start + tagged(h.val_seq(), a).subrange(0, i as int),
        decreases h.vals@.len() - i,
    {
        let ghost before = changes_view(out@);
        out.push(Change { action: a, resource: h.vals[i].duplicate() });
        assert(changes_view(out@) =~= before.push(ChangeV { action: a, resource: h.val_seq()[i as int] }));
        assert(tagged(h.val_seq(), a).subrange(0, i + 1) =~= tagged(h.val_seq(), a).subrange(0, i as int).push(
            ChangeV { action: a, resource: h.val_seq()[i as int] },
        ));
        i += 1;
    }
    assert(tagged(h.val_seq(), a).subrange(0, h.vals@.len() as int) =~= tagged(h.val_seq(), a));
}

/// Some string of `zs` is `z`.
pub open spec fn lists(zs: Seq<String>, z: Seq<char>) -> bool {
    exists|j: int| 0 <= j < zs.len() && zs[j]@ == z
}

/// Whether some string of `zs` equals `z`.
fn holds_text(zs: &Vec<String>, z: &String) -> (r: bool)
    ensures
        r == lists(zs@, z@),
{
    let mut j: usize = 0;
    while j < zs.len()
        invariant
            j <= zs@.len(),
            forall|b: int| 0 <= b < j ==> zs@[b]@ != z@,
        decreases zs@.len() - j,
    {
        if zs[j] == *z {
            return true;
        }
        j += 1;
    }
    false
}

/// The zones of `flat`, each once, in order of first use.
fn zones_of(flat: &Vec<Change>) -> (zs: Vec<String>)
    ensures
        forall|i: int, j: int| 0 <= i < j < zs@.len() ==> zs@[i]@ != zs@[j]@,
        forall|i: int| 0 <= i < flat@.len() ==> lists(zs@, (#[trigger] flat@[i]).resource.zone_id@),
{
    let mut zs: Vec<String> = Vec::new();
    let mut i: usize = 0;
    while i < flat.len()
        invariant
            i <= flat@.len(),
            forall|a: int, b: int| 0 <= a < b < zs@.len() ==> zs@[a]@ != zs@[b]@,
            forall|a: int| 0 <= a < i ==> lists(zs@, (#[trigger] flat@[a]).resource.zone_id@),
        decreases flat@.len() - i,
    {
        let z = &flat[i].resource.zone_id;
        let ghost zs0 = zs@;
        if !holds_text(&zs, z) {
            zs.push(z.clone());
            assert(zs@[zs@.len() - 1]@ == z@);
            assert forall|a: int| 0 <= a < i + 1 implies lists(zs@, (#[trigger] flat@[a]).resource.zone_id@) by {
                if a < i {
                    let j = choose|j: int| 0 <= j < zs0.len() && zs0[j]@ == flat@[a].resource.zone_id@;
                    assert(zs@[j] == zs0[j]);
                } else {
                    assert(zs@[zs@.len() - 1]@ == flat@[a].resource.zone_id@);
                }
            }
        }
        i += 1;
    }
    zs
}


/// Groups the change sets by zone into batches of at most [`BATCH_LIMIT`]
/// changes: creations first, then updates, then deletions, each zone's
/// changes kept in that order across its batches.
pub fn plan_changes(n: &ResHash, u: &ResHash, d: &ResHash) -> (r: Vec<ZoneBatch>)
    requires
        n.wf(),
        u.wf(),
        d.wf(),
    ensures
        forall|i: int| 0 <= i < r@.len() ==> good_batch(#[trigger] r@[i]@),
        forall|z: Seq<char>| #[trigger] zone_changes(batches_view(r@), z) == in_zone(
            all_changes(n.val_seq(), u.val_seq(), d.val_seq()),
            z,
        ),
{
    let mut flat: Vec<Change> = Vec::new();
    push_tagged(&mut flat, n, Action::Create);
    push_tagged(&mut flat, u, Action::Upsert);
    push_tagged(&mut flat, d, Action::Delete);
    let ghost fl = changes_view(flat@);
    assert(fl =~= all_changes(n.val_seq(), u.val_seq(), d.val_seq()));
    let zs = zones_of(&flat);
    let mut out: Vec<ZoneBatch> = Vec::new();
    let mut zi: usize = 0;
    assert(batches_view(out@) =~= Seq::<ZoneBatchV>::empty());
    while zi < zs.len()
        invariant
            fl == changes_view(flat@),
            zi <= zs@.len(),
            forall|a: int, b: int| 0 <= a < b < zs@.len() ==> zs@[a]@ != zs@[b]@,
            forall|i: int| 0 <= i < out@.len() ==> good_batch(#[trigger] out@[i]@),
            forall|z: Seq<char>|
                lists(zs@.subrange(0, zi as int), z) ==> #[trigger] zone_changes(batches_view(out@), z)
                    == in_zone(fl, z),
            forall|z: Seq<char>|
                !lists(zs@.subrange(0, zi as int), z) ==> #[trigger] zone_changes(batches_view(out@), z)
                    == Seq::<ChangeV>::empty(),
        decreases zs@.len() - zi,
    {
        let z = &zs[zi];
        let ghost out0 = batches_view(out@);
        assert(!lists(zs@.subrange(0, zi as int), z@)) by {
            if lists(zs@.subrange(0, zi as int), z@) {
                let b = choose|b: int| 0 <= b < zi && zs@.subrange(0, zi as int)[b]@ == z@;
                assert(zs@[b]@ == zs@[zi as int]@);
            }
        }
        let mut cur: Vec<Change> = Vec::new();
        let mut j: usize = 0;
        assert(fl.subrange(0, 0) =~= Seq::<ChangeV>::empty());
        assert(changes_view(cur@) =~= Seq::<ChangeV>::empty());
        assert(zone_changes(out0, z@) + changes_view(cur@) =~= in_zone(fl.subrange(0, 0), z@));
        while j < flat.len()
            invariant
                fl == changes_view(flat@),
                j <= flat@.len(),
                cur@.len() < BATCH_LIMIT,
                forall|i: int| 0 <= i < cur@.len() ==> (#[trigger] cur@[i]).resource.zone_id@ == z@,
                forall|i: int| 0 <= i < out@.len() ==> good_batch(#[trigger] out@[i]@),
                zone_changes(batches_view(out@), z@) + changes_view(cur@) == in_zone(
                    fl.subrange(0, j as int),
                    z@,
                ),
                forall|y: Seq<char>|
                    y != z@ ==> #[trigger] zone_changes(batches_view(out@), y) == zone_changes(out0, y),
            decreases flat@.len() - j,
        {
            let ghost pre = fl.subrange(0, j as int);
            assert(fl.subrange(0, j + 1).drop_last() =~= pre);
            if flat[j].resource.zone_id == *z {
                let ghost cv = changes_view(cur@);
                let ghost zc = zone_changes(batches_view(out@), z@);
                let ghost x = fl[j as int];
                cur.push(Change { action: flat[j].action, resource: flat[j].resource.duplicate() });
                assert(changes_view(cur@) =~= cv.push(x));
                assert(fl.subrange(0, j + 1).last() == x);
                assert(in_zone(fl.subrange(0, j + 1), z@) == in_zone(pre, z@).push(x));
                assert(zc + cv.push(x) =~= (zc + cv).push(x));
                if cur.len() == BATCH_LIMIT {
                    let ghost bv = batches_view(out@);
                    let ghost b = ZoneBatchV { zone_id: z@, changes: changes_view(cur@) };
                    out.push(ZoneBatch { zone_id: z.clone(), changes: cur });
                    cur = Vec::new();
                    assert(batches_view(out@) =~= bv.push(b));
                    assert(batches_view(out@).drop_last() =~= bv);
                    assert(changes_view(cur@) =~= Seq::<ChangeV>::empty());
                    assert(zone_changes(batches_view(out@), z@) == zc + cv.push(x));
                    assert(zone_changes(batches_view(out@), z@) + changes_view(cur@) =~= zc + cv.push(x));
                    assert(forall|y: Seq<char>| y != z@ ==> #[trigger] zone_changes(batches_view(out@), y) == zone_changes(bv, y));
                }
            }
            j += 1;
        }
        assert(fl.subrange(0, flat@.len() as int) =~= fl);
        if cur.len() > 0 {
            let ghost bv = batches_view(out@);
            let ghost b = ZoneBatchV { zone_id: z@, changes: changes_view(cur@) };
            out.push(ZoneBatch { zone_id: z.clone(), changes: cur });
            assert(batches_view(out@) =~= bv.push(b));
            assert(batches_view(out@).drop_last() =~= bv);
            assert(forall|y: Seq<char>| y != z@ ==> #[trigger] zone_changes(batches_view(out@), y) == zone_changes(bv, y));
        } else {
            assert(changes_view(cur@) =~= Seq::<ChangeV>::empty());
            assert(zone_changes(batches_view(out@), z@) + changes_view(cur@) =~= zone_changes(batches_view(out@), z@));
        }
        assert(zone_changes(batches_view(out@), z@) =~= in_zone(fl, z@));
        proof {
            assert forall|y: Seq<char>| lists(zs@.subrange(0, zi + 1), y) implies #[trigger] zone_changes(
                batches_view(out@),
                y,
            ) == in_zone(fl, y) by {
                if y != z@ {
                    let b = choose|b: int| 0 <= b < zi + 1 && (#[trigger] zs@.subrange(0, zi + 1)[b])@ == y;
                    assert(zs@.subrange(0, zi as int)[b]@ == y);
                }
            }
            assert forall|y: Seq<char>| !lists(zs@.subrange(0, zi + 1), y) implies #[trigger] zone_changes(
                batches_view(out@),
                y,
            ) == Seq::<ChangeV>::empty() by {
                if y == z@ {
                    assert(zs@.subrange(0, zi + 1)[zi as int]@ == y);
                }
                if lists(zs@.subrange(0, zi as int), y) {
                    let b = choose|b: int| 0 <= b < zi && zs@.subrange(0, zi as int)[b]@ == y;
                    assert(zs@.subrange(0, zi + 1)[b]@ == y);
                }
            }
        }
        zi += 1;
    }
    proof {
        assert(zs@.subrange(0, zs@.len() as int) =~= zs@);
        assert forall|z: Seq<char>| #[trigger] zone_changes(batches_view(out@), z) == in_zone(fl, z) by {
            if !lists(zs@, z) {
                assert forall|i: int| 0 <= i < fl.len() implies (#[trigger] fl[i]).resource.zone_id != z by {
                    assert(lists(zs@, flat@[i].resource.zone_id@));
                }
                lemma_in_zone_none(fl, z);
            }
        }
    }
    out
}


/// How far the submission of a plan has come: the zones where a batch failed.
pub struct PushProgress {
    pub failed: Vec<String>,
}

impl PushProgress {
    /// The zones where a batch failed.
    pub open spec fn failed_zones(&self) -> Set<Seq<char>> {
        strs_view(self.failed@).to_set()
    }

    /// No batch sent yet.
    pub fn new() -> (r: PushProgress)
        ensures
            r.failed_zones() == Set::<Seq<char>>::empty(),
    {
        let r = PushProgress { failed: Vec::new() };
        assert(r.failed_zones() =~= Set::<Seq<char>>::empty());
        r
    }

    /// Whether a batch for `zone` is still to be sent: none is once a batch
    /// of that zone has failed.
    pub fn should_submit(&self, zone: &String) -> (r: bool)
        ensures
            r == !self.failed_zones().contains(zone@),
    {
        let mut i: usize = 0;
        while i < self.failed.len()
            invariant
                i <= self.failed@.len(),
                forall|j: int| 0 <= j < i ==> self.failed@[j]@ != zone@,
            decreases self.failed@.len() - i,
        {
            if self.failed[i] == *zone {
                assert(strs_view(self.failed@)[i as int] == zone@);
                return false;
            }
            i += 1;
        }
        proof {
            if strs_view(self.failed@).contains(zone@) {
                let j = choose|j: int| 0 <= j < self.failed@.len() && strs_view(self.failed@)[j] == zone@;
                assert(self.failed@[j]@ == zone@);
            }
        }
        true
    }

    /// Notes the outcome of a batch for `zone`.
    pub fn record(&mut self, zone: &String, ok: bool)
        ensures
            final(self).failed_zones() == if ok {
                old(self).failed_zones()
            } else {
                old(self).failed_zones().insert(zone@)
            },
    {
        if !ok {
            let ghost before = strs_view(self.failed@);
            self.failed.push(zone.clone());
            assert(strs_view(self.failed@) =~= before.push(zone@));
            assert(self.failed_zones() =~= before.to_set().insert(zone@)) by {
                assert forall|x: Seq<char>| #[trigger] before.push(zone@).contains(x) <==> before.contains(x) || x == zone@ by {
                    if before.push(zone@).contains(x) && x != zone@ {
                        let j = choose|j: int| 0 <= j < before.len() + 1 && before.push(zone@)[j] == x;
                        assert(before[j] == x);
                    }
                    if before.contains(x) {
                        let j = choose|j: int| 0 <= j < before.len() && before[j] == x;
                        assert(before.push(zone@)[j] == x);
                    }
                    if x == zone@ {
                        assert(before.push(zone@)[before.len() as int] == x);
                    }
                }
            }
        }
    }

    /// The run succeeded when no batch failed.
    pub fn succeeded(&self) -> (r: bool)
        ensures
            r == (self.failed_zones() == Set::<Seq<char>>::empty()),
    {
        proof {
            if self.failed@.len() > 0 {
                assert(strs_view(self.failed@).contains(self.failed@[0]@)) by {
                    assert(strs_view(self.failed@)[0] == self.failed@[0]@);
                }
                assert(self.failed_zones().contains(self.failed@[0]@));
            } else {
                assert(self.failed_zones() =~= Set::<Seq<char>>::empty());
            }
        }
        self.failed.len() == 0
    }
}

} // verus!
