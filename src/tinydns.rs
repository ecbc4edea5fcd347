//! The parser's record type and zone attachment.
use crate::text::{chars_of, contains_infix, has_infix, int_text, push_chars, push_int};
use crate::Zone;
use vstd::prelude::*;

verus! {

/// One DNS record as a tinydns line describes it.
#[derive(Debug)]
pub struct TinyDNSRecord {
    pub rtype: String,
    pub fqdn: String,
    pub target: String,
    pub ttl: i32,
}

/// The mathematical content of a [`TinyDNSRecord`].
pub struct TinyRec {
    pub rtype: Seq<char>,
    pub fqdn: Seq<char>,
    pub target: Seq<char>,
    pub ttl: i32,
}

impl View for TinyDNSRecord {
    type V = TinyRec;

    open spec fn view(&self) -> TinyRec {
        TinyRec { rtype: self.rtype@, fqdn: self.fqdn@, target: self.target@, ttl: self.ttl }
    }
}

/// Two records are the same record whatever their TTLs.
pub open spec fn same_record(a: TinyRec, b: TinyRec) -> bool {
    a.rtype == b.rtype && a.fqdn == b.fqdn && a.target == b.target
}

/// The views of a sequence of records.
pub open spec fn recs_view(v: Seq<TinyDNSRecord>) -> Seq<TinyRec> {
    v.map_values(|r: TinyDNSRecord| r@)
}

impl PartialEq for TinyDNSRecord {
    fn eq(&self, other: &Self) -> (r: bool)
        ensures
            r == same_record(self@, other@),
    {
        self.rtype == other.rtype && self.fqdn == other.fqdn && self.target == other.target
    }
}

impl vstd::std_specs::cmp::PartialEqSpecImpl for TinyDNSRecord {
    open spec fn obeys_eq_spec() -> bool {
        true
    }

    open spec fn eq_spec(&self, other: &TinyDNSRecord) -> bool {
        same_record(self@, other@)
    }
}

impl Eq for TinyDNSRecord {}

/// The domain of zone `j` occurs in `fqdn`.
pub open spec fn zone_matches(fqdn: Seq<char>, zones: Seq<Zone>, j: int) -> bool {
    has_infix(fqdn, zones[j].domain@)
}

/// Zone `i` matches `fqdn` with the longest domain of all matches, and no
/// earlier zone matches with a domain as long.
pub open spec fn best_zone(fqdn: Seq<char>, zones: Seq<Zone>, i: int) -> bool {
    &&& 0 <= i < zones.len()
    &&& zone_matches(fqdn, zones, i)
    &&& forall|j: int|
        0 <= j < zones.len() && #[trigger] zone_matches(fqdn, zones, j) ==> zones[j].domain@.len()
            <= zones[i].domain@.len() && (j < i ==> zones[j].domain@.len() < zones[i].domain@.len())
}

/// At most one zone is the best match.
pub proof fn lemma_best_zone_unique(fqdn: Seq<char>, zones: Seq<Zone>, i: int, j: int)
    requires
        best_zone(fqdn, zones, i),
        best_zone(fqdn, zones, j),
    ensures
        i == j,
{
    assert(zone_matches(fqdn, zones, i));
    assert(zone_matches(fqdn, zones, j));
}

/// The id of the zone that a record named `fqdn` belongs to, if any.
pub open spec fn zone_id_for(fqdn: Seq<char>, zones: Seq<Zone>) -> Option<Seq<char>> {
    if exists|i: int| best_zone(fqdn, zones, i) {
        Some(zones[choose|i: int| best_zone(fqdn, zones, i)].id@)
    } else {
        None
    }
}

pub open spec fn opt_text(r: Option<String>) -> Option<Seq<char>> {
    match r {
        Some(s) => Some(s@),
        None => None,
    }
}

impl TinyDNSRecord {
    /// A copy with the same content.
    pub fn duplicate(&self) -> (r: TinyDNSRecord)
        ensures
            r@ == self@,
    {
        TinyDNSRecord {
            rtype: self.rtype.clone(),
            fqdn: self.fqdn.clone(),
            target: self.target.clone(),
            ttl: self.ttl,
        }
    }

    /// The record in zone-file form: name, TTL, `IN`, type and target,
    /// separated by tabs.
    pub fn to_text(&self) -> (r: String)
        ensures
            r@ == self.fqdn@ + seq!['\t'] + int_text(self.ttl as int) + "\tIN\t"@ + self.rtype@
                + seq!['\t'] + self.target@,
    {
        let mut r = String::new();
        let name = chars_of(self.fqdn.as_str());
        push_chars(&mut r, name.as_slice());
        r.push('\t');
        push_int(&mut r, self.ttl as i64);
        r.append("\tIN\t");
        let t = chars_of(self.rtype.as_str());
        push_chars(&mut r, t.as_slice());
        r.push('\t');
        let g = chars_of(self.target.as_str());
        push_chars(&mut r, g.as_slice());
        assert(r@ =~= self.fqdn@ + seq!['\t'] + int_text(self.ttl as int) + "\tIN\t"@ + self.rtype@
            + seq!['\t'] + self.target@);
        r
    }

    /// The id of the zone whose domain is the longest one found in this
    /// record's name (the first such zone on a tie), or `None` if no domain is.
    pub fn find_zone_id(&self, zones: &Vec<Zone>) -> (r: Option<String>)
        ensures
            r is None <==> forall|j: int| 0 <= j < zones@.len() ==> !zone_matches(self.fqdn@, zones@, j),
            r is Some ==> exists|i: int| best_zone(self.fqdn@, zones@, i) && r->0@ == zones@[i].id@,
            opt_text(r) == zone_id_for(self.fqdn@, zones@),
    {
        let name = chars_of(self.fqdn.as_str());
        let mut best: Option<usize> = None;
        let mut best_len: usize = 0;
        let mut k: usize = 0;
        while k < zones.len()
            invariant
                k <= zones@.len(),
                name@ == self.fqdn@,
                best is None <==> forall|j: int| 0 <= j < k ==> !zone_matches(self.fqdn@, zones@, j),
                best is Some ==> ({
                    let i = best->0 as int;
                    &&& i < k
                    &&& best_len == zones@[i].domain@.len()
                    &&& zone_matches(self.fqdn@, zones@, i)
                    &&& forall|j: int|
                        0 <= j < k && #[trigger] zone_matches(self.fqdn@, zones@, j) ==> zones@[j].domain@.len()
                            <= best_len && (j < i ==> zones@[j].domain@.len() < best_len)
                }),
            decreases zones@.len() - k,
        {
            let dom = chars_of(zones[k].domain.as_str());
            if contains_infix(name.as_slice(), dom.as_slice()) {
                assert(zone_matches(self.fqdn@, zones@, k as int));
                if best.is_none() || dom.len() > best_len {
                    best = Some(k);
                    best_len = dom.len();
                }
            }
            k += 1;
        }
        match best {
            Some(i) => {
                assert(best_zone(self.fqdn@, zones@, i as int));
                proof {
                    let c = choose|c: int| best_zone(self.fqdn@, zones@, c);
                    lemma_best_zone_unique(self.fqdn@, zones@, i as int, c);
                }
                Some(zones[i].id.clone())
            },
            None => {
                assert(!exists|i: int| best_zone(self.fqdn@, zones@, i));
                None
            },
        }
    }
}

} // verus!
