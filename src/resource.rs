//! Resources (records bound to a zone), their order-insensitive equality,
//! and the keyed index that merges them.
use crate::text::{chars_of, lower_char, string_of, trim_end, trim_end_len};
use crate::tinydns::{opt_text, recs_view, zone_id_for, TinyDNSRecord, TinyRec};
use crate::Zone;
use vstd::prelude::*;

verus! {

broadcast use vstd::seq_lib::group_to_multiset_ensures;

/// DNS data with a zone attached; `records` holds the rdata values.
#[derive(Debug)]
pub struct Resource {
    pub zone_id: String,
    pub name: String,
    pub rtype: String,
    pub records: Vec<String>,
    pub ttl: i64,
}

/// The mathematical content of a [`Resource`].
pub struct ResourceV {
    pub zone_id: Seq<char>,
    pub name: Seq<char>,
    pub rtype: Seq<char>,
    pub values: Seq<Seq<char>>,
    pub ttl: i64,
}

/// The views of a sequence of strings.
pub open spec fn strs_view(v: Seq<String>) -> Seq<Seq<char>> {
    v.map_values(|s: String| s@)
}

/// The views of a sequence of resources.
pub open spec fn res_views(v: Seq<Resource>) -> Seq<ResourceV> {
    v.map_values(|r: Resource| r@)
}

impl View for Resource {
    type V = ResourceV;

    open spec fn view(&self) -> ResourceV {
        ResourceV {
            zone_id: self.zone_id@,
            name: self.name@,
            rtype: self.rtype@,
            values: strs_view(self.records@),
            ttl: self.ttl,
        }
    }
}

/// Resources are equal when all fields agree and the values agree as a
/// multiset: their order does not count.
pub open spec fn same_resource(a: ResourceV, b: ResourceV) -> bool {
    &&& a.zone_id == b.zone_id
    &&& a.name == b.name
    &&& a.rtype == b.rtype
    &&& a.values.to_multiset() == b.values.to_multiset()
    &&& a.ttl == b.ttl
}

/// How many elements of `v` equal `x`.
fn count_of(v: &Vec<String>, x: &String) -> (r: usize)
    ensures
        r == strs_view(v@).to_multiset().count(x@),
{
    let mut n: usize = 0;
    let mut i: usize = 0;
    while i < v.len()
        invariant
            i <= v@.len(),
            n <= i,
            n == strs_view(v@).subrange(0, i as int).to_multiset().count(x@),
        decreases v@.len() - i,
    {
        assert(strs_view(v@).subrange(0, i + 1) =~= strs_view(v@).subrange(0, i as int).push(
            v@[i as int]@,
        ));
        if v[i] == *x {
            n += 1;
        }
        i += 1;
    }
    assert(strs_view(v@).subrange(0, v@.len() as int) =~= strs_view(v@));
    n
}

/// Whether `a` and `b` hold the same values, counted with multiplicity.
fn same_values(a: &Vec<String>, b: &Vec<String>) -> (r: bool)
    ensures
        r == (strs_view(a@).to_multiset() == strs_view(b@).to_multiset()),
{
    let ghost ma = strs_view(a@).to_multiset();
    let ghost mb = strs_view(b@).to_multiset();
    let mut i: usize = 0;
    while i < a.len()
        invariant
            i <= a@.len(),
            ma == strs_view(a@).to_multiset(),
            mb == strs_view(b@).to_multiset(),
            forall|j: int| 0 <= j < i ==> ma.count(#[trigger] a@[j]@) == mb.count(a@[j]@),
        decreases a@.len() - i,
    {
        let ca = count_of(a, &a[i]);
        let cb = count_of(b, &a[i]);
        if ca != cb {
            return false;
        }
        assert(ma.count(a@[i as int]@) == mb.count(a@[i as int]@));
        i += 1;
    }
    let mut i: usize = 0;
    while i < b.len()
        invariant
            i <= b@.len(),
            ma == strs_view(a@).to_multiset(),
            mb == strs_view(b@).to_multiset(),
            forall|j: int| 0 <= j < a@.len() ==> ma.count(#[trigger] a@[j]@) == mb.count(a@[j]@),
            forall|j: int| 0 <= j < i ==> ma.count(#[trigger] b@[j]@) == mb.count(b@[j]@),
        decreases b@.len() - i,
    {
        let ca = count_of(a, &b[i]);
        let cb = count_of(b, &b[i]);
        if ca != cb {
            return false;
        }
        assert(ma.count(b@[i as int]@) == mb.count(b@[i as int]@));
        i += 1;
    }
    assert forall|x: Seq<char>| ma.count(x) == mb.count(x) by {
        if ma.count(x) > 0 {
            assert(strs_view(a@).contains(x));
            let j = choose|j: int| 0 <= j < strs_view(a@).len() && strs_view(a@)[j] == x;
            assert(a@[j]@ == x);
        } else if mb.count(x) > 0 {
            assert(strs_view(b@).contains(x));
            let j = choose|j: int| 0 <= j < strs_view(b@).len() && strs_view(b@)[j] == x;
            assert(b@[j]@ == x);
        }
    }
    assert(ma =~= mb);
    true
}

/// A copy of the strings of `v`.
fn copy_strings(v: &Vec<String>) -> (r: Vec<String>)
    ensures
        r@.len() == v@.len(),
        strs_view(r@) == strs_view(v@),
{
    let mut r: Vec<String> = Vec::new();
    let mut i: usize = 0;
    while i < v.len()
        invariant
            i <= v@.len(),
            r@.len() == i,
            strs_view(r@) == strs_view(v@).subrange(0, i as int),
        decreases v@.len() - i,
    {
        let c = v[i].clone();
        r.push(c);
        assert(strs_view(r@) =~= strs_view(v@).subrange(0, i + 1));
        i += 1;
    }
    assert(strs_view(v@).subrange(0, v@.len() as int) =~= strs_view(v@));
    r
}

impl PartialEq for Resource {
    fn eq(&self, other: &Self) -> (r: bool)
        ensures
            r == same_resource(self@, other@),
    {
        self.zone_id == other.zone_id && self.name == other.name && self.rtype == other.rtype
            && same_values(&self.records, &other.records) && self.ttl == other.ttl
    }
}

impl vstd::std_specs::cmp::PartialEqSpecImpl for Resource {
    open spec fn obeys_eq_spec() -> bool {
        true
    }

    open spec fn eq_spec(&self, other: &Resource) -> bool {
        same_resource(self@, other@)
    }
}

impl Eq for Resource {}

impl Resource {
    /// A copy with the same content.
    pub fn duplicate(&self) -> (r: Resource)
        ensures
            r@ == self@,
    {
        Resource {
            zone_id: self.zone_id.clone(),
            name: self.name.clone(),
            rtype: self.rtype.clone(),
            records: copy_strings(&self.records),
            ttl: self.ttl,
        }
    }

    /// Puts the values of `other` in front of this resource's own; fails,
    /// changing nothing, when the record types differ.
    pub fn merge(&mut self, other: &Self) -> (r: bool)
        ensures
            r == (old(self).rtype@ == other.rtype@),
            r ==> final(self)@ == (ResourceV {
                values: other@.values + old(self)@.values,
                ..old(self)@
            }),
            !r ==> final(self)@ == old(self)@,
    {
        if self.rtype != other.rtype {
            return false;
        }
        let mut newvec = copy_strings(&other.records);
        let mine = copy_strings(&self.records);
        let mut i: usize = 0;
        let ghost start = strs_view(newvec@);
        while i < mine.len()
            invariant
                i <= mine@.len(),
                start == strs_view(other.records@),
                newvec@.len() == start.len() + i,
                strs_view(newvec@) == start + strs_view(mine@).subrange(0, i as int),
            decreases mine@.len() - i,
        {
            let c = mine[i].clone();
            let ghost before = newvec@;
            newvec.push(c);
            assert(strs_view(newvec@) =~= strs_view(before).push(c@));
            assert(strs_view(mine@).subrange(0, i + 1) =~= strs_view(mine@).subrange(0, i as int).push(c@));
            assert(strs_view(newvec@) =~= start + strs_view(mine@).subrange(0, i + 1));
            i += 1;
        }
        assert(strs_view(mine@).subrange(0, mine@.len() as int) =~= strs_view(mine@));
        self.records = newvec;
        true
    }
}


/// No key occurs twice.
pub open spec fn unique_keys(ks: Seq<Seq<char>>) -> bool {
    forall|i: int, j: int| 0 <= i < ks.len() && 0 <= j < ks.len() && i != j ==> ks[i] != ks[j]
}

/// The map that pairs each key with the value at the same position.
pub open spec fn map_of(ks: Seq<Seq<char>>, vs: Seq<ResourceV>) -> Map<Seq<char>, ResourceV> {
    Map::new(|k: Seq<char>| ks.contains(k), |k: Seq<char>| vs[ks.index_of(k)])
}

pub proof fn lemma_map_of_at(ks: Seq<Seq<char>>, vs: Seq<ResourceV>, i: int)
    requires
        unique_keys(ks),
        0 <= i < ks.len(),
    ensures
        map_of(ks, vs).contains_key(ks[i]),
        map_of(ks, vs)[ks[i]] == vs[i],
{
    assert(ks.contains(ks[i]));
    let j = ks.index_of(ks[i]);
    assert(0 <= j < ks.len() && ks[j] == ks[i]);
}

/// Appending a fresh key adds one entry to the map.
pub proof fn lemma_map_of_push(ks: Seq<Seq<char>>, vs: Seq<ResourceV>, k: Seq<char>, v: ResourceV)
    requires
        unique_keys(ks),
        ks.len() == vs.len(),
        !ks.contains(k),
    ensures
        unique_keys(ks.push(k)),
        map_of(ks.push(k), vs.push(v)) == map_of(ks, vs).insert(k, v),
{
    assert forall|i: int, j: int|
        0 <= i < ks.len() + 1 && 0 <= j < ks.len() + 1 && i != j implies ks.push(k)[i]
        != ks.push(k)[j] by {
        if i == ks.len() {
            assert(ks.contains(ks[j]));
        } else if j == ks.len() {
            assert(ks.contains(ks[i]));
        }
    }
    assert forall|x: Seq<char>| #[trigger] map_of(ks.push(k), vs.push(v)).contains_key(x)
        implies map_of(ks.push(k), vs.push(v))[x] == map_of(ks, vs).insert(k, v)[x] by {
        let ks2 = ks.push(k);
        let i = choose|i: int| 0 <= i < ks2.len() && ks2[i] == x;
        lemma_map_of_at(ks2, vs.push(v), i);
        if i < ks.len() {
            lemma_map_of_at(ks, vs, i);
            assert(ks2[i] == ks[i]);
            assert(x != k) by {
                if x == k {
                    assert(ks.contains(k));
                }
            }
        }
    }
    assert forall|x: Seq<char>| #[trigger] map_of(ks, vs).insert(k, v).contains_key(x)
        implies map_of(ks.push(k), vs.push(v)).contains_key(x) by {
        if x != k {
            let i = choose|i: int| 0 <= i < ks.len() && ks[i] == x;
            assert(ks.push(k)[i] == x);
        } else {
            assert(ks.push(k)[ks.len() as int] == x);
        }
    }
    assert(map_of(ks.push(k), vs.push(v)) =~= map_of(ks, vs).insert(k, v));
}

/// The map of the first `i + 1` entries is that of the first `i` with entry `i` added.
pub proof fn lemma_map_of_prefix(ks: Seq<Seq<char>>, vs: Seq<ResourceV>, i: int)
    requires
        unique_keys(ks),
        ks.len() == vs.len(),
        0 <= i < ks.len(),
    ensures
        map_of(ks.subrange(0, i + 1), vs.subrange(0, i + 1)) == map_of(
            ks.subrange(0, i),
            vs.subrange(0, i),
        ).insert(ks[i], vs[i]),
{
    let kp = ks.subrange(0, i);
    assert(ks.subrange(0, i + 1) =~= kp.push(ks[i]));
    assert(vs.subrange(0, i + 1) =~= vs.subrange(0, i).push(vs[i]));
    assert(!kp.contains(ks[i])) by {
        if kp.contains(ks[i]) {
            let j = choose|j: int| 0 <= j < kp.len() && kp[j] == ks[i];
            assert(ks[j] == ks[i]);
        }
    }
    lemma_map_of_push(kp, vs.subrange(0, i), ks[i], vs[i]);
}

/// A map from derived keys to resources, kept in insertion order.
#[derive(Debug)]
pub struct ResHash {
    pub keys: Vec<String>,
    pub vals: Vec<Resource>,
}

impl ResHash {
    pub open spec fn key_seq(&self) -> Seq<Seq<char>> {
        strs_view(self.keys@)
    }

    pub open spec fn val_seq(&self) -> Seq<ResourceV> {
        res_views(self.vals@)
    }

    /// One value per key, and no key twice.
    pub open spec fn wf(&self) -> bool {
        &&& self.keys@.len() == self.vals@.len()
        &&& unique_keys(self.key_seq())
    }
}

impl View for ResHash {
    type V = Map<Seq<char>, ResourceV>;

    open spec fn view(&self) -> Map<Seq<char>, ResourceV> {
        map_of(self.key_seq(), self.val_seq())
    }
}

impl ResHash {
    /// A map with no entries.
    pub fn new() -> (r: ResHash)
        ensures
            r.wf(),
            r@ == Map::<Seq<char>, ResourceV>::empty(),
            r.key_seq().len() == 0,
    {
        let r = ResHash { keys: Vec::new(), vals: Vec::new() };
        assert(r@ =~= Map::<Seq<char>, ResourceV>::empty());
        r
    }

    /// Whether the map keeps its own rules: one value per key, no key twice.
    pub fn check_wf(&self) -> (r: bool)
        ensures
            r == self.wf(),
    {
        if self.keys.len() != self.vals.len() {
            return false;
        }
        let mut i: usize = 0;
        while i < self.keys.len()
            invariant
                i <= self.keys@.len(),
                forall|a: int, b: int| 0 <= a < i && 0 <= b < self.keys@.len() && a != b ==> self.key_seq()[a] != self.key_seq()[b],
            decreases self.keys@.len() - i,
        {
            let mut j: usize = 0;
            while j < self.keys.len()
                invariant
                    i < self.keys@.len(),
                    j <= self.keys@.len(),
                    forall|a: int, b: int| 0 <= a < i && 0 <= b < self.keys@.len() && a != b ==> self.key_seq()[a] != self.key_seq()[b],
                    forall|b: int| 0 <= b < j && b != i ==> self.key_seq()[i as int] != self.key_seq()[b],
                decreases self.keys@.len() - j,
            {
                if j != i && self.keys[i] == self.keys[j] {
                    assert(self.key_seq()[i as int] == self.key_seq()[j as int]);
                    return false;
                }
                j += 1;
            }
            i += 1;
        }
        true
    }

    /// The number of entries.
    pub fn len(&self) -> (n: usize)
        requires
            self.wf(),
        ensures
            n == self.key_seq().len(),
    {
        self.keys.len()
    }

    /// Where `key` stands, if it is present.
    pub fn find(&self, key: &String) -> (r: Option<usize>)
        requires
            self.wf(),
        ensures
            match r {
                Some(i) => i < self.key_seq().len() && self.key_seq()[i as int] == key@,
                None => !self@.contains_key(key@),
            },
    {
        let mut i: usize = 0;
        while i < self.keys.len()
            invariant
                self.wf(),
                i <= self.keys@.len(),
                forall|j: int| 0 <= j < i ==> self.key_seq()[j] != key@,
            decreases self.keys@.len() - i,
        {
            if self.keys[i] == *key {
                return Some(i);
            }
            i += 1;
        }
        proof {
            if self.key_seq().contains(key@) {
                let j = choose|j: int| 0 <= j < self.key_seq().len() && self.key_seq()[j] == key@;
                assert(self.key_seq()[j] != key@);
            }
        }
        None
    }

    /// The resource stored under `key`.
    pub fn get(&self, key: &String) -> (r: Option<&Resource>)
        requires
            self.wf(),
        ensures
            match r {
                Some(v) => self@.contains_key(key@) && v@ == self@[key@],
                None => !self@.contains_key(key@),
            },
    {
        match self.find(key) {
            Some(i) => {
                proof {
                    lemma_map_of_at(self.key_seq(), self.val_seq(), i as int);
                }
                Some(&self.vals[i])
            },
            None => None,
        }
    }

    /// Adds an entry under a key that is not present yet.
    pub fn push_new(&mut self, key: String, res: Resource)
        requires
            old(self).wf(),
            !old(self)@.contains_key(key@),
        ensures
            final(self).wf(),
            final(self)@ == old(self)@.insert(key@, res@),
            final(self).key_seq() == old(self).key_seq().push(key@),
            final(self).val_seq() == old(self).val_seq().push(res@),
    {
        let ghost ks = self.key_seq();
        let ghost vs = self.val_seq();
        let ghost k = key@;
        let ghost v = res@;
        self.keys.push(key);
        self.vals.push(res);
        assert(self.key_seq() =~= ks.push(k));
        assert(self.val_seq() =~= vs.push(v));
        proof {
            lemma_map_of_push(ks, vs, k, v);
        }
        assert(self@ =~= old(self)@.insert(key@, res@));
    }

    /// Stores `res` under `key`, replacing what was there.
    pub fn insert(&mut self, key: String, res: Resource)
        requires
            old(self).wf(),
        ensures
            final(self).wf(),
            final(self)@ == old(self)@.insert(key@, res@),
    {
        match self.find(&key) {
            Some(i) => self.set_at(i, res),
            None => self.push_new(key, res),
        }
    }

    /// Replaces the resource at position `i`, keeping its key.
    pub fn set_at(&mut self, i: usize, res: Resource)
        requires
            old(self).wf(),
            i < old(self).key_seq().len(),
        ensures
            final(self).wf(),
            final(self)@ == old(self)@.insert(old(self).key_seq()[i as int], res@),
            final(self).key_seq() == old(self).key_seq(),
            final(self).val_seq() == old(self).val_seq().update(i as int, res@),
    {
        let ghost ks = self.key_seq();
        let ghost vs = self.val_seq();
        let ghost v = res@;
        self.vals.set(i, res);
        assert(self.val_seq() =~= vs.update(i as int, v));
        assert forall|x: Seq<char>| #[trigger] map_of(ks, vs.update(i as int, v)).contains_key(x)
            implies map_of(ks, vs.update(i as int, v))[x] == map_of(ks, vs).insert(
            ks[i as int],
            v,
        )[x] by {
            let j = choose|j: int| 0 <= j < ks.len() && ks[j] == x;
            lemma_map_of_at(ks, vs.update(i as int, v), j);
            lemma_map_of_at(ks, vs, j);
        }
        assert forall|x: Seq<char>| #[trigger] map_of(ks, vs).insert(ks[i as int], v).contains_key(
            x,
        ) implies map_of(ks, vs.update(i as int, v)).contains_key(x) by {
            if x == ks[i as int] {
                assert(ks.contains(x));
            }
        }
        assert(self@ =~= old(self)@.insert(ks[i as int], v));
    }
}

/// `s` with every `.` turned into `-` and ASCII letters lowered.
pub open spec fn key_chars(s: Seq<char>) -> Seq<char> {
    s.map_values(|c: char| lower_char(if c == '.' { '-' } else { c }))
}

/// The index key of a record: `{rtype}-{name}` without trailing dots, dots
/// replaced by dashes, in lower case.
pub open spec fn key_text(rtype: Seq<char>, name: Seq<char>) -> Seq<char> {
    key_chars(trim_end(rtype + seq!['-'] + name, '.'))
}

pub open spec fn res_key(r: ResourceV) -> Seq<char> {
    key_text(r.rtype, r.name)
}

fn key_char(c: char) -> (r: char)
    ensures
        r == lower_char(if c == '.' { '-' } else { c }),
{
    let d = if c == '.' { '-' } else { c };
    if 'A' <= d && d <= 'Z' {
        ((d as u8) + 32u8) as char
    } else {
        d
    }
}

/// The index key of a record with type `rtype` and owner `name`.
pub fn record_key(rtype: &String, name: &String) -> (r: String)
    ensures
        r@ == key_text(rtype@, name@),
{
    let mut raw = chars_of(rtype.as_str());
    raw.push('-');
    let nm = chars_of(name.as_str());
    crate::text::extend_chars(&mut raw, nm.as_slice());
    assert(raw@ =~= rtype@ + seq!['-'] + name@);
    let n = trim_end_len(raw.as_slice(), '.');
    let ghost t = raw@.subrange(0, n as int);
    let mut out: Vec<char> = Vec::new();
    let mut i: usize = 0;
    while i < n
        invariant
            i <= n <= raw@.len(),
            t == raw@.subrange(0, n as int),
            out@ == key_chars(t.subrange(0, i as int)),
        decreases n - i,
    {
        out.push(key_char(raw[i]));
        assert(key_chars(t.subrange(0, i + 1)) =~= key_chars(t.subrange(0, i as int)).push(
            key_char_spec(t[i as int]),
        ));
        i += 1;
    }
    assert(t.subrange(0, n as int) =~= t);
    assert(out@ == key_text(rtype@, name@));
    string_of(out.as_slice())
}

pub open spec fn key_char_spec(c: char) -> char {
    lower_char(if c == '.' { '-' } else { c })
}


/// Two records under one key make the index fail when the later one is a
/// PTR, or when their types differ.
pub open spec fn index_fails(rs: Seq<ResourceV>) -> bool {
    exists|i: int, j: int|
        0 <= i < j < rs.len() && #[trigger] res_key(rs[i]) == #[trigger] res_key(rs[j]) && (
        rs[j].rtype == "PTR"@ || rs[i].rtype != rs[j].rtype)
}

/// `r` with the values of `earlier` in front of its own.
pub open spec fn merged(earlier: ResourceV, r: ResourceV) -> ResourceV {
    ResourceV { values: earlier.values + r.values, ..r }
}

/// The index of a sequence of resources: each key holds the last resource
/// under it, carrying the values of all of them in order.
pub open spec fn index_map(rs: Seq<ResourceV>) -> Map<Seq<char>, ResourceV>
    decreases rs.len(),
{
    if rs.len() == 0 {
        Map::empty()
    } else {
        let m = index_map(rs.drop_last());
        let r = rs.last();
        let k = res_key(r);
        if m.contains_key(k) {
            m.insert(k, merged(m[k], r))
        } else {
            m.insert(k, r)
        }
    }
}

proof fn lemma_fails_step(rs: Seq<ResourceV>, i: int)
    requires
        0 <= i < rs.len(),
    ensures
        index_fails(rs.subrange(0, i + 1)) <==> (index_fails(rs.subrange(0, i)) || exists|l: int|
            0 <= l < i && #[trigger] res_key(rs[l]) == res_key(rs[i]) && (rs[i].rtype == "PTR"@
                || rs[l].rtype != rs[i].rtype)),
{
    let pre = rs.subrange(0, i);
    let post = rs.subrange(0, i + 1);
    if index_fails(post) {
        let (a, b) = choose|a: int, b: int|
            0 <= a < b < post.len() && #[trigger] res_key(post[a]) == #[trigger] res_key(post[b])
                && (post[b].rtype == "PTR"@ || post[a].rtype != post[b].rtype);
        if b < i {
            assert(res_key(pre[a]) == res_key(pre[b]));
        } else {
            assert(res_key(rs[a]) == res_key(rs[i]));
        }
    }
    if index_fails(pre) {
        let (a, b) = choose|a: int, b: int|
            0 <= a < b < pre.len() && #[trigger] res_key(pre[a]) == #[trigger] res_key(pre[b])
                && (pre[b].rtype == "PTR"@ || pre[a].rtype != pre[b].rtype);
        assert(res_key(post[a]) == res_key(post[b]));
    }
    if exists|l: int|
        0 <= l < i && #[trigger] res_key(rs[l]) == res_key(rs[i]) && (rs[i].rtype == "PTR"@
            || rs[l].rtype != rs[i].rtype) {
        let l = choose|l: int|
            0 <= l < i && #[trigger] res_key(rs[l]) == res_key(rs[i]) && (rs[i].rtype == "PTR"@
                || rs[l].rtype != rs[i].rtype);
        assert(res_key(post[l]) == res_key(post[i]));
    }
}

/// Builds the index of `records`; `None` when [`index_fails`] holds.
pub fn build_reshash(records: Vec<Resource>) -> (r: Option<ResHash>)
    ensures
        r is None <==> index_fails(res_views(records@)),
        r matches Some(h) ==> h.wf() && h@ == index_map(res_views(records@)),
{
    let ghost rs = res_views(records@);
    let mut hash = ResHash::new();
    let mut err = false;
    let ptr = String::from_str("PTR");
    let mut i: usize = 0;
    while i < records.len()
        invariant
            rs == res_views(records@),
            ptr@ == "PTR"@,
            hash.wf(),
            i <= records@.len(),
            err == index_fails(rs.subrange(0, i as int)),
            forall|k: Seq<char>|
                hash@.contains_key(k) <==> exists|l: int| 0 <= l < i && #[trigger] res_key(rs[l]) == k,
            !err ==> hash@ == index_map(rs.subrange(0, i as int)),
            !err ==> forall|l: int|
                0 <= l < i ==> hash@[#[trigger] res_key(rs[l])].rtype == rs[l].rtype,
        decreases records@.len() - i,
    {
        let mut rec = records[i].duplicate();
        let key = record_key(&rec.rtype, &rec.name);
        let ghost r = rs[i as int];
        let ghost k = res_key(r);
        let ghost old_hash = hash@;
        let ghost old_err = err;
        let ghost pre = rs.subrange(0, i as int);
        let ghost post = rs.subrange(0, i + 1);
        proof {
            assert(post.drop_last() =~= pre);
            assert(post.last() == r);
            lemma_fails_step(rs, i as int);
        }
        match hash.find(&key) {
            Some(idx) => {
                proof {
                    lemma_map_of_at(hash.key_seq(), hash.val_seq(), idx as int);
                }
                let ghost earlier = hash@[k];
                if rec.rtype == ptr {
                    err = true;
                } else {
                    let ok = rec.merge(&hash.vals[idx]);
                    if !ok {
                        err = true;
                    }
                }
                hash.set_at(idx, rec);
                proof {
                    assert(old_hash.contains_key(k));
                    let w = choose|l: int| 0 <= l < i && #[trigger] res_key(rs[l]) == k;
                    if !old_err {
                        assert(rs[w].rtype == earlier.rtype);
                        if err {
                            assert(res_key(rs[w]) == res_key(rs[i as int]));
                        } else {
                            assert forall|l: int|
                                0 <= l < i && #[trigger] res_key(rs[l]) == res_key(rs[i as int])
                                    implies !(rs[i as int].rtype == "PTR"@ || rs[l].rtype
                                    != rs[i as int].rtype) by {
                                assert(old_hash[res_key(rs[l])].rtype == rs[l].rtype);
                            }
                        }
                    }
                    assert forall|x: Seq<char>|
                        hash@.contains_key(x) <==> exists|l: int|
                            0 <= l < i + 1 && #[trigger] res_key(rs[l]) == x by {
                        if old_hash.contains_key(x) {
                            let l = choose|l: int| 0 <= l < i && #[trigger] res_key(rs[l]) == x;
                            assert(0 <= l < i + 1 && res_key(rs[l]) == x);
                        }
                    }
                }
            },
            None => {
                proof {
                    assert forall|l: int|
                        0 <= l < i && #[trigger] res_key(rs[l]) == res_key(rs[i as int]) implies false by {
                        assert(old_hash.contains_key(res_key(rs[l])));
                    }
                }
                hash.push_new(key, rec);
                proof {
                    assert forall|x: Seq<char>|
                        hash@.contains_key(x) <==> exists|l: int|
                            0 <= l < i + 1 && #[trigger] res_key(rs[l]) == x by {
                        if old_hash.contains_key(x) {
                            let l = choose|l: int| 0 <= l < i && #[trigger] res_key(rs[l]) == x;
                            assert(0 <= l < i + 1 && res_key(rs[l]) == x);
                        }
                        if x == k {
                            assert(res_key(rs[i as int]) == x);
                        }
                    }
                }
            },
        }
        i += 1;
    }
    assert(rs.subrange(0, rs.len() as int) =~= rs);
    if err {
        None
    } else {
        Some(hash)
    }
}


/// A parsed record bound to `zone`: its name loses any trailing dots and its
/// target becomes the only value.
pub open spec fn to_resource(t: TinyRec, zone: Seq<char>) -> ResourceV {
    ResourceV {
        zone_id: zone,
        name: trim_end(t.fqdn, '.'),
        rtype: t.rtype,
        values: seq![t.target],
        ttl: t.ttl as i64,
    }
}

/// The resources of the records that some zone takes, in order; records
/// that no zone takes are left out.
pub open spec fn canonical(ts: Seq<TinyRec>, zones: Seq<Zone>) -> Seq<ResourceV>
    decreases ts.len(),
{
    if ts.len() == 0 {
        Seq::empty()
    } else {
        let p = canonical(ts.drop_last(), zones);
        match zone_id_for(ts.last().fqdn, zones) {
            Some(z) => p.push(to_resource(ts.last(), z)),
            None => p,
        }
    }
}

fn trimmed_name(s: &String) -> (r: String)
    ensures
        r@ == trim_end(s@, '.'),
{
    let cs = chars_of(s.as_str());
    let n = trim_end_len(cs.as_slice(), '.');
    let t = crate::text::sub_chars(cs.as_slice(), 0, n);
    string_of(t.as_slice())
}

/// Binds each record to its zone (see [`TinyDNSRecord::find_zone_id`]),
/// dropping those that no zone takes; that is no error, so the result is
/// never `None`.
pub fn vec_from_tiny(records: &Vec<TinyDNSRecord>, zones: &Vec<Zone>) -> (r: Option<Vec<Resource>>)
    ensures
        r matches Some(v) && res_views(v@) == canonical(recs_view(records@), zones@),
{
    let ghost ts = recs_view(records@);
    let mut out: Vec<Resource> = Vec::new();
    let mut i: usize = 0;
    while i < records.len()
        invariant
            ts == recs_view(records@),
            i <= records@.len(),
            res_views(out@) == canonical(ts.subrange(0, i as int), zones@),
        decreases records@.len() - i,
    {
        let rec = &records[i];
        assert(ts.subrange(0, i + 1).drop_last() =~= ts.subrange(0, i as int));
        assert(ts.subrange(0, i + 1).last() == rec@);
        match rec.find_zone_id(zones) {
            Some(z) => {
                let mut vals: Vec<String> = Vec::new();
                vals.push(rec.target.clone());
                let res = Resource {
                    zone_id: z,
                    name: trimmed_name(&rec.fqdn),
                    rtype: rec.rtype.clone(),
                    records: vals,
                    ttl: rec.ttl as i64,
                };
                assert(strs_view(vals@) =~= seq![rec.target@]);
                let ghost before = res_views(out@);
                out.push(res);
                assert(res_views(out@) =~= before.push(res@));
            },
            None => {},
        }
        i += 1;
    }
    assert(ts.subrange(0, ts.len() as int) =~= ts);
    Some(out)
}

/// A record set as the provider lists it, as a resource of `zone`: the
/// name loses any trailing dots and a missing TTL is 300.
pub fn remote_resource(
    zone: &String,
    name: &String,
    rtype: &String,
    ttl: Option<i64>,
    values: Vec<String>,
) -> (r: Resource)
    ensures
        r@ == (ResourceV {
            zone_id: zone@,
            name: trim_end(name@, '.'),
            rtype: rtype@,
            values: strs_view(values@),
            ttl: match ttl {
                Some(t) => t,
                None => 300,
            },
        }),
{
    Resource {
        zone_id: zone.clone(),
        name: trimmed_name(name),
        rtype: rtype.clone(),
        records: values,
        ttl: match ttl {
            Some(t) => t,
            None => 300,
        },
    }
}

/// Binds records to zones and builds their index in one step; `None` when
/// the index fails (see [`index_fails`]).
pub fn tiny_to_macrotis(tdrs: Vec<TinyDNSRecord>, zones: &Vec<Zone>) -> (r: Option<ResHash>)
    ensures
        r is None <==> index_fails(canonical(recs_view(tdrs@), zones@)),
        r matches Some(h) ==> h.wf() && h@ == index_map(canonical(recs_view(tdrs@), zones@)),
{
    match vec_from_tiny(&tdrs, zones) {
        Some(v) => build_reshash(v),
        None => None,
    }
}

/// The resources of `hsh`, in its order.
pub fn hash_to_vec(hsh: ResHash) -> (r: Vec<Resource>)
    requires
        hsh.wf(),
    ensures
        res_views(r@) == hsh.val_seq(),
        r@.len() == hsh.key_seq().len(),
        forall|i: int| 0 <= i < r@.len() ==> hsh@[hsh.key_seq()[i]] == #[trigger] r@[i]@,
{
    proof {
        assert forall|i: int| 0 <= i < hsh.vals@.len() implies hsh@[hsh.key_seq()[i]]
            == #[trigger] hsh.vals@[i]@ by {
            lemma_map_of_at(hsh.key_seq(), hsh.val_seq(), i);
        }
    }
    hsh.vals
}


/// `p` lists each position below `n` exactly once.
pub open spec fn is_permutation(p: Seq<int>, n: int) -> bool {
    &&& p.len() == n
    &&& forall|i: int| 0 <= i < n ==> 0 <= #[trigger] p[i] < n
    &&& forall|i: int, j: int| 0 <= i < j < n ==> #[trigger] p[i] != #[trigger] p[j]
}

/// The values of `v` in the order that `p` gives.
pub open spec fn permuted(v: Seq<Seq<char>>, p: Seq<int>) -> Seq<Seq<char>> {
    p.map_values(|i: int| v[i])
}

proof fn lemma_permuted_multiset(v: Seq<Seq<char>>, p: Seq<int>)
    requires
        is_permutation(p, v.len() as int),
    ensures
        permuted(v, p).to_multiset() == v.to_multiset(),
    decreases v.len(),
{
    let n = v.len() as int;
    let t = permuted(v, p);
    if n == 0 {
        assert(t =~= v);
    } else {
        let q = p[n - 1];
        let v2 = v.remove(q);
        let p2 = p.drop_last().map_values(|i: int| if i < q { i } else { i - 1 });
        assert forall|i: int| 0 <= i < n - 1 implies 0 <= #[trigger] p2[i] < n - 1 by {
            assert(p[i] != p[n - 1]);
        }
        assert forall|i: int, j: int| 0 <= i < j < n - 1 implies #[trigger] p2[i] != #[trigger] p2[j] by {
            assert(p[i] != p[n - 1]);
            assert(p[j] != p[n - 1]);
            assert(p[i] != p[j]);
        }
        lemma_permuted_multiset(v2, p2);
        assert(permuted(v2, p2) =~= t.drop_last()) by {
            assert forall|i: int| 0 <= i < n - 1 implies #[trigger] permuted(v2, p2)[i] == t.drop_last()[i] by {
                assert(p[i] != p[n - 1]);
            }
        }
        assert(t =~= t.drop_last().push(v[q]));
        assert(v.to_multiset().count(v[q]) > 0) by {
            assert(v.contains(v[q]));
        }
        assert(v.to_multiset().remove(v[q]).insert(v[q]) =~= v.to_multiset());
    }
}

/// Reordering the values of a resource leaves it equal to itself.
pub proof fn lemma_values_order_free(r: ResourceV, p: Seq<int>)
    requires
        is_permutation(p, r.values.len() as int),
    ensures
        same_resource(r, ResourceV { values: permuted(r.values, p), ..r }),
{
    lemma_permuted_multiset(r.values, p);
}

/// Two PTR resources of one name make the index fail, whatever stands
/// around them.
pub proof fn lemma_duplicate_ptr_fails(rs: Seq<ResourceV>, i: int, j: int)
    requires
        0 <= i < j < rs.len(),
        rs[i].rtype == "PTR"@,
        rs[j].rtype == "PTR"@,
        rs[i].name == rs[j].name,
    ensures
        index_fails(rs),
{
    assert(res_key(rs[i]) == res_key(rs[j]));
}

pub proof fn lemma_canonical_concat(a: Seq<TinyRec>, b: Seq<TinyRec>, zones: Seq<Zone>)
    ensures
        canonical(a + b, zones) == canonical(a, zones) + canonical(b, zones),
    decreases b.len(),
{
    if b.len() == 0 {
        assert(a + b =~= a);
        assert(canonical(a, zones) + canonical(b, zones) =~= canonical(a, zones));
    } else {
        assert((a + b).drop_last() =~= a + b.drop_last());
        lemma_canonical_concat(a, b.drop_last(), zones);
        match zone_id_for(b.last().fqdn, zones) {
            Some(z) => {
                assert(canonical(a, zones) + canonical(b, zones) =~= (canonical(a, zones) + canonical(
                    b.drop_last(),
                    zones,
                )).push(to_resource(b.last(), z)));
            },
            None => {},
        }
    }
}

} // verus!
