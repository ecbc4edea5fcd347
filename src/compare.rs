//! The three-way comparison of local, state and remote resource maps.
use crate::resource::{
    lemma_map_of_at, lemma_map_of_prefix, map_of, same_resource, ResHash, ResourceV,
};
use vstd::prelude::*;

verus! {

/// The state once it agrees with the remote: keys missing remotely are
/// gone, and an entry that differs from the remote takes the remote's value.
pub open spec fn reconciled(
    st: Map<Seq<char>, ResourceV>,
    re: Map<Seq<char>, ResourceV>,
) -> Map<Seq<char>, ResourceV> {
    Map::new(
        |k: Seq<char>| st.contains_key(k) && re.contains_key(k),
        |k: Seq<char>|
            if same_resource(st[k], re[k]) {
                st[k]
            } else {
                re[k]
            },
    )
}

/// Local entries whose key the state lacks.
pub open spec fn added(
    lo: Map<Seq<char>, ResourceV>,
    st: Map<Seq<char>, ResourceV>,
) -> Map<Seq<char>, ResourceV> {
    Map::new(|k: Seq<char>| lo.contains_key(k) && !st.contains_key(k), |k: Seq<char>| lo[k])
}

/// Local entries that differ from the state's entry under the same key.
pub open spec fn changed(
    lo: Map<Seq<char>, ResourceV>,
    st: Map<Seq<char>, ResourceV>,
) -> Map<Seq<char>, ResourceV> {
    Map::new(
        |k: Seq<char>| lo.contains_key(k) && st.contains_key(k) && !same_resource(lo[k], st[k]),
        |k: Seq<char>| lo[k],
    )
}

/// State entries whose key is no longer local.
pub open spec fn removed(
    lo: Map<Seq<char>, ResourceV>,
    st: Map<Seq<char>, ResourceV>,
) -> Map<Seq<char>, ResourceV> {
    Map::new(|k: Seq<char>| st.contains_key(k) && !lo.contains_key(k), |k: Seq<char>| st[k])
}

/// A new entry that the remote holds with other content.
pub open spec fn forced(
    ne: Map<Seq<char>, ResourceV>,
    re: Map<Seq<char>, ResourceV>,
    k: Seq<char>,
) -> bool {
    ne.contains_key(k) && re.contains_key(k) && !same_resource(ne[k], re[k])
}

/// New entries that the remote does not hold yet.
pub open spec fn absorbed_new(
    ne: Map<Seq<char>, ResourceV>,
    re: Map<Seq<char>, ResourceV>,
) -> Map<Seq<char>, ResourceV> {
    Map::new(|k: Seq<char>| ne.contains_key(k) && !re.contains_key(k), |k: Seq<char>| ne[k])
}

/// The updates, with every forced new entry added as an update.
pub open spec fn absorbed_upd(
    ne: Map<Seq<char>, ResourceV>,
    up: Map<Seq<char>, ResourceV>,
    re: Map<Seq<char>, ResourceV>,
) -> Map<Seq<char>, ResourceV> {
    Map::new(
        |k: Seq<char>| up.contains_key(k) || forced(ne, re, k),
        |k: Seq<char>|
            if forced(ne, re, k) {
                ne[k]
            } else {
                up[k]
            },
    )
}

/// Corrects the state to what the remote holds: entries that differ take
/// the remote's value, entries the remote lacks are dropped; keys only the
/// remote has are not added.
pub fn state_remote(st: &mut ResHash, re: &ResHash)
    requires
        old(st).wf(),
        re.wf(),
    ensures
        final(st).wf(),
        final(st)@ == reconciled(old(st)@, re@),
{
    let ghost ks = st.key_seq();
    let ghost vs = st.val_seq();
    let mut out = ResHash::new();
    let mut i: usize = 0;
    while i < st.keys.len()
        invariant
            st.wf(),
            re.wf(),
            out.wf(),
            ks == st.key_seq(),
            vs == st.val_seq(),
            i <= ks.len(),
            out@ == reconciled(map_of(ks.subrange(0, i as int), vs.subrange(0, i as int)), re@),
        decreases ks.len() - i,
    {
        let ghost m = map_of(ks.subrange(0, i as int), vs.subrange(0, i as int));
        proof {
            lemma_map_of_prefix(ks, vs, i as int);
        }
        let ghost m2 = m.insert(ks[i as int], vs[i as int]);
        let key = &st.keys[i];
        let mine = &st.vals[i];
        match re.get(key) {
            Some(theirs) => {
                let keep = if *mine == *theirs {
                    mine.duplicate()
                } else {
                    theirs.duplicate()
                };
                assert(!out@.contains_key(key@)) by {
                    if m.contains_key(key@) {
                        let j = choose|j: int| 0 <= j < i && ks.subrange(0, i as int)[j] == key@;
                        assert(ks[j] == ks[i as int]);
                    }
                }
                out.push_new(key.clone(), keep);
                assert(out@ =~= reconciled(m2, re@));
            },
            None => {
                assert(out@ =~= reconciled(m2, re@));
            },
        }
        i += 1;
    }
    proof {
        assert(ks.subrange(0, ks.len() as int) =~= ks);
        assert(vs.subrange(0, vs.len() as int) =~= vs);
    }
    *st = out;
}


/// Splits the difference between local and state into the entries to
/// create, to update and to delete, in that order.
pub fn local_state(lo: &ResHash, st: &ResHash) -> (r: (ResHash, ResHash, ResHash))
    requires
        lo.wf(),
        st.wf(),
    ensures
        r.0.wf() && r.1.wf() && r.2.wf(),
        r.0@ == added(lo@, st@),
        r.1@ == changed(lo@, st@),
        r.2@ == removed(lo@, st@),
{
    let ghost ks = lo.key_seq();
    let ghost vs = lo.val_seq();
    let mut n = ResHash::new();
    let mut u = ResHash::new();
    let mut i: usize = 0;
    while i < lo.keys.len()
        invariant
            lo.wf(),
            st.wf(),
            n.wf(),
            u.wf(),
            ks == lo.key_seq(),
            vs == lo.val_seq(),
            i <= ks.len(),
            n@ == added(map_of(ks.subrange(0, i as int), vs.subrange(0, i as int)), st@),
            u@ == changed(map_of(ks.subrange(0, i as int), vs.subrange(0, i as int)), st@),
        decreases ks.len() - i,
    {
        let ghost m = map_of(ks.subrange(0, i as int), vs.subrange(0, i as int));
        proof {
            lemma_map_of_prefix(ks, vs, i as int);
        }
        let ghost m2 = m.insert(ks[i as int], vs[i as int]);
        let key = &lo.keys[i];
        let mine = &lo.vals[i];
        assert(!m.contains_key(key@)) by {
            if m.contains_key(key@) {
                let j = choose|j: int| 0 <= j < i && ks.subrange(0, i as int)[j] == key@;
                assert(ks[j] == ks[i as int]);
            }
        }
        match st.get(key) {
            Some(theirs) => {
                if *mine != *theirs {
                    u.push_new(key.clone(), mine.duplicate());
                }
            },
            None => {
                n.push_new(key.clone(), mine.duplicate());
            },
        }
        assert(n@ =~= added(m2, st@));
        assert(u@ =~= changed(m2, st@));
        i += 1;
    }
    proof {
        assert(ks.subrange(0, ks.len() as int) =~= ks);
        assert(vs.subrange(0, vs.len() as int) =~= vs);
    }
    let ghost sk = st.key_seq();
    let ghost sv = st.val_seq();
    let mut d = ResHash::new();
    let mut i: usize = 0;
    while i < st.keys.len()
        invariant
            lo.wf(),
            st.wf(),
            d.wf(),
            sk == st.key_seq(),
            sv == st.val_seq(),
            i <= sk.len(),
            d@ == removed(lo@, map_of(sk.subrange(0, i as int), sv.subrange(0, i as int))),
        decreases sk.len() - i,
    {
        let ghost m = map_of(sk.subrange(0, i as int), sv.subrange(0, i as int));
        proof {
            lemma_map_of_prefix(sk, sv, i as int);
        }
        let ghost m2 = m.insert(sk[i as int], sv[i as int]);
        let key = &st.keys[i];
        assert(!m.contains_key(key@)) by {
            if m.contains_key(key@) {
                let j = choose|j: int| 0 <= j < i && sk.subrange(0, i as int)[j] == key@;
                assert(sk[j] == sk[i as int]);
            }
        }
        match lo.find(key) {
            Some(_) => {},
            None => {
                d.push_new(key.clone(), st.vals[i].duplicate());
            },
        }
        assert(d@ =~= removed(lo@, m2));
        i += 1;
    }
    proof {
        assert(sk.subrange(0, sk.len() as int) =~= sk);
        assert(sv.subrange(0, sv.len() as int) =~= sv);
    }
    (n, u, d)
}

/// Checks the new entries against the remote: one the remote already holds
/// leaves `ne`, and becomes an update when the remote's content differs.
pub fn new_remote(ne: &mut ResHash, up: &mut ResHash, re: &ResHash)
    requires
        old(ne).wf(),
        old(up).wf(),
        re.wf(),
    ensures
        final(ne).wf(),
        final(up).wf(),
        final(ne)@ == absorbed_new(old(ne)@, re@),
        final(up)@ == absorbed_upd(old(ne)@, old(up)@, re@),
{
    let ghost ks = ne.key_seq();
    let ghost vs = ne.val_seq();
    let ghost up0 = up@;
    let mut keep = ResHash::new();
    let mut i: usize = 0;
    while i < ne.keys.len()
        invariant
            ne.wf(),
            up.wf(),
            re.wf(),
            keep.wf(),
            ks == ne.key_seq(),
            vs == ne.val_seq(),
            i <= ks.len(),
            keep@ == absorbed_new(map_of(ks.subrange(0, i as int), vs.subrange(0, i as int)), re@),
            up@ == absorbed_upd(map_of(ks.subrange(0, i as int), vs.subrange(0, i as int)), up0, re@),
        decreases ks.len() - i,
    {
        let ghost m = map_of(ks.subrange(0, i as int), vs.subrange(0, i as int));
        proof {
            lemma_map_of_prefix(ks, vs, i as int);
        }
        let ghost m2 = m.insert(ks[i as int], vs[i as int]);
        let key = &ne.keys[i];
        let mine = &ne.vals[i];
        assert(!m.contains_key(key@)) by {
            if m.contains_key(key@) {
                let j = choose|j: int| 0 <= j < i && ks.subrange(0, i as int)[j] == key@;
                assert(ks[j] == ks[i as int]);
            }
        }
        match re.get(key) {
            Some(theirs) => {
                if *mine != *theirs {
                    up.insert(key.clone(), mine.duplicate());
                }
            },
            None => {
                keep.push_new(key.clone(), mine.duplicate());
            },
        }
        assert(keep@ =~= absorbed_new(m2, re@));
        assert(up@ =~= absorbed_upd(m2, up0, re@));
        i += 1;
    }
    proof {
        assert(ks.subrange(0, ks.len() as int) =~= ks);
        assert(vs.subrange(0, vs.len() as int) =~= vs);
    }
    *ne = keep;
}


/// The entries to create, update and delete for a run: the state is first
/// corrected against the remote, then compared with local, and the new
/// entries are checked against the remote.
pub open spec fn change_sets(
    lo: Map<Seq<char>, ResourceV>,
    st: Map<Seq<char>, ResourceV>,
    re: Map<Seq<char>, ResourceV>,
) -> (Map<Seq<char>, ResourceV>, Map<Seq<char>, ResourceV>, Map<Seq<char>, ResourceV>) {
    let s = reconciled(st, re);
    let n = added(lo, s);
    (absorbed_new(n, re), absorbed_upd(n, changed(lo, s), re), removed(lo, s))
}

/// Runs the whole comparison: corrects `st` against `re`, then returns the
/// entries to create, update and delete to bring the remote to `lo`.
pub fn compute_changes(lo: &ResHash, st: &mut ResHash, re: &ResHash) -> (r: (
    ResHash,
    ResHash,
    ResHash,
))
    requires
        lo.wf(),
        old(st).wf(),
        re.wf(),
    ensures
        final(st).wf(),
        final(st)@ == reconciled(old(st)@, re@),
        r.0.wf() && r.1.wf() && r.2.wf(),
        (r.0@, r.1@, r.2@) == change_sets(lo@, old(st)@, re@),
{
    state_remote(st, re);
    let (mut n, mut u, d) = local_state(lo, st);
    new_remote(&mut n, &mut u, re);
    (n, u, d)
}

/// The three change sets never share a key, and every update is either a
/// key of the corrected state or one the remote holds.
pub proof fn lemma_change_sets_disjoint(
    lo: Map<Seq<char>, ResourceV>,
    st: Map<Seq<char>, ResourceV>,
    re: Map<Seq<char>, ResourceV>,
)
    ensures
        ({
            let (n, u, d) = change_sets(lo, st, re);
            &&& n.dom().disjoint(u.dom())
            &&& n.dom().disjoint(d.dom())
            &&& u.dom().disjoint(d.dom())
            &&& forall|k: Seq<char>| #[trigger]
                u.contains_key(k) ==> reconciled(st, re).contains_key(k) || re.contains_key(k)
        }),
{
}

/// The remote once the change sets are applied: deleted keys are gone,
/// created and updated keys hold the new content.
pub open spec fn applied(
    re: Map<Seq<char>, ResourceV>,
    n: Map<Seq<char>, ResourceV>,
    u: Map<Seq<char>, ResourceV>,
    d: Map<Seq<char>, ResourceV>,
) -> Map<Seq<char>, ResourceV> {
    Map::new(
        |k: Seq<char>| (re.contains_key(k) && !d.contains_key(k)) || n.contains_key(k) || u.contains_key(
            k,
        ),
        |k: Seq<char>|
            if u.contains_key(k) {
                u[k]
            } else if n.contains_key(k) {
                n[k]
            } else {
                re[k]
            },
    )
}

/// Once a run's changes are applied and local is saved as the state, a
/// second run with the same local input finds nothing to do.
pub proof fn lemma_rerun_is_quiet(
    lo: Map<Seq<char>, ResourceV>,
    st: Map<Seq<char>, ResourceV>,
    re: Map<Seq<char>, ResourceV>,
)
    ensures
        ({
            let (n, u, d) = change_sets(lo, st, re);
            let (n2, u2, d2) = change_sets(lo, lo, applied(re, n, u, d));
            &&& n2 == Map::<Seq<char>, ResourceV>::empty()
            &&& u2 == Map::<Seq<char>, ResourceV>::empty()
            &&& d2 == Map::<Seq<char>, ResourceV>::empty()
        }),
{
    let (n, u, d) = change_sets(lo, st, re);
    let re2 = applied(re, n, u, d);
    let s = reconciled(st, re);
    assert forall|k: Seq<char>| lo.contains_key(k) implies #[trigger] re2.contains_key(k)
        && same_resource(lo[k], re2[k]) by {
        assert(!d.contains_key(k));
    }
    assert(reconciled(lo, re2) =~= lo);
    let (n2, u2, d2) = change_sets(lo, lo, re2);
    assert(added(lo, lo) =~= Map::<Seq<char>, ResourceV>::empty());
    assert(changed(lo, lo) =~= Map::<Seq<char>, ResourceV>::empty());
    assert(n2 =~= Map::<Seq<char>, ResourceV>::empty());
    assert(u2 =~= Map::<Seq<char>, ResourceV>::empty());
    assert(d2 =~= Map::<Seq<char>, ResourceV>::empty());
}


/// State entries whose remote entry differs, with the remote's content.
pub open spec fn drifted(
    st: Map<Seq<char>, ResourceV>,
    re: Map<Seq<char>, ResourceV>,
) -> Map<Seq<char>, ResourceV> {
    Map::new(
        |k: Seq<char>| st.contains_key(k) && re.contains_key(k) && !same_resource(st[k], re[k]),
        |k: Seq<char>| re[k],
    )
}

/// State entries that the remote lacks.
pub open spec fn vanished(
    st: Map<Seq<char>, ResourceV>,
    re: Map<Seq<char>, ResourceV>,
) -> Map<Seq<char>, ResourceV> {
    Map::new(|k: Seq<char>| st.contains_key(k) && !re.contains_key(k), |k: Seq<char>| st[k])
}

/// What the state correction warns about: the entries that drifted
/// remotely, and those missing remotely.
pub fn drift_report(st: &ResHash, re: &ResHash) -> (r: (ResHash, ResHash))
    requires
        st.wf(),
        re.wf(),
    ensures
        r.0.wf() && r.1.wf(),
        r.0@ == drifted(st@, re@),
        r.1@ == vanished(st@, re@),
{
    let ghost ks = st.key_seq();
    let ghost vs = st.val_seq();
    let mut dr = ResHash::new();
    let mut gone = ResHash::new();
    let mut i: usize = 0;
    while i < st.keys.len()
        invariant
            st.wf(),
            re.wf(),
            dr.wf(),
            gone.wf(),
            ks == st.key_seq(),
            vs == st.val_seq(),
            i <= ks.len(),
            dr@ == drifted(map_of(ks.subrange(0, i as int), vs.subrange(0, i as int)), re@),
            gone@ == vanished(map_of(ks.subrange(0, i as int), vs.subrange(0, i as int)), re@),
        decreases ks.len() - i,
    {
        let ghost m = map_of(ks.subrange(0, i as int), vs.subrange(0, i as int));
        proof {
            lemma_map_of_prefix(ks, vs, i as int);
        }
        let ghost m2 = m.insert(ks[i as int], vs[i as int]);
        let key = &st.keys[i];
        let mine = &st.vals[i];
        assert(!m.contains_key(key@)) by {
            if m.contains_key(key@) {
                let j = choose|j: int| 0 <= j < i && ks.subrange(0, i as int)[j] == key@;
                assert(ks[j] == ks[i as int]);
            }
        }
        match re.get(key) {
            Some(theirs) => {
                if *mine != *theirs {
                    dr.push_new(key.clone(), theirs.duplicate());
                }
            },
            None => {
                gone.push_new(key.clone(), mine.duplicate());
            },
        }
        assert(dr@ =~= drifted(m2, re@));
        assert(gone@ =~= vanished(m2, re@));
        i += 1;
    }
    proof {
        assert(ks.subrange(0, ks.len() as int) =~= ks);
        assert(vs.subrange(0, vs.len() as int) =~= vs);
    }
    (dr, gone)
}

/// New entries that the remote already holds, with the remote's content;
/// the check of new entries against the remote warns about each.
pub fn known_remotely(ne: &ResHash, re: &ResHash) -> (r: ResHash)
    requires
        ne.wf(),
        re.wf(),
    ensures
        r.wf(),
        r@ == Map::new(
            |k: Seq<char>| ne@.contains_key(k) && re@.contains_key(k),
            |k: Seq<char>| re@[k],
        ),
{
    let ghost ks = ne.key_seq();
    let ghost vs = ne.val_seq();
    let mut out = ResHash::new();
    let mut i: usize = 0;
    while i < ne.keys.len()
        invariant
            ne.wf(),
            re.wf(),
            out.wf(),
            ks == ne.key_seq(),
            vs == ne.val_seq(),
            i <= ks.len(),
            out@ == Map::new(
                |k: Seq<char>| map_of(ks.subrange(0, i as int), vs.subrange(0, i as int)).contains_key(k)
                    && re@.contains_key(k),
                |k: Seq<char>| re@[k],
            ),
        decreases ks.len() - i,
    {
        let ghost m = map_of(ks.subrange(0, i as int), vs.subrange(0, i as int));
        proof {
            lemma_map_of_prefix(ks, vs, i as int);
        }
        let ghost m2 = m.insert(ks[i as int], vs[i as int]);
        let key = &ne.keys[i];
        assert(!m.contains_key(key@)) by {
            if m.contains_key(key@) {
                let j = choose|j: int| 0 <= j < i && ks.subrange(0, i as int)[j] == key@;
                assert(ks[j] == ks[i as int]);
            }
        }
        match re.get(key) {
            Some(theirs) => {
                out.push_new(key.clone(), theirs.duplicate());
            },
            None => {},
        }
        assert(out@ =~= Map::new(
            |k: Seq<char>| m2.contains_key(k) && re@.contains_key(k),
            |k: Seq<char>| re@[k],
        ));
        i += 1;
    }
    proof {
        assert(ks.subrange(0, ks.len() as int) =~= ks);
        assert(vs.subrange(0, vs.len() as int) =~= vs);
    }
    out
}


/// Remote entries that neither the state nor local knows: records made
/// outside this tool.
pub open spec fn orphaned(
    lo: Map<Seq<char>, ResourceV>,
    st: Map<Seq<char>, ResourceV>,
    re: Map<Seq<char>, ResourceV>,
) -> Map<Seq<char>, ResourceV> {
    Map::new(
        |k: Seq<char>| re.contains_key(k) && !st.contains_key(k) && !lo.contains_key(k),
        |k: Seq<char>| re[k],
    )
}

/// The remote entries that neither `st` nor `lo` holds; the comparison
/// leaves them alone, and a caller may choose to delete them.
pub fn orphans(lo: &ResHash, st: &ResHash, re: &ResHash) -> (r: ResHash)
    requires
        lo.wf(),
        st.wf(),
        re.wf(),
    ensures
        r.wf(),
        r@ == orphaned(lo@, st@, re@),
{
    let ghost ks = re.key_seq();
    let ghost vs = re.val_seq();
    let mut out = ResHash::new();
    let mut i: usize = 0;
    while i < re.keys.len()
        invariant
            lo.wf(),
            st.wf(),
            re.wf(),
            out.wf(),
            ks == re.key_seq(),
            vs == re.val_seq(),
            i <= ks.len(),
            out@ == orphaned(lo@, st@, map_of(ks.subrange(0, i as int), vs.subrange(0, i as int))),
        decreases ks.len() - i,
    {
        let ghost m = map_of(ks.subrange(0, i as int), vs.subrange(0, i as int));
        proof {
            lemma_map_of_prefix(ks, vs, i as int);
        }
        let ghost m2 = m.insert(ks[i as int], vs[i as int]);
        let key = &re.keys[i];
        assert(!m.contains_key(key@)) by {
            if m.contains_key(key@) {
                let j = choose|j: int| 0 <= j < i && ks.subrange(0, i as int)[j] == key@;
                assert(ks[j] == ks[i as int]);
            }
        }
        if st.find(key).is_none() && lo.find(key).is_none() {
            out.push_new(key.clone(), re.vals[i].duplicate());
        }
        assert(out@ =~= orphaned(lo@, st@, m2));
        i += 1;
    }
    proof {
        assert(ks.subrange(0, ks.len() as int) =~= ks);
        assert(vs.subrange(0, vs.len() as int) =~= vs);
    }
    out
}

} // verus!
