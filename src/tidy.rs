//! Ordering and de-duplication of parsed records, as done once all input
//! lines are read.
use crate::text::chars_of;
use crate::tinydns::{recs_view, same_record, TinyDNSRecord, TinyRec};
use vstd::prelude::*;

verus! {

/// Lexicographic order of texts, character by character.
pub open spec fn text_le(a: Seq<char>, b: Seq<char>) -> bool
    decreases a.len(),
{
    if a.len() == 0 {
        true
    } else if b.len() == 0 {
        false
    } else if a[0] != b[0] {
        a[0] < b[0]
    } else {
        text_le(a.drop_first(), b.drop_first())
    }
}

pub proof fn lemma_text_le_total(a: Seq<char>, b: Seq<char>)
    ensures
        text_le(a, b) || text_le(b, a),
    decreases a.len(),
{
    if a.len() > 0 && b.len() > 0 && a[0] == b[0] {
        lemma_text_le_total(a.drop_first(), b.drop_first());
    }
}

pub proof fn lemma_text_le_trans(a: Seq<char>, b: Seq<char>, c: Seq<char>)
    requires
        text_le(a, b),
        text_le(b, c),
    ensures
        text_le(a, c),
    decreases a.len(),
{
    if a.len() > 0 && b.len() > 0 && c.len() > 0 && a[0] == b[0] && b[0] == c[0] {
        lemma_text_le_trans(a.drop_first(), b.drop_first(), c.drop_first());
    }
}

/// Whether `a` comes before `b` or equals it, as `String`'s order has it.
pub fn text_le_exec(a: &[char], b: &[char]) -> (r: bool)
    ensures
        r == text_le(a@, b@),
{
    let mut i: usize = 0;
    assert(a@.subrange(0, a@.len() as int) =~= a@);
    assert(b@.subrange(0, b@.len() as int) =~= b@);
    while i < a.len() && i < b.len() && a[i] == b[i]
        invariant
            i <= a@.len(),
            i <= b@.len(),
            text_le(a@, b@) == text_le(a@.subrange(i as int, a@.len() as int), b@.subrange(i as int, b@.len() as int)),
        decreases a@.len() - i,
    {
        assert(a@.subrange(i as int, a@.len() as int).drop_first() =~= a@.subrange(i + 1, a@.len() as int));
        assert(b@.subrange(i as int, b@.len() as int).drop_first() =~= b@.subrange(i + 1, b@.len() as int));
        i += 1;
    }
    if i == a.len() {
        true
    } else if i == b.len() {
        false
    } else {
        a[i] < b[i]
    }
}

/// Names never go down along `s`.
pub open spec fn sorted_by_name(s: Seq<TinyRec>) -> bool {
    forall|i: int, j: int| 0 <= i < j < s.len() ==> text_le(#[trigger] s[i].fqdn, #[trigger] s[j].fqdn)
}

/// The records of `s` named `k`, in order.
pub open spec fn named(s: Seq<TinyRec>, k: Seq<char>) -> Seq<TinyRec>
    decreases s.len(),
{
    if s.len() == 0 {
        Seq::empty()
    } else if s.last().fqdn == k {
        named(s.drop_last(), k).push(s.last())
    } else {
        named(s.drop_last(), k)
    }
}

/// `out` is `input` sorted by name, records of one name kept in their order.
pub open spec fn stably_sorted(out: Seq<TinyRec>, input: Seq<TinyRec>) -> bool {
    &&& sorted_by_name(out)
    &&& forall|k: Seq<char>| #[trigger] named(out, k) == named(input, k)
}

pub proof fn lemma_named_concat(a: Seq<TinyRec>, b: Seq<TinyRec>, k: Seq<char>)
    ensures
        named(a + b, k) == named(a, k) + named(b, k),
    decreases b.len(),
{
    if b.len() == 0 {
        assert(a + b =~= a);
        assert(named(b, k) =~= Seq::<TinyRec>::empty());
        assert(named(a, k) + named(b, k) =~= named(a, k));
    } else {
        assert((a + b).drop_last() =~= a + b.drop_last());
        lemma_named_concat(a, b.drop_last(), k);
        if b.last().fqdn == k {
            assert(named(a, k) + named(b, k) =~= (named(a, k) + named(b.drop_last(), k)).push(b.last()));
        }
    }
}

pub proof fn lemma_named_none(s: Seq<TinyRec>, k: Seq<char>)
    requires
        forall|i: int| 0 <= i < s.len() ==> #[trigger] s[i].fqdn != k,
    ensures
        named(s, k) == Seq::<TinyRec>::empty(),
    decreases s.len(),
{
    if s.len() > 0 {
        lemma_named_none(s.drop_last(), k);
    }
}

/// Where `x` goes in the sorted `out`: after every record named no later than `x`.
fn insert_position(out: &Vec<TinyDNSRecord>, x: &TinyDNSRecord) -> (p: usize)
    requires
        sorted_by_name(recs_view(out@)),
    ensures
        p <= out@.len(),
        forall|l: int| 0 <= l < p ==> text_le(#[trigger] out@[l].fqdn@, x.fqdn@),
        forall|l: int| p <= l < out@.len() ==> !text_le(#[trigger] out@[l].fqdn@, x.fqdn@),
{
    let name = chars_of(x.fqdn.as_str());
    let mut j: usize = 0;
    while j < out.len()
        invariant
            j <= out@.len(),
            sorted_by_name(recs_view(out@)),
            name@ == x.fqdn@,
            forall|l: int| 0 <= l < j ==> text_le(#[trigger] out@[l].fqdn@, x.fqdn@),
        decreases out@.len() - j,
    {
        let other = chars_of(out[j].fqdn.as_str());
        if !text_le_exec(other.as_slice(), name.as_slice()) {
            proof {
                assert forall|l: int| j <= l < out@.len() implies !text_le(#[trigger] out@[l].fqdn@, x.fqdn@) by {
                    if l > j && text_le(out@[l].fqdn@, x.fqdn@) {
                        assert(text_le(recs_view(out@)[j as int].fqdn, recs_view(out@)[l].fqdn));
                        lemma_text_le_trans(out@[j as int].fqdn@, out@[l].fqdn@, x.fqdn@);
                    }
                }
            }
            return j;
        }
        j += 1;
    }
    j
}

/// Sorts records by name; records of one name keep their order.
pub fn sort_records(v: Vec<TinyDNSRecord>) -> (r: Vec<TinyDNSRecord>)
    ensures
        stably_sorted(recs_view(r@), recs_view(v@)),
{
    let ghost input = recs_view(v@);
    let mut v = v;
    let mut out: Vec<TinyDNSRecord> = Vec::new();
    let ghost mut i: int = 0;
    while v.len() > 0
        invariant
            0 <= i <= input.len(),
            v@.len() == input.len() - i,
            recs_view(v@) == input.subrange(i, input.len() as int),
            stably_sorted(recs_view(out@), input.subrange(0, i)),
        decreases v@.len(),
    {
        let ghost vo = v@;
        assert(recs_view(vo)[0] == input.subrange(i, input.len() as int)[0]);
        let x = v.remove(0);
        let ghost xv = x@;
        assert(xv == input[i]);
        assert(v@ =~= vo.subrange(1, vo.len() as int));
        assert(recs_view(v@) =~= input.subrange(i + 1, input.len() as int)) by {
            assert forall|l: int| 0 <= l < v@.len() implies #[trigger] recs_view(v@)[l] == input.subrange(i + 1, input.len() as int)[l] by {
                assert(recs_view(vo)[l + 1] == input.subrange(i, input.len() as int)[l + 1]);
            }
        }
        let p = insert_position(&out, &x);
        let ghost ov = recs_view(out@);
        assert(forall|l: int| p <= l < ov.len() ==> !text_le(#[trigger] ov[l].fqdn, xv.fqdn));
        out.insert(p, x);
        let ghost nv = recs_view(out@);
        proof {
            assert(nv =~= ov.insert(p as int, xv));
            assert(nv =~= ov.subrange(0, p as int) + seq![xv] + ov.subrange(p as int, ov.len() as int));
            assert(ov =~= ov.subrange(0, p as int) + ov.subrange(p as int, ov.len() as int));
            let pre = input.subrange(0, i);
            let post = input.subrange(0, i + 1);
            assert(post.drop_last() =~= pre);
            // sorted
            assert forall|a: int, b: int| 0 <= a < b < nv.len() implies text_le(
                #[trigger] nv[a].fqdn,
                #[trigger] nv[b].fqdn,
            ) by {
                if a < p && b == p {
                } else if a == p {
                    assert(!text_le(ov[p as int].fqdn, xv.fqdn));
                    lemma_text_le_total(ov[p as int].fqdn, xv.fqdn);
                    if b - 1 > p {
                        lemma_text_le_trans(xv.fqdn, ov[p as int].fqdn, ov[b - 1].fqdn);
                    }
                } else if b < p {
                } else if a < p {
                    assert(text_le(ov[a].fqdn, ov[b - 1].fqdn));
                } else {
                    assert(text_le(ov[a - 1].fqdn, ov[b - 1].fqdn));
                }
            }
            // per name
            assert forall|k: Seq<char>| #[trigger] named(nv, k) == named(post, k) by {
                let left = ov.subrange(0, p as int);
                let right = ov.subrange(p as int, ov.len() as int);
                lemma_named_concat(left + seq![xv], right, k);
                lemma_named_concat(left, seq![xv], k);
                lemma_named_concat(left, right, k);
                assert(seq![xv].drop_last() =~= Seq::<TinyRec>::empty());
                assert(named(Seq::<TinyRec>::empty(), k) =~= Seq::<TinyRec>::empty());
                assert(nv =~= (left + seq![xv]) + right);
                if xv.fqdn == k {
                    assert forall|l: int| 0 <= l < right.len() implies #[trigger] right[l].fqdn != k by {
                        assert(right[l] == ov[p + l]);
                        assert(!text_le(ov[p + l].fqdn, xv.fqdn));
                        lemma_text_le_total(xv.fqdn, xv.fqdn);
                    }
                    lemma_named_none(right, k);
                    assert(named(seq![xv], k) =~= seq![xv]);
                    assert(nv =~= (left + seq![xv]) + right);
                    assert(named(nv, k) =~= named(ov, k).push(xv));
                } else {
                    assert(named(seq![xv], k) =~= Seq::<TinyRec>::empty());
                    assert(named(nv, k) =~= named(ov, k));
                }
            }
        }
        proof {
            i = i + 1;
        }
    }
    assert(input.subrange(0, i) =~= input);
    out
}


/// `s` with every record that repeats the one before it left out.
pub open spec fn dedup(s: Seq<TinyRec>) -> Seq<TinyRec>
    decreases s.len(),
{
    if s.len() <= 1 {
        s
    } else if same_record(s.last(), s[s.len() - 2]) {
        dedup(s.drop_last())
    } else {
        dedup(s.drop_last()).push(s.last())
    }
}

/// Drops each record that repeats the one before it, TTL aside.
pub fn dedup_records(v: &Vec<TinyDNSRecord>) -> (r: Vec<TinyDNSRecord>)
    ensures
        recs_view(r@) == dedup(recs_view(v@)),
{
    let ghost input = recs_view(v@);
    let mut out: Vec<TinyDNSRecord> = Vec::new();
    let mut i: usize = 0;
    while i < v.len()
        invariant
            input == recs_view(v@),
            i <= v@.len(),
            recs_view(out@) == dedup(input.subrange(0, i as int)),
        decreases v@.len() - i,
    {
        let ghost pre = input.subrange(0, i as int);
        let ghost post = input.subrange(0, i + 1);
        assert(post.drop_last() =~= pre);
        let ghost before = recs_view(out@);
        if i == 0 || v[i] != v[i - 1] {
            out.push(v[i].duplicate());
            assert(recs_view(out@) =~= before.push(input[i as int]));
            if i == 0 {
                assert(post =~= seq![input[0]]);
                assert(dedup(pre) =~= Seq::<TinyRec>::empty());
            }
        }
        i += 1;
    }
    assert(input.subrange(0, input.len() as int) =~= input);
    out
}


/// Some other position of `s` holds the same record as position `i`.
pub open spec fn repeated(s: Seq<TinyRec>, i: int) -> bool {
    exists|j: int| 0 <= j < s.len() && j != i && same_record(s[i], #[trigger] s[j])
}

/// No earlier position of `s` holds the same record as position `i`.
pub open spec fn first_of_kind(s: Seq<TinyRec>, i: int) -> bool {
    forall|j: int| 0 <= j < i ==> !same_record(#[trigger] s[j], s[i])
}

/// The first occurrence of each repeated record among the first `n` positions.
pub open spec fn repeats_upto(s: Seq<TinyRec>, n: int) -> Seq<TinyRec>
    decreases n,
{
    if n <= 0 {
        Seq::empty()
    } else if repeated(s, n - 1) && first_of_kind(s, n - 1) {
        repeats_upto(s, n - 1).push(s[n - 1])
    } else {
        repeats_upto(s, n - 1)
    }
}

/// Each record that occurs more than once (TTL aside), reported once, in
/// the order of first occurrence.
pub fn duplicate_records(v: &Vec<TinyDNSRecord>) -> (r: Vec<TinyDNSRecord>)
    ensures
        recs_view(r@) == repeats_upto(recs_view(v@), v@.len() as int),
{
    let ghost s = recs_view(v@);
    let mut out: Vec<TinyDNSRecord> = Vec::new();
    let mut i: usize = 0;
    while i < v.len()
        invariant
            s == recs_view(v@),
            i <= v@.len(),
            recs_view(out@) == repeats_upto(s, i as int),
        decreases v@.len() - i,
    {
        let mut rep = false;
        let mut first = true;
        let mut j: usize = 0;
        while j < v.len()
            invariant
                s == recs_view(v@),
                i < v@.len(),
                j <= v@.len(),
                rep == exists|k: int| 0 <= k < j && k != i && same_record(s[i as int], #[trigger] s[k]),
                first == forall|k: int| 0 <= k < j && k < i ==> !same_record(#[trigger] s[k], s[i as int]),
            decreases v@.len() - j,
        {
            assert(s[i as int] == v@[i as int]@);
            assert(s[j as int] == v@[j as int]@);
            let same = v[i] == v[j];
            if j != i && same {
                rep = true;
                if j < i {
                    first = false;
                }
            }
            proof {
                if j != i && same {
                    assert(same_record(s[i as int], s[j as int]));
                    if j < i {
                        assert(same_record(s[j as int], s[i as int]));
                    }
                } else {
                    assert(j == i || !same_record(s[i as int], s[j as int]));
                }
            }
            j += 1;
        }
        let ghost before = recs_view(out@);
        if rep && first {
            out.push(v[i].duplicate());
            assert(recs_view(out@) =~= before.push(s[i as int]));
        }
        i += 1;
    }
    out
}

} // verus!
