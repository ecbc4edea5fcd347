//! The tinydns line decoder: one directive becomes zero or more records.
use crate::clock::now_or_zero;
use crate::text::{
    lemma_int_text_round_trip, lemma_join_split, lemma_split_chars, lemma_split_concat,
    lemma_split_first, lemma_split_nonempty, lemma_split_prepend, lemma_split_single,
    lemma_without_absent, all_digits, chars_of, decimal, digits_upto, digits_value, extend_chars, has_char, i32_of,
    int_text, join, parse_i32, parse_u64, push_chars, push_decimal, push_int, remove_char,
    split_chars, split_on, string_of, trim_both, trim_end, trim_start, u64_of, views, without,
};
use crate::resource::{
    canonical, index_fails, lemma_canonical_concat, lemma_duplicate_ptr_fails, strs_view, to_resource,
};
use crate::tinydns::zone_id_for;
use crate::Zone;
use crate::tidy::{dedup, dedup_records, sort_records, stably_sorted};
use crate::tinydns::{recs_view, TinyDNSRecord, TinyRec};
use vstd::prelude::*;

verus! {

/// One part of a dotted quad: one to three digits, at most 255, no leading zero.
pub open spec fn octet_text(p: Seq<char>) -> bool {
    &&& 1 <= p.len() <= 3
    &&& all_digits(p)
    &&& digits_value(p) <= 255
    &&& (p.len() == 1 || p[0] != '0')
}

/// Text that `Ipv4Addr` accepts: four octets separated by dots.
pub open spec fn ipv4_text(s: Seq<char>) -> bool {
    let f = split_on(s, '.');
    f.len() == 4 && forall|i: int| 0 <= i < 4 ==> octet_text(#[trigger] f[i])
}

fn octet_ok(p: &[char]) -> (r: bool)
    ensures
        r == octet_text(p@),
{
    if p.len() < 1 || p.len() > 3 {
        return false;
    }
    if p.len() > 1 && p[0] == '0' {
        return false;
    }
    assert(p@.subrange(0, p@.len() as int) =~= p@);
    digits_upto(p, 0, 255).is_some()
}

/// Whether `s` is an IPv4 address in dotted-quad form.
pub fn valid_ipv4(s: &[char]) -> (r: bool)
    ensures
        r == ipv4_text(s@),
{
    let f = split_chars(s, '.');
    if f.len() != 4 {
        return false;
    }
    let mut i: usize = 0;
    while i < 4
        invariant
            f@.len() == 4,
            views(f@) == split_on(s@, '.'),
            i <= 4,
            forall|j: int| 0 <= j < i ==> octet_text(#[trigger] views(f@)[j]),
        decreases 4 - i,
    {
        assert(views(f@)[i as int] == f@[i as int]@);
        if !octet_ok(f[i].as_slice()) {
            return false;
        }
        i += 1;
    }
    true
}

/// The colon-separated fields of a directive's data.
pub open spec fn fields(data: Seq<char>) -> Seq<Seq<char>> {
    split_on(data, ':')
}

/// Field `i` read as an `i32`; `d` where it is absent or is no number.
pub open spec fn field_i32(f: Seq<Seq<char>>, i: int, d: i32) -> i32 {
    if 0 <= i < f.len() {
        match i32_of(f[i]) {
            Some(v) => v,
            None => d,
        }
    } else {
        d
    }
}

/// Field `i` read as a `u64`; `d` where it is absent or is no number.
pub open spec fn field_u64(f: Seq<Seq<char>>, i: int, d: u64) -> u64 {
    if 0 <= i < f.len() {
        match u64_of(f[i]) {
            Some(v) => v,
            None => d,
        }
    } else {
        d
    }
}

pub open spec fn tiny(rtype: Seq<char>, fqdn: Seq<char>, target: Seq<char>, ttl: i32) -> TinyRec {
    TinyRec { rtype, fqdn, target, ttl }
}

/// The helper host of an MX or NS directive: `x` itself when it holds a
/// dot, else `x.kind.fqdn`.
pub open spec fn helper_name(x: Seq<char>, kind: Seq<char>, fqdn: Seq<char>) -> Seq<char> {
    if x.contains('.') {
        x
    } else {
        x + seq!['.'] + kind + seq!['.'] + fqdn
    }
}

/// The reverse-lookup name of a dotted quad: its octets in reverse order
/// under `in-addr.arpa`.
pub open spec fn ptr_name(ip: Seq<char>) -> Seq<char> {
    let o = split_on(ip, '.');
    o[3] + seq!['.'] + o[2] + seq!['.'] + o[1] + seq!['.'] + o[0] + ".in-addr.arpa"@
}

/// `fqdn:target:ttl` for A (target a dotted quad), PTR and CNAME records;
/// double quotes are dropped from the target.
pub open spec fn basic_spec(rtype: Seq<char>, data: Seq<char>) -> Seq<TinyRec> {
    let f = fields(data);
    if f.len() < 2 || (rtype == seq!['A'] && !ipv4_text(f[1])) {
        Seq::empty()
    } else {
        seq![tiny(rtype, f[0], without(f[1], '"'), field_i32(f, 2, 300))]
    }
}

pub open spec fn starts_quote(p: Seq<char>) -> bool {
    p.len() > 0 && p[0] == '"'
}

pub open spec fn ends_quote(p: Seq<char>) -> bool {
    p.len() > 0 && p.last() == '"'
}

/// The first field from `i` on that ends with a double quote.
pub open spec fn quote_close(f: Seq<Seq<char>>, i: int) -> Option<int>
    decreases f.len() - i,
{
    if i < 0 || i >= f.len() {
        None
    } else if ends_quote(f[i]) {
        Some(i)
    } else {
        quote_close(f, i + 1)
    }
}

/// `fqdn:"text":ttl`, where the quoted text may hold colons; the quotes
/// are stripped.
pub open spec fn txt_spec(data: Seq<char>) -> Seq<TinyRec> {
    let f = fields(data);
    if f.len() < 2 || !starts_quote(f[1]) {
        Seq::empty()
    } else {
        match quote_close(f, 1) {
            None => Seq::empty(),
            Some(j) => seq![
                tiny(
                    "TXT"@,
                    f[0],
                    trim_start(trim_end(join(f.subrange(1, j + 1), ':'), '"'), '"'),
                    field_i32(f, j + 1, 300),
                ),
            ],
        }
    }
}

/// `fqdn:ip:x:dist:ttl`: an MX record for `fqdn` and an A record for its host.
pub open spec fn mx_spec(data: Seq<char>) -> Seq<TinyRec> {
    let f = fields(data);
    if f.len() < 3 || !ipv4_text(f[1]) {
        Seq::empty()
    } else {
        let h = helper_name(f[2], "mx"@, f[0]);
        let ttl = field_i32(f, 4, 300);
        seq![
            tiny("MX"@, f[0], int_text(field_i32(f, 3, 0) as int) + seq![' '] + h, ttl),
            tiny("A"@, h, f[1], ttl),
        ]
    }
}

/// The rdata of an SOA record: name server, contact and the five numbers.
pub open spec fn soa_target(f: Seq<Seq<char>>, now: u64) -> Seq<char> {
    f[1] + seq![' '] + f[2] + seq![' '] + decimal(field_u64(f, 3, now) as nat) + seq![' ']
        + int_text(field_i32(f, 4, 16384) as int) + seq![' '] + int_text(field_i32(f, 5, 2048) as int)
        + seq![' '] + int_text(field_i32(f, 6, 1048576) as int) + seq![' '] + int_text(
        field_i32(f, 7, 2560) as int,
    )
}

/// `fqdn:ns:contact:serial:refresh:retry:expire:min:ttl`, the serial
/// defaulting to `now`.
pub open spec fn soa_spec(data: Seq<char>, now: u64) -> Seq<TinyRec> {
    let f = fields(data);
    if f.len() < 3 {
        Seq::empty()
    } else {
        seq![tiny("SOA"@, f[0], soa_target(f, now), field_i32(f, 8, 300))]
    }
}

/// `fqdn:ip:x:ttl`: NS, A when the ip is given, and SOA.
pub open spec fn anssoa_spec(data: Seq<char>) -> Seq<TinyRec> {
    let f = fields(data);
    if f.len() < 3 || (f[1].len() > 0 && !ipv4_text(f[1])) {
        Seq::empty()
    } else {
        let ns = helper_name(f[2], "ns"@, f[0]);
        let ttl = field_i32(f, 3, 300);
        let soa = tiny("SOA"@, f[0], ns + " hostmaster."@ + f[0] + " 1 1 1 1 60"@, ttl);
        if f[1].len() > 0 {
            seq![tiny("NS"@, ns, f[0], ttl), tiny("A"@, ns, f[1], ttl), soa]
        } else {
            seq![tiny("NS"@, ns, f[0], ttl), soa]
        }
    }
}

/// `fqdn:ip:x:ttl`: NS and A.
pub open spec fn ans_spec(data: Seq<char>) -> Seq<TinyRec> {
    let f = fields(data);
    if f.len() < 3 || !ipv4_text(f[1]) {
        Seq::empty()
    } else {
        let ns = helper_name(f[2], "ns"@, f[0]);
        let ttl = field_i32(f, 3, 300);
        seq![tiny("NS"@, ns, f[0], ttl), tiny("A"@, ns, f[1], ttl)]
    }
}

/// `fqdn:ip:ttl`: an A record and the PTR record that points back to it.
pub open spec fn aptr_spec(data: Seq<char>) -> Seq<TinyRec> {
    let f = fields(data);
    if f.len() < 2 || !ipv4_text(f[1]) {
        Seq::empty()
    } else {
        let ttl = field_i32(f, 2, 300);
        seq![tiny("A"@, f[0], f[1], ttl), tiny("PTR"@, ptr_name(f[1]), f[0], ttl)]
    }
}

fn get_i32(f: &Vec<Vec<char>>, i: usize, d: i32) -> (r: i32)
    ensures
        r == field_i32(views(f@), i as int, d),
{
    if i < f.len() {
        match parse_i32(f[i].as_slice()) {
            Some(v) => v,
            None => d,
        }
    } else {
        d
    }
}

fn get_u64(f: &Vec<Vec<char>>, i: usize, d: u64) -> (r: u64)
    ensures
        r == field_u64(views(f@), i as int, d),
{
    if i < f.len() {
        match parse_u64(f[i].as_slice()) {
            Some(v) => v,
            None => d,
        }
    } else {
        d
    }
}

fn fields_of(data: &str) -> (f: Vec<Vec<char>>)
    ensures
        views(f@) == fields(data@),
{
    let cs = chars_of(data);
    split_chars(cs.as_slice(), ':')
}

fn record(rtype: &str, fqdn: &[char], target: String, ttl: i32) -> (r: TinyDNSRecord)
    ensures
        r@ == tiny(rtype@, fqdn@, target@, ttl),
{
    TinyDNSRecord { rtype: String::from_str(rtype), fqdn: string_of(fqdn), target, ttl }
}

fn helper(x: &[char], kind: &str, fqdn: &[char]) -> (r: Vec<char>)
    ensures
        r@ == helper_name(x@, kind@, fqdn@),
{
    let mut r: Vec<char> = Vec::new();
    extend_chars(&mut r, x);
    if !has_char(x, '.') {
        r.push('.');
        let k = chars_of(kind);
        extend_chars(&mut r, k.as_slice());
        r.push('.');
        extend_chars(&mut r, fqdn);
    }
    assert(r@ =~= helper_name(x@, kind@, fqdn@));
    r
}

/// Parses the data of an A, PTR or CNAME line (`rtype` says which).
pub fn parse(rtype: &str, data: &str) -> (r: Vec<TinyDNSRecord>)
    ensures
        recs_view(r@) == basic_spec(rtype@, data@),
{
    let mut r: Vec<TinyDNSRecord> = Vec::new();
    let f = fields_of(data);
    if f.len() < 2 {
        assert(recs_view(r@) =~= basic_spec(rtype@, data@));
        return r;
    }
    let t = chars_of(rtype);
    let is_a = t.len() == 1 && t[0] == 'A';
    assert(is_a == (rtype@ == seq!['A'])) by {
        if is_a {
            assert(t@ =~= seq!['A']);
        }
    }
    if is_a && !valid_ipv4(f[1].as_slice()) {
        assert(recs_view(r@) =~= basic_spec(rtype@, data@));
        return r;
    }
    let target = remove_char(f[1].as_slice(), '"');
    let ttl = get_i32(&f, 2, 300);
    r.push(record(rtype, f[0].as_slice(), string_of(target.as_slice()), ttl));
    assert(recs_view(r@) =~= basic_spec(rtype@, data@));
    r
}

fn ends_with_quote(p: &Vec<char>) -> (r: bool)
    ensures
        r == ends_quote(p@),
{
    p.len() > 0 && p[p.len() - 1] == '"'
}

/// Parses the data of a TXT line.
pub fn parse_txt(data: &str) -> (r: Vec<TinyDNSRecord>)
    ensures
        recs_view(r@) == txt_spec(data@),
{
    let mut r: Vec<TinyDNSRecord> = Vec::new();
    let f = fields_of(data);
    let ghost fv = views(f@);
    if f.len() < 2 || !(f[1].len() > 0 && f[1][0] == '"') {
        assert(recs_view(r@) =~= txt_spec(data@));
        return r;
    }
    let mut j: usize = 1;
    while j < f.len() && !ends_with_quote(&f[j])
        invariant
            fv == views(f@),
            1 <= j <= f@.len(),
            quote_close(fv, 1) == quote_close(fv, j as int),
        decreases f@.len() - j,
    {
        j += 1;
    }
    if j == f.len() {
        assert(recs_view(r@) =~= txt_spec(data@));
        return r;
    }
    assert(quote_close(fv, 1) == Some(j as int));
    let mut rec: Vec<char> = Vec::new();
    extend_chars(&mut rec, f[1].as_slice());
    assert(rec@ =~= join(fv.subrange(1, 2), ':'));
    let nf = f.len();
    let mut k: usize = 2;
    while k <= j
        invariant
            nf == f@.len(),
            fv == views(f@),
            2 <= k <= j + 1,
            j < f@.len(),
            rec@ == join(fv.subrange(1, k as int), ':'),
        decreases j + 1 - k,
    {
        rec.push(':');
        extend_chars(&mut rec, f[k].as_slice());
        assert(fv.subrange(1, k + 1).drop_last() =~= fv.subrange(1, k as int));
        assert(rec@ =~= join(fv.subrange(1, k + 1), ':'));
        k += 1;
    }
    let target = trim_both(rec.as_slice(), '"');
    let ttl = get_i32(&f, j + 1, 300);
    r.push(record("TXT", f[0].as_slice(), string_of(target.as_slice()), ttl));
    assert(recs_view(r@) =~= txt_spec(data@));
    r
}

/// Parses the data of an MX line.
pub fn parse_mx(data: &str) -> (r: Vec<TinyDNSRecord>)
    ensures
        recs_view(r@) == mx_spec(data@),
{
    let mut r: Vec<TinyDNSRecord> = Vec::new();
    let f = fields_of(data);
    if f.len() < 3 || !valid_ipv4(f[1].as_slice()) {
        assert(recs_view(r@) =~= mx_spec(data@));
        return r;
    }
    let h = helper(f[2].as_slice(), "mx", f[0].as_slice());
    let dist = get_i32(&f, 3, 0);
    let ttl = get_i32(&f, 4, 300);
    let mut target = String::new();
    push_int(&mut target, dist as i64);
    target.push(' ');
    push_chars(&mut target, h.as_slice());
    assert(target@ =~= int_text(dist as int) + seq![' '] + h@);
    r.push(record("MX", f[0].as_slice(), target, ttl));
    r.push(record("A", h.as_slice(), string_of(f[1].as_slice()), ttl));
    assert(recs_view(r@) =~= mx_spec(data@));
    r
}

/// Parses the data of an SOA line, taking `now` as the serial where none is given.
pub fn parse_soa_at(data: &str, now: u64) -> (r: Vec<TinyDNSRecord>)
    ensures
        recs_view(r@) == soa_spec(data@, now),
{
    let mut r: Vec<TinyDNSRecord> = Vec::new();
    let f = fields_of(data);
    if f.len() < 3 {
        assert(recs_view(r@) =~= soa_spec(data@, now));
        return r;
    }
    let mut t = String::new();
    push_chars(&mut t, f[1].as_slice());
    t.push(' ');
    push_chars(&mut t, f[2].as_slice());
    t.push(' ');
    push_decimal(&mut t, get_u64(&f, 3, now));
    t.push(' ');
    push_int(&mut t, get_i32(&f, 4, 16384) as i64);
    t.push(' ');
    push_int(&mut t, get_i32(&f, 5, 2048) as i64);
    t.push(' ');
    push_int(&mut t, get_i32(&f, 6, 1048576) as i64);
    t.push(' ');
    push_int(&mut t, get_i32(&f, 7, 2560) as i64);
    assert(t@ =~= soa_target(views(f@), now));
    let ttl = get_i32(&f, 8, 300);
    r.push(record("SOA", f[0].as_slice(), t, ttl));
    assert(recs_view(r@) =~= soa_spec(data@, now));
    r
}

/// Parses the data of an SOA line; a missing serial is the current time.
pub fn parse_soa(data: &str) -> (r: Vec<TinyDNSRecord>)
    ensures
        exists|now: u64| recs_view(r@) == soa_spec(data@, now),
{
    parse_soa_at(data, now_or_zero())
}

/// Parses the data of a combined A/NS/SOA line.
pub fn parse_anssoa(data: &str) -> (r: Vec<TinyDNSRecord>)
    ensures
        recs_view(r@) == anssoa_spec(data@),
{
    let mut r: Vec<TinyDNSRecord> = Vec::new();
    let f = fields_of(data);
    if f.len() < 3 || (f[1].len() > 0 && !valid_ipv4(f[1].as_slice())) {
        assert(recs_view(r@) =~= anssoa_spec(data@));
        return r;
    }
    let ns = helper(f[2].as_slice(), "ns", f[0].as_slice());
    let ttl = get_i32(&f, 3, 300);
    r.push(record("NS", ns.as_slice(), string_of(f[0].as_slice()), ttl));
    if f[1].len() > 0 {
        r.push(record("A", ns.as_slice(), string_of(f[1].as_slice()), ttl));
    }
    let mut t = String::new();
    push_chars(&mut t, ns.as_slice());
    t.append(" hostmaster.");
    push_chars(&mut t, f[0].as_slice());
    t.append(" 1 1 1 1 60");
    r.push(record("SOA", f[0].as_slice(), t, ttl));
    assert(recs_view(r@) =~= anssoa_spec(data@));
    r
}

/// Parses the data of a combined A/NS line.
pub fn parse_ans(data: &str) -> (r: Vec<TinyDNSRecord>)
    ensures
        recs_view(r@) == ans_spec(data@),
{
    let mut r: Vec<TinyDNSRecord> = Vec::new();
    let f = fields_of(data);
    if f.len() < 3 || !valid_ipv4(f[1].as_slice()) {
        assert(recs_view(r@) =~= ans_spec(data@));
        return r;
    }
    let ns = helper(f[2].as_slice(), "ns", f[0].as_slice());
    let ttl = get_i32(&f, 3, 300);
    r.push(record("NS", ns.as_slice(), string_of(f[0].as_slice()), ttl));
    r.push(record("A", ns.as_slice(), string_of(f[1].as_slice()), ttl));
    assert(recs_view(r@) =~= ans_spec(data@));
    r
}

/// Parses the data of a combined A/PTR line.
pub fn parse_aptr(data: &str) -> (r: Vec<TinyDNSRecord>)
    ensures
        recs_view(r@) == aptr_spec(data@),
{
    let mut r: Vec<TinyDNSRecord> = Vec::new();
    let f = fields_of(data);
    if f.len() < 2 || !valid_ipv4(f[1].as_slice()) {
        assert(recs_view(r@) =~= aptr_spec(data@));
        return r;
    }
    let ttl = get_i32(&f, 2, 300);
    let o = split_chars(f[1].as_slice(), '.');
    let mut p: Vec<char> = Vec::new();
    extend_chars(&mut p, o[3].as_slice());
    p.push('.');
    extend_chars(&mut p, o[2].as_slice());
    p.push('.');
    extend_chars(&mut p, o[1].as_slice());
    p.push('.');
    extend_chars(&mut p, o[0].as_slice());
    let arpa = chars_of(".in-addr.arpa");
    extend_chars(&mut p, arpa.as_slice());
    assert(p@ =~= ptr_name(f@[1]@));
    r.push(record("A", f[0].as_slice(), string_of(f[1].as_slice()), ttl));
    r.push(record("PTR", p.as_slice(), string_of(f[0].as_slice()), ttl));
    assert(recs_view(r@) =~= aptr_spec(data@));
    r
}


/// What the directive with prefix `p` and data `d` expands to.
pub open spec fn directive_spec(p: char, d: Seq<char>, now: u64) -> Seq<TinyRec> {
    if p == '+' {
        basic_spec("A"@, d)
    } else if p == '^' {
        basic_spec("PTR"@, d)
    } else if p == 'C' {
        basic_spec("CNAME"@, d)
    } else if p == '\'' {
        txt_spec(d)
    } else if p == '@' {
        mx_spec(d)
    } else if p == 'Z' {
        soa_spec(d, now)
    } else if p == '.' {
        anssoa_spec(d)
    } else if p == '&' {
        ans_spec(d)
    } else if p == '=' {
        aptr_spec(d)
    } else {
        Seq::empty()
    }
}

/// The records of one line: none for an empty, disabled (`-`) or comment
/// (`#`) line; `None` for an unknown prefix or a directive that yields nothing.
pub open spec fn line_spec(line: Seq<char>, now: u64) -> Option<Seq<TinyRec>> {
    if line.len() == 0 || line[0] == '-' || line[0] == '#' {
        Some(Seq::empty())
    } else {
        let r = directive_spec(line[0], line.drop_first(), now);
        if r.len() == 0 {
            None
        } else {
            Some(r)
        }
    }
}

pub open spec fn opt_recs(r: Option<Vec<TinyDNSRecord>>) -> Option<Seq<TinyRec>> {
    match r {
        Some(v) => Some(recs_view(v@)),
        None => None,
    }
}

/// Decodes one line, taking `now` as the serial of an SOA that gives none.
pub fn from_string_at(line: &str, now: u64) -> (r: Option<Vec<TinyDNSRecord>>)
    ensures
        opt_recs(r) == line_spec(line@, now),
{
    let n = line.unicode_len();
    if n == 0 {
        assert(recs_view(Seq::<TinyDNSRecord>::empty()) =~= Seq::empty());
        return Some(Vec::new());
    }
    let p = line.get_char(0);
    if p == '-' || p == '#' {
        assert(recs_view(Seq::<TinyDNSRecord>::empty()) =~= Seq::empty());
        return Some(Vec::new());
    }
    let data = line.substring_char(1, n);
    assert(data@ =~= line@.drop_first());
    let parsed = if p == '+' {
        parse("A", data)
    } else if p == '^' {
        parse("PTR", data)
    } else if p == 'C' {
        parse("CNAME", data)
    } else if p == '\'' {
        parse_txt(data)
    } else if p == '@' {
        parse_mx(data)
    } else if p == 'Z' {
        parse_soa_at(data, now)
    } else if p == '.' {
        parse_anssoa(data)
    } else if p == '&' {
        parse_ans(data)
    } else if p == '=' {
        parse_aptr(data)
    } else {
        let empty: Vec<TinyDNSRecord> = Vec::new();
        assert(recs_view(empty@) =~= Seq::empty());
        empty
    };
    if parsed.len() == 0 {
        None
    } else {
        Some(parsed)
    }
}

/// Decodes one line; an SOA without a serial gets the current time.
pub fn from_string(line: &str) -> (r: Option<Vec<TinyDNSRecord>>)
    ensures
        exists|now: u64| opt_recs(r) == line_spec(line@, now),
{
    from_string_at(line, now_or_zero())
}


/// A prefix that some directive, a disabled line or a comment starts with.
pub open spec fn known_prefix(c: char) -> bool {
    c == '+' || c == '^' || c == 'C' || c == '\'' || c == '@' || c == 'Z' || c == '.' || c == '&'
        || c == '=' || c == '-' || c == '#'
}

/// The records of all lines in order, or `None` when a line with a known
/// prefix yields nothing; a line with an unknown prefix only adds nothing.
pub open spec fn lines_spec(lines: Seq<Seq<char>>, now: u64) -> Option<Seq<TinyRec>>
    decreases lines.len(),
{
    if lines.len() == 0 {
        Some(Seq::empty())
    } else {
        match lines_spec(lines.drop_last(), now) {
            None => None,
            Some(a) => match line_spec(lines.last(), now) {
                Some(b) => Some(a + b),
                None => if known_prefix(lines.last()[0]) {
                    None
                } else {
                    Some(a)
                },
            },
        }
    }
}

/// Whether the line starts with a prefix that the decoder knows.
pub fn is_known_prefix(line: &str) -> (r: bool)
    ensures
        r == (line@.len() > 0 && known_prefix(line@[0])),
{
    if line.unicode_len() == 0 {
        return false;
    }
    let c = line.get_char(0);
    c == '+' || c == '^' || c == 'C' || c == '\'' || c == '@' || c == 'Z' || c == '.' || c == '&'
        || c == '=' || c == '-' || c == '#'
}

proof fn lemma_lines_fail(lines: Seq<Seq<char>>, i: int, now: u64)
    requires
        0 <= i <= lines.len(),
        lines_spec(lines.subrange(0, i), now) is None,
    ensures
        lines_spec(lines, now) is None,
    decreases lines.len() - i,
{
    if i == lines.len() {
        assert(lines.subrange(0, i) =~= lines);
    } else {
        assert(lines.drop_last().subrange(0, i) =~= lines.subrange(0, i));
        lemma_lines_fail(lines.drop_last(), i, now);
    }
}

/// Decodes lines in order: `None` if a line with a known prefix fails, else
/// all their records; lines with an unknown prefix are passed over.
pub fn parse_lines(lines: &Vec<String>, now: u64) -> (r: Option<Vec<TinyDNSRecord>>)
    ensures
        opt_recs(r) == lines_spec(strs_view(lines@), now),
{
    let ghost ls = strs_view(lines@);
    let mut all: Vec<TinyDNSRecord> = Vec::new();
    let mut i: usize = 0;
    while i < lines.len()
        invariant
            ls == strs_view(lines@),
            i <= lines@.len(),
            lines_spec(ls.subrange(0, i as int), now) == Some(recs_view(all@)),
        decreases lines@.len() - i,
    {
        let ghost pre = ls.subrange(0, i as int);
        let ghost post = ls.subrange(0, i + 1);
        assert(post.drop_last() =~= pre);
        assert(post.last() == lines@[i as int]@);
        match from_string_at(lines[i].as_str(), now) {
            Some(mut recs) => {
                let ghost before = recs_view(all@);
                let ghost got = recs_view(recs@);
                all.append(&mut recs);
                assert(recs_view(all@) =~= before + got);
            },
            None => {
                if is_known_prefix(lines[i].as_str()) {
                    proof {
                        lemma_lines_fail(ls, i + 1, now);
                    }
                    return None;
                }
            },
        }
        i += 1;
    }
    assert(ls.subrange(0, ls.len() as int) =~= ls);
    Some(all)
}

/// Sorts records by name and drops each one that repeats the record before it.
pub fn tidy_records(v: Vec<TinyDNSRecord>) -> (r: Vec<TinyDNSRecord>)
    ensures
        exists|s: Seq<TinyRec>| stably_sorted(s, recs_view(v@)) && recs_view(r@) == dedup(s),
{
    let sorted = sort_records(v);
    dedup_records(&sorted)
}

/// Decodes the lines of one input: `None` if a line with a known prefix
/// fails, else all records sorted by name with repeats of the record
/// before dropped.
pub fn from_lines(lines: &Vec<String>, now: u64) -> (r: Option<Vec<TinyDNSRecord>>)
    ensures
        r is None <==> lines_spec(strs_view(lines@), now) is None,
        r matches Some(v) ==> exists|s: Seq<TinyRec>|
            stably_sorted(s, lines_spec(strs_view(lines@), now)->0) && recs_view(v@) == dedup(s),
{
    match parse_lines(lines, now) {
        Some(all) => Some(tidy_records(all)),
        None => None,
    }
}

proof fn lemma_canonical_one(x: TinyRec, zones: Seq<Zone>)
    ensures
        canonical(seq![x], zones) == match zone_id_for(x.fqdn, zones) {
            Some(z) => seq![to_resource(x, z)],
            None => Seq::<crate::resource::ResourceV>::empty(),
        },
{
    assert(seq![x].drop_last() =~= Seq::<TinyRec>::empty());
    assert(canonical(Seq::<TinyRec>::empty(), zones) =~= Seq::<crate::resource::ResourceV>::empty());
    match zone_id_for(x.fqdn, zones) {
        Some(z) => {
            assert(Seq::<crate::resource::ResourceV>::empty().push(to_resource(x, z)) =~= seq![to_resource(x, z)]);
        },
        None => {},
    }
}

/// Two A/PTR lines for one address both yield a PTR record for its reverse
/// name, so once a zone takes that name the index of their resources fails.
pub proof fn lemma_same_address_fails(d1: Seq<char>, d2: Seq<char>, zones: Seq<Zone>)
    requires
        aptr_spec(d1).len() > 0,
        aptr_spec(d2).len() > 0,
        fields(d1)[1] == fields(d2)[1],
        zone_id_for(ptr_name(fields(d1)[1]), zones) is Some,
    ensures
        index_fails(canonical(aptr_spec(d1) + aptr_spec(d2), zones)),
{
    let s1 = aptr_spec(d1);
    let s2 = aptr_spec(d2);
    let z = zone_id_for(ptr_name(fields(d1)[1]), zones)->0;
    assert(s1 =~= seq![s1[0]] + seq![s1[1]]);
    assert(s2 =~= seq![s2[0]] + seq![s2[1]]);
    lemma_canonical_concat(s1, s2, zones);
    lemma_canonical_concat(seq![s1[0]], seq![s1[1]], zones);
    lemma_canonical_concat(seq![s2[0]], seq![s2[1]], zones);
    lemma_canonical_one(s1[0], zones);
    lemma_canonical_one(s1[1], zones);
    lemma_canonical_one(s2[0], zones);
    lemma_canonical_one(s2[1], zones);
    let c1 = canonical(seq![s1[0]], zones);
    let c2 = canonical(seq![s2[0]], zones);
    let p1 = to_resource(s1[1], z);
    let p2 = to_resource(s2[1], z);
    let full = canonical(s1 + s2, zones);
    assert(full =~= c1 + seq![p1] + c2 + seq![p2]);
    let i = c1.len() as int;
    let j = (c1.len() + 1 + c2.len()) as int;
    assert(full[i] == p1);
    assert(full[j] == p2);
    lemma_duplicate_ptr_fails(full, i, j);
}


/// A one-record line as written: the prefix, then `fqdn:target:ttl`.
pub open spec fn record_line(p: char, fqdn: Seq<char>, target: Seq<char>, ttl: i32) -> Seq<char> {
    seq![p] + fqdn + seq![':'] + target + seq![':'] + int_text(ttl as int)
}

/// A TXT line as written: `'fqdn:"text":ttl`.
pub open spec fn txt_line(fqdn: Seq<char>, text: Seq<char>, ttl: i32) -> Seq<char> {
    seq!['\''] + fqdn + seq![':'] + (seq!['"'] + text + seq!['"']) + seq![':'] + int_text(ttl as int)
}

/// The record type that the prefix of an A, PTR or CNAME line names.
pub open spec fn basic_type(p: char) -> Seq<char> {
    if p == '+' {
        "A"@
    } else if p == '^' {
        "PTR"@
    } else {
        "CNAME"@
    }
}

proof fn lemma_three_fields(a: Seq<char>, b: Seq<char>, c: Seq<char>)
    requires
        !a.contains(':'),
        !c.contains(':'),
    ensures
        fields(a + seq![':'] + b + seq![':'] + c) == seq![a] + split_on(b, ':') + seq![c],
{
    lemma_split_concat(a + seq![':'] + b, c, ':');
    lemma_split_concat(a, b, ':');
    lemma_split_single(a, ':');
    lemma_split_single(c, ':');
}

/// An A, PTR or CNAME line written from a record reads back as that record.
pub proof fn lemma_basic_round_trip(p: char, fqdn: Seq<char>, target: Seq<char>, ttl: i32, now: u64)
    requires
        p == '+' || p == '^' || p == 'C',
        !fqdn.contains(':'),
        !target.contains(':'),
        !target.contains('"'),
        p == '+' ==> ipv4_text(target),
    ensures
        line_spec(record_line(p, fqdn, target, ttl), now) == Some(
            seq![tiny(basic_type(p), fqdn, target, ttl)],
        ),
{
    let line = record_line(p, fqdn, target, ttl);
    let t = int_text(ttl as int);
    lemma_int_text_round_trip(ttl);
    assert(line.drop_first() =~= fqdn + seq![':'] + target + seq![':'] + t);
    lemma_three_fields(fqdn, target, t);
    lemma_split_single(target, ':');
    let f = fields(line.drop_first());
    assert(f =~= seq![fqdn, target, t]);
    lemma_without_absent(target, '"');
    reveal_strlit("A");
    reveal_strlit("PTR");
    reveal_strlit("CNAME");
    assert(basic_type(p) == seq!['A'] <==> p == '+') by {
        if p == '^' {
            assert(basic_type(p).len() == 3);
        }
        if p == 'C' {
            assert(basic_type(p).len() == 5);
        }
        if p == '+' {
            assert("A"@ =~= seq!['A']);
        }
    }
    assert(line[0] == p);
}

/// An A/PTR line written from an address reads back as its A record and
/// the PTR record of its reverse name.
pub proof fn lemma_aptr_round_trip(fqdn: Seq<char>, ip: Seq<char>, ttl: i32, now: u64)
    requires
        !fqdn.contains(':'),
        !ip.contains(':'),
        ipv4_text(ip),
    ensures
        line_spec(record_line('=', fqdn, ip, ttl), now) == Some(
            seq![tiny("A"@, fqdn, ip, ttl), tiny("PTR"@, ptr_name(ip), fqdn, ttl)],
        ),
{
    let line = record_line('=', fqdn, ip, ttl);
    let t = int_text(ttl as int);
    lemma_int_text_round_trip(ttl);
    assert(line.drop_first() =~= fqdn + seq![':'] + ip + seq![':'] + t);
    lemma_three_fields(fqdn, ip, t);
    lemma_split_single(ip, ':');
    assert(fields(line.drop_first()) =~= seq![fqdn, ip, t]);
    assert(line[0] == '=');
}

proof fn lemma_quote_close_at(f: Seq<Seq<char>>, i: int, j: int)
    requires
        0 <= i <= j < f.len(),
        forall|k: int| i <= k < j ==> !ends_quote(#[trigger] f[k]),
        ends_quote(f[j]),
    ensures
        quote_close(f, i) == Some(j),
    decreases j - i,
{
    if i < j {
        lemma_quote_close_at(f, i + 1, j);
    }
}

/// A TXT line written from a text without double quotes reads back as that
/// text, provided the text does not start with a colon.
pub proof fn lemma_txt_round_trip(fqdn: Seq<char>, text: Seq<char>, ttl: i32, now: u64)
    requires
        !fqdn.contains(':'),
        !text.contains('"'),
        text.len() == 0 || text[0] != ':',
    ensures
        line_spec(txt_line(fqdn, text, ttl), now) == Some(seq![tiny("TXT"@, fqdn, text, ttl)]),
{
    let line = txt_line(fqdn, text, ttl);
    let t = int_text(ttl as int);
    let q = seq!['"'] + text + seq!['"'];
    lemma_int_text_round_trip(ttl);
    assert(line.drop_first() =~= fqdn + seq![':'] + q + seq![':'] + t);
    lemma_three_fields(fqdn, q, t);
    let ss = split_on(text, ':');
    lemma_split_nonempty(text, ':');
    lemma_split_prepend('"', text, ':');
    let sq = split_on(seq!['"'] + text, ':');
    assert(q.drop_last() =~= seq!['"'] + text);
    assert(q.last() == '"');
    let pp = split_on(q, ':');
    assert(pp == sq.update(sq.len() - 1, sq.last().push('"')));
    let l = ss.len() as int;
    let f = fields(line.drop_first());
    assert(f =~= seq![fqdn] + pp + seq![t]);
    assert(f.len() == l + 2);
    // the first field after the name opens the quote
    assert(starts_quote(f[1])) by {
        assert(f[1] == pp[0]);
        if l == 1 {
            assert(pp[0] == (seq!['"'] + ss[0]).push('"'));
        } else {
            assert(pp[0] == seq!['"'] + ss[0]);
        }
    }
    // only the last piece of the quoted text ends with a quote
    assert forall|k: int| 1 <= k < l implies !ends_quote(#[trigger] f[k]) by {
        assert(f[k] == pp[k - 1]);
        if k == 1 {
            assert(text.len() > 0) by {
                if text.len() == 0 {
                    assert(split_on(text, ':') =~= seq![Seq::<char>::empty()]);
                }
            }
            lemma_split_first(text, ':');
            assert(pp[0] == seq!['"'] + ss[0]);
            lemma_split_chars(text, ':', 0, ss[0].len() - 1);
            assert(pp[0].last() == ss[0].last());
        } else {
            assert(pp[k - 1] == ss[k - 1]);
            if ss[k - 1].len() > 0 {
                lemma_split_chars(text, ':', k - 1, ss[k - 1].len() - 1);
            }
        }
    }
    assert(ends_quote(f[l]));
    lemma_quote_close_at(f, 1, l);
    assert(f.subrange(1, l + 1) =~= pp);
    lemma_join_split(q, ':');
    // the quotes come off again
    let inner = seq!['"'] + text;
    assert(trim_end(q, '"') == trim_end(inner, '"'));
    if text.len() > 0 {
        assert(inner.last() == text.last());
        assert(text.last() != '"') by {
            assert(text[text.len() - 1] == text.last());
        }
        assert(trim_end(inner, '"') == inner);
        assert(inner.drop_first() =~= text);
        assert(text[0] != '"');
        assert(trim_start(inner, '"') == trim_start(text, '"'));
        assert(trim_start(text, '"') == text);
    } else {
        assert(inner.drop_last() =~= Seq::<char>::empty());
        assert(trim_end(inner, '"') == trim_end(Seq::<char>::empty(), '"'));
        assert(trim_start(Seq::<char>::empty(), '"') =~= text);
    }
    assert(line[0] == '\'');
}

} // verus!
