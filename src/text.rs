//! Character-level helpers shared by the parser and the resource index:
//! field splitting, trimming, decimal integers and ASCII case folding.
use vstd::prelude::*;

verus! {

/// Relies on `String::push`: the character is appended at the end.
pub assume_specification[ String::push ](s: &mut String, ch: char)
    ensures
        final(s)@ == old(s)@.push(ch),
;

/// The pieces of `s` between occurrences of `sep`, as `str::split` yields them.
pub open spec fn split_on(s: Seq<char>, sep: char) -> Seq<Seq<char>>
    decreases s.len(),
{
    if s.len() == 0 {
        seq![Seq::<char>::empty()]
    } else {
        let p = split_on(s.drop_last(), sep);
        if s.last() == sep {
            p.push(Seq::<char>::empty())
        } else {
            p.update(p.len() - 1, p.last().push(s.last()))
        }
    }
}

pub proof fn lemma_split_nonempty(s: Seq<char>, sep: char)
    ensures
        split_on(s, sep).len() >= 1,
    decreases s.len(),
{
    if s.len() > 0 {
        lemma_split_nonempty(s.drop_last(), sep);
    }
}

/// The views of a sequence of character vectors.
pub open spec fn views(v: Seq<Vec<char>>) -> Seq<Seq<char>> {
    v.map_values(|x: Vec<char>| x@)
}

/// The characters of a string slice, one per element.
pub fn chars_of(s: &str) -> (r: Vec<char>)
    ensures
        r@ == s@,
{
    let n = s.unicode_len();
    let mut r: Vec<char> = Vec::new();
    let mut i: usize = 0;
    while i < n
        invariant
            n == s@.len(),
            i <= n,
            r@ == s@.subrange(0, i as int),
        decreases n - i,
    {
        r.push(s.get_char(i));
        i += 1;
    }
    assert(r@ =~= s@);
    r
}

/// A string holding exactly the given characters.
pub fn string_of(cs: &[char]) -> (r: String)
    ensures
        r@ == cs@,
{
    let mut r = String::new();
    let mut i: usize = 0;
    while i < cs.len()
        invariant
            i <= cs@.len(),
            r@ == cs@.subrange(0, i as int),
        decreases cs@.len() - i,
    {
        r.push(cs[i]);
        i += 1;
    }
    assert(r@ =~= cs@);
    r
}

/// Splits `s` at every `sep`, keeping empty pieces.
pub fn split_chars(s: &[char], sep: char) -> (r: Vec<Vec<char>>)
    ensures
        views(r@) == split_on(s@, sep),
{
    let mut r: Vec<Vec<char>> = Vec::new();
    let mut cur: Vec<char> = Vec::new();
    let mut i: usize = 0;
    while i < s.len()
        invariant
            i <= s@.len(),
            split_on(s@.subrange(0, i as int), sep) == views(r@).push(cur@),
        decreases s@.len() - i,
    {
        let c = s[i];
        let ghost before = views(r@).push(cur@);
        assert(s@.subrange(0, i + 1).drop_last() =~= s@.subrange(0, i as int));
        if c == sep {
            r.push(cur);
            cur = Vec::new();
            assert(views(r@).push(cur@) =~= before.push(Seq::<char>::empty()));
        } else {
            cur.push(c);
            assert(views(r@).push(cur@) =~= before.update(before.len() - 1, before.last().push(c)));
        }
        i += 1;
    }
    assert(s@.subrange(0, s@.len() as int) =~= s@);
    let ghost before = views(r@).push(cur@);
    r.push(cur);
    assert(views(r@) =~= before);
    r
}


pub open spec fn is_digit(c: char) -> bool {
    '0' <= c && c <= '9'
}

pub open spec fn digit_value(c: char) -> int {
    c as int - '0' as int
}

pub open spec fn all_digits(s: Seq<char>) -> bool {
    forall|i: int| 0 <= i < s.len() ==> is_digit(#[trigger] s[i])
}

/// The number that a run of decimal digits denotes.
pub open spec fn digits_value(s: Seq<char>) -> int
    decreases s.len(),
{
    if s.len() == 0 {
        0
    } else {
        digits_value(s.drop_last()) * 10 + digit_value(s.last())
    }
}

/// A decimal integer with an optional sign, of any size.
pub open spec fn int_of(s: Seq<char>) -> Option<int> {
    if s.len() >= 2 && (s[0] == '+' || s[0] == '-') && all_digits(s.drop_first()) {
        if s[0] == '-' {
            Some(-digits_value(s.drop_first()))
        } else {
            Some(digits_value(s.drop_first()))
        }
    } else if s.len() >= 1 && all_digits(s) {
        Some(digits_value(s))
    } else {
        None
    }
}

/// What `str::parse::<i32>` accepts, and the value it gives.
pub open spec fn i32_of(s: Seq<char>) -> Option<i32> {
    match int_of(s) {
        Some(v) => if i32::MIN <= v <= i32::MAX { Some(v as i32) } else { None },
        None => None,
    }
}

/// What `str::parse::<u64>` accepts, and the value it gives.
pub open spec fn u64_of(s: Seq<char>) -> Option<u64> {
    if s.len() >= 1 && s[0] == '-' {
        None
    } else {
        match int_of(s) {
            Some(v) => if 0 <= v <= u64::MAX { Some(v as u64) } else { None },
            None => None,
        }
    }
}

pub proof fn lemma_digits_nonneg(s: Seq<char>)
    requires
        all_digits(s),
    ensures
        digits_value(s) >= 0,
    decreases s.len(),
{
    if s.len() > 0 {
        lemma_digits_nonneg(s.drop_last());
    }
}

pub proof fn lemma_digits_prefix(s: Seq<char>, i: int)
    requires
        all_digits(s),
        0 <= i <= s.len(),
    ensures
        digits_value(s) >= digits_value(s.subrange(0, i)),
    decreases s.len(),
{
    if i < s.len() {
        assert(s.drop_last().subrange(0, i) =~= s.subrange(0, i));
        lemma_digits_prefix(s.drop_last(), i);
        lemma_digits_nonneg(s.drop_last());
    } else {
        assert(s.subrange(0, i) =~= s);
    }
}

/// The digits `s[from..]` as a number no larger than `limit`.
pub fn digits_upto(s: &[char], from: usize, limit: u64) -> (r: Option<u64>)
    requires
        from <= s@.len(),
    ensures
        ({
            let d = s@.subrange(from as int, s@.len() as int);
            r == if d.len() > 0 && all_digits(d) && digits_value(d) <= limit {
                Some(digits_value(d) as u64)
            } else {
                None::<u64>
            }
        }),
{
    let ghost d = s@.subrange(from as int, s@.len() as int);
    if from == s.len() {
        return None;
    }
    let mut acc: u64 = 0;
    let mut i: usize = from;
    while i < s.len()
        invariant
            from <= i <= s@.len(),
            d == s@.subrange(from as int, s@.len() as int),
            all_digits(s@.subrange(from as int, i as int)),
            acc == digits_value(s@.subrange(from as int, i as int)),
            acc <= limit,
        decreases s@.len() - i,
    {
        let c = s[i];
        let ghost pre = s@.subrange(from as int, i as int);
        assert(s@.subrange(from as int, i + 1).drop_last() =~= pre);
        if !('0' <= c && c <= '9') {
            assert(d[i - from] == c);
            return None;
        }
        let v = (c as u32 - '0' as u32) as u64;
        assert(all_digits(s@.subrange(from as int, i + 1)));
        if v > limit || acc > (limit - v) / 10 {
            proof {
                assert(acc * 10 + v > limit) by (nonlinear_arith)
                    requires v > limit || acc > (limit - v) / 10, v <= 9, acc >= 0;
                if all_digits(d) {
                    assert(d.subrange(0, i + 1 - from) =~= s@.subrange(from as int, i + 1));
                    lemma_digits_prefix(d, i + 1 - from);
                }
            }
            return None;
        }
        assert(acc * 10 + v <= limit) by (nonlinear_arith)
            requires acc <= (limit - v) / 10, v <= limit;
        acc = acc * 10 + v;
        i += 1;
    }
    assert(s@.subrange(from as int, i as int) =~= d);
    Some(acc)
}


/// Parses a decimal `i32` with an optional sign, as `str::parse::<i32>` does.
pub fn parse_i32(s: &[char]) -> (r: Option<i32>)
    ensures
        r == i32_of(s@),
{
    if s.len() >= 1 && (s[0] == '+' || s[0] == '-') {
        let neg = s[0] == '-';
        let limit: u64 = if neg { 2147483648 } else { 2147483647 };
        let v = digits_upto(s, 1, limit);
        let ghost d = s@.drop_first();
        assert(s@.subrange(1, s@.len() as int) =~= d);
        assert(!all_digits(s@)) by {
            assert(!is_digit(s@[0]));
        }
        proof {
            if d.len() > 0 && all_digits(d) {
                lemma_digits_nonneg(d);
            }
        }
        match v {
            Some(m) => {
                assert(m as int == digits_value(d));
                if neg {
                    Some((0 - (m as i64)) as i32)
                } else {
                    Some(m as i32)
                }
            },
            None => None,
        }
    } else {
        assert(s@.subrange(0, s@.len() as int) =~= s@);
        let v = digits_upto(s, 0, 2147483647);
        proof {
            if s@.len() > 0 && all_digits(s@) {
                lemma_digits_nonneg(s@);
            }
        }
        match v {
            Some(m) => Some(m as i32),
            None => None,
        }
    }
}

/// Parses a decimal `u64` with an optional `+`, as `str::parse::<u64>` does.
pub fn parse_u64(s: &[char]) -> (r: Option<u64>)
    ensures
        r == u64_of(s@),
{
    if s.len() >= 1 && s[0] == '-' {
        None
    } else if s.len() >= 1 && s[0] == '+' {
        assert(s@.subrange(1, s@.len() as int) =~= s@.drop_first());
        assert(!all_digits(s@)) by {
            assert(!is_digit(s@[0]));
        }
        let v = digits_upto(s, 1, u64::MAX);
        proof {
            if s@.len() >= 2 && all_digits(s@.drop_first()) {
                lemma_digits_nonneg(s@.drop_first());
            }
        }
        v
    } else {
        assert(s@.subrange(0, s@.len() as int) =~= s@);
        proof {
            if s@.len() > 0 && all_digits(s@) {
                lemma_digits_nonneg(s@);
            }
        }
        digits_upto(s, 0, u64::MAX)
    }
}

pub open spec fn digit_char(d: nat) -> char {
    (d + 48) as char
}

/// The decimal digits of `n`, without leading zeros.
pub open spec fn decimal(n: nat) -> Seq<char>
    decreases n,
{
    if n < 10 {
        seq![digit_char(n)]
    } else {
        decimal(n / 10).push(digit_char(n % 10))
    }
}

/// How `Display` writes an integer: a `-` for negative values, then the digits.
pub open spec fn int_text(v: int) -> Seq<char> {
    if v < 0 {
        seq!['-'] + decimal((-v) as nat)
    } else {
        decimal(v as nat)
    }
}

/// Appends the decimal digits of `n`.
pub fn push_decimal(out: &mut String, n: u64)
    ensures
        final(out)@ == old(out)@ + decimal(n as nat),
    decreases n,
{
    if n >= 10 {
        push_decimal(out, n / 10);
    }
    let d = (n % 10) as u8;
    out.push((d + 48u8) as char);
    assert(final(out)@ =~= old(out)@ + decimal(n as nat));
}

/// Appends `v` as `Display` writes it.
pub fn push_int(out: &mut String, v: i64)
    ensures
        final(out)@ == old(out)@ + int_text(v as int),
{
    if v < 0 {
        out.push('-');
        let m = (-(v + 1)) as u64 + 1;
        push_decimal(out, m);
        assert(final(out)@ =~= old(out)@ + int_text(v as int));
    } else {
        push_decimal(out, v as u64);
    }
}

/// `s` without its trailing `c`s, as `str::trim_end_matches(c)` leaves it.
pub open spec fn trim_end(s: Seq<char>, c: char) -> Seq<char>
    decreases s.len(),
{
    if s.len() > 0 && s.last() == c {
        trim_end(s.drop_last(), c)
    } else {
        s
    }
}

/// `s` without its leading `c`s, as `str::trim_start_matches(c)` leaves it.
pub open spec fn trim_start(s: Seq<char>, c: char) -> Seq<char>
    decreases s.len(),
{
    if s.len() > 0 && s[0] == c {
        trim_start(s.drop_first(), c)
    } else {
        s
    }
}

/// The pieces joined with `sep` between each two of them.
pub open spec fn join(parts: Seq<Seq<char>>, sep: char) -> Seq<char>
    decreases parts.len(),
{
    if parts.len() == 0 {
        Seq::empty()
    } else if parts.len() == 1 {
        parts[0]
    } else {
        join(parts.drop_last(), sep).push(sep) + parts.last()
    }
}

/// `s` with every `c` taken out.
pub open spec fn without(s: Seq<char>, c: char) -> Seq<char>
    decreases s.len(),
{
    if s.len() == 0 {
        Seq::empty()
    } else if s.last() == c {
        without(s.drop_last(), c)
    } else {
        without(s.drop_last(), c).push(s.last())
    }
}

/// `t` occurs in `s` as a contiguous run.
pub open spec fn has_infix(s: Seq<char>, t: Seq<char>) -> bool {
    exists|i: int| 0 <= i && i + t.len() <= s.len() && #[trigger] s.subrange(i, i + t.len()) == t
}

/// ASCII upper case letters become lower case; all else stays.
pub open spec fn lower_char(c: char) -> char {
    if 'A' <= c && c <= 'Z' {
        (c as int + 32) as char
    } else {
        c
    }
}

/// The characters `s[a..b]`.
pub fn sub_chars(s: &[char], a: usize, b: usize) -> (r: Vec<char>)
    requires
        a <= b <= s@.len(),
    ensures
        r@ == s@.subrange(a as int, b as int),
{
    let mut r: Vec<char> = Vec::new();
    let mut i: usize = a;
    while i < b
        invariant
            a <= i <= b <= s@.len(),
            r@ == s@.subrange(a as int, i as int),
        decreases b - i,
    {
        r.push(s[i]);
        i += 1;
    }
    r
}

/// Whether `c` occurs in `s`.
pub fn has_char(s: &[char], c: char) -> (r: bool)
    ensures
        r == s@.contains(c),
{
    let mut i: usize = 0;
    while i < s.len()
        invariant
            i <= s@.len(),
            forall|j: int| 0 <= j < i ==> s@[j] != c,
        decreases s@.len() - i,
    {
        if s[i] == c {
            return true;
        }
        i += 1;
    }
    false
}

/// The length that `s` keeps once its trailing `c`s are gone.
pub fn trim_end_len(s: &[char], c: char) -> (n: usize)
    ensures
        n <= s@.len(),
        trim_end(s@, c) == s@.subrange(0, n as int),
{
    let mut j: usize = s.len();
    assert(s@.subrange(0, j as int) =~= s@);
    while j > 0 && s[j - 1] == c
        invariant
            j <= s@.len(),
            trim_end(s@, c) == trim_end(s@.subrange(0, j as int), c),
        decreases j,
    {
        assert(s@.subrange(0, j as int).drop_last() =~= s@.subrange(0, j - 1));
        j -= 1;
    }
    j
}

/// `s` without its leading and trailing `c`s, as `str::trim_matches(c)` leaves it.
pub fn trim_both(s: &[char], c: char) -> (r: Vec<char>)
    ensures
        r@ == trim_start(trim_end(s@, c), c),
{
    let n = trim_end_len(s, c);
    let mut i: usize = 0;
    assert(s@.subrange(0, n as int).subrange(0, n as int) =~= s@.subrange(0, n as int));
    while i < n && s[i] == c
        invariant
            i <= n <= s@.len(),
            trim_start(trim_end(s@, c), c) == trim_start(s@.subrange(i as int, n as int), c),
        decreases n - i,
    {
        assert(s@.subrange(i as int, n as int).drop_first() =~= s@.subrange(i + 1, n as int));
        i += 1;
    }
    sub_chars(s, i, n)
}

/// `s` with every `c` taken out.
pub fn remove_char(s: &[char], c: char) -> (r: Vec<char>)
    ensures
        r@ == without(s@, c),
{
    let mut r: Vec<char> = Vec::new();
    let mut i: usize = 0;
    while i < s.len()
        invariant
            i <= s@.len(),
            r@ == without(s@.subrange(0, i as int), c),
        decreases s@.len() - i,
    {
        assert(s@.subrange(0, i + 1).drop_last() =~= s@.subrange(0, i as int));
        if s[i] != c {
            r.push(s[i]);
        }
        i += 1;
    }
    assert(s@.subrange(0, s@.len() as int) =~= s@);
    r
}

/// Whether `s[at..]` starts with `t`.
fn infix_at(s: &[char], t: &[char], at: usize) -> (r: bool)
    requires
        at + t@.len() <= s@.len(),
    ensures
        r == (s@.subrange(at as int, at + t@.len()) == t@),
{
    let n = s.len();
    let mut k: usize = 0;
    while k < t.len()
        invariant
            n == s@.len(),
            k <= t@.len(),
            at + t@.len() <= s@.len(),
            forall|j: int| 0 <= j < k ==> s@[at + j] == t@[j],
        decreases t@.len() - k,
    {
        assert(at + k < s@.len());
        if s[at + k] != t[k] {
            assert(s@.subrange(at as int, at + t@.len())[k as int] != t@[k as int]);
            return false;
        }
        k += 1;
    }
    assert(s@.subrange(at as int, at + t@.len()) =~= t@);
    true
}

/// Whether `t` occurs in `s` as a contiguous run, as `str::contains` tells.
pub fn contains_infix(s: &[char], t: &[char]) -> (r: bool)
    ensures
        r == has_infix(s@, t@),
{
    if t.len() > s.len() {
        return false;
    }
    let mut i: usize = 0;
    let last = s.len() - t.len();
    while i <= last
        invariant
            last == s@.len() - t@.len(),
            i <= last + 1,
            forall|j: int| 0 <= j < i ==> #[trigger] s@.subrange(j, j + t@.len()) != t@,
        decreases last + 1 - i,
    {
        if infix_at(s, t, i) {
            return true;
        }
        if i == last {
            return false;
        }
        i += 1;
    }
    false
}


/// Appends the characters `cs`.
pub fn extend_chars(out: &mut Vec<char>, cs: &[char])
    ensures
        final(out)@ == old(out)@ + cs@,
{
    let ghost start = out@;
    let mut i: usize = 0;
    while i < cs.len()
        invariant
            i <= cs@.len(),
            out@ == start + cs@.subrange(0, i as int),
        decreases cs@.len() - i,
    {
        out.push(cs[i]);
        i += 1;
    }
    assert(cs@.subrange(0, cs@.len() as int) =~= cs@);
}

/// Appends the characters `cs` to a string.
pub fn push_chars(out: &mut String, cs: &[char])
    ensures
        final(out)@ == old(out)@ + cs@,
{
    let ghost start = out@;
    let mut i: usize = 0;
    while i < cs.len()
        invariant
            i <= cs@.len(),
            out@ == start + cs@.subrange(0, i as int),
        decreases cs@.len() - i,
    {
        out.push(cs[i]);
        assert(start + cs@.subrange(0, i + 1) =~= (start + cs@.subrange(0, i as int)).push(cs@[i as int]));
        i += 1;
    }
    assert(cs@.subrange(0, cs@.len() as int) =~= cs@);
}


/// Text without the separator is a single piece.
pub proof fn lemma_split_single(s: Seq<char>, sep: char)
    requires
        !s.contains(sep),
    ensures
        split_on(s, sep) == seq![s],
    decreases s.len(),
{
    if s.len() > 0 {
        assert(!s.drop_last().contains(sep)) by {
            if s.drop_last().contains(sep) {
                let i = choose|i: int| 0 <= i < s.drop_last().len() && s.drop_last()[i] == sep;
                assert(s[i] == sep);
            }
        }
        lemma_split_single(s.drop_last(), sep);
        assert(s.last() != sep) by {
            assert(s[s.len() - 1] == s.last());
        }
        assert(s.drop_last().push(s.last()) =~= s);
        assert(seq![s.drop_last()].update(0, s.drop_last().push(s.last())) =~= seq![s]);
    } else {
        assert(s =~= Seq::<char>::empty());
    }
}

/// Splitting around one separator splits each side.
pub proof fn lemma_split_concat(a: Seq<char>, b: Seq<char>, sep: char)
    ensures
        split_on(a + seq![sep] + b, sep) == split_on(a, sep) + split_on(b, sep),
    decreases b.len(),
{
    let w = a + seq![sep] + b;
    if b.len() == 0 {
        assert(w.drop_last() =~= a);
        assert(split_on(b, sep) =~= seq![Seq::<char>::empty()]);
        assert(split_on(a, sep).push(Seq::<char>::empty()) =~= split_on(a, sep) + split_on(b, sep));
    } else {
        assert(w.drop_last() =~= a + seq![sep] + b.drop_last());
        lemma_split_concat(a, b.drop_last(), sep);
        lemma_split_nonempty(b.drop_last(), sep);
        lemma_split_nonempty(a, sep);
        let pa = split_on(a, sep);
        let pb = split_on(b.drop_last(), sep);
        if b.last() == sep {
            assert((pa + pb).push(Seq::<char>::empty()) =~= pa + pb.push(Seq::<char>::empty()));
        } else {
            assert((pa + pb).update((pa + pb).len() - 1, (pa + pb).last().push(b.last())) =~= pa
                + pb.update(pb.len() - 1, pb.last().push(b.last())));
        }
    }
}

/// Joining the pieces of a split gives the text back.
pub proof fn lemma_join_split(s: Seq<char>, sep: char)
    ensures
        join(split_on(s, sep), sep) == s,
    decreases s.len(),
{
    if s.len() > 0 {
        let t = s.drop_last();
        let x = s.last();
        lemma_join_split(t, sep);
        lemma_split_nonempty(t, sep);
        let p = split_on(t, sep);
        if x == sep {
            assert(p.push(Seq::<char>::empty()).drop_last() =~= p);
            assert(join(p, sep).push(sep) + Seq::<char>::empty() =~= s);
        } else {
            let u = p.update(p.len() - 1, p.last().push(x));
            if p.len() == 1 {
                assert(s =~= t.push(x));
            } else {
                assert(u.drop_last() =~= p.drop_last());
                assert(join(p.drop_last(), sep).push(sep) + p.last().push(x) =~= (join(p.drop_last(), sep).push(
                    sep,
                ) + p.last()).push(x));
                assert(s =~= t.push(x));
            }
        }
    }
}

/// Every piece of a split holds only characters of the text.
pub proof fn lemma_split_chars(s: Seq<char>, sep: char, k: int, i: int)
    requires
        0 <= k < split_on(s, sep).len(),
        0 <= i < split_on(s, sep)[k].len(),
    ensures
        s.contains(split_on(s, sep)[k][i]),
    decreases s.len(),
{
    if s.len() > 0 {
        let t = s.drop_last();
        let x = s.last();
        lemma_split_nonempty(t, sep);
        let p = split_on(t, sep);
        if x == sep {
            if k < p.len() {
                lemma_split_chars(t, sep, k, i);
                let j = choose|j: int| 0 <= j < t.len() && t[j] == p[k][i];
                assert(s[j] == t[j]);
            }
        } else {
            if k < p.len() - 1 || i < p[k].len() {
                lemma_split_chars(t, sep, k, i);
                let j = choose|j: int| 0 <= j < t.len() && t[j] == p[k][i];
                assert(s[j] == t[j]);
            } else {
                assert(s[s.len() - 1] == x);
            }
        }
    }
}

/// A text that starts with something other than the separator has a
/// non-empty first piece.
pub proof fn lemma_split_first(s: Seq<char>, sep: char)
    requires
        s.len() > 0,
        s[0] != sep,
    ensures
        split_on(s, sep)[0].len() > 0,
    decreases s.len(),
{
    let t = s.drop_last();
    lemma_split_nonempty(t, sep);
    if s.len() == 1 {
        assert(t =~= Seq::<char>::empty());
        assert(s.last() == s[0]);
    } else {
        lemma_split_first(t, sep);
    }
}

/// A character other than the separator in front joins the first piece.
pub proof fn lemma_split_prepend(c: char, s: Seq<char>, sep: char)
    requires
        c != sep,
    ensures
        split_on(seq![c] + s, sep) == split_on(s, sep).update(0, seq![c] + split_on(s, sep)[0]),
    decreases s.len(),
{
    let w = seq![c] + s;
    if s.len() == 0 {
        assert(w =~= seq![c]);
        assert(w.drop_last() =~= Seq::<char>::empty());
        assert(split_on(Seq::<char>::empty(), sep) =~= seq![Seq::<char>::empty()]);
        assert(Seq::<char>::empty().push(c) =~= seq![c]);
        assert(split_on(w, sep) =~= seq![seq![c]]);
        assert(split_on(s, sep).update(0, seq![c] + split_on(s, sep)[0]) =~= seq![seq![c]]);
    } else {
        let t = s.drop_last();
        let x = s.last();
        assert(w.drop_last() =~= seq![c] + t);
        assert(w.last() == x);
        lemma_split_prepend(c, t, sep);
        lemma_split_nonempty(t, sep);
        let p = split_on(t, sep);
        if x == sep {
            assert(p.update(0, seq![c] + p[0]).push(Seq::<char>::empty()) =~= p.push(Seq::<char>::empty()).update(
                0,
                seq![c] + p.push(Seq::<char>::empty())[0],
            ));
        } else {
            let q = p.update(0, seq![c] + p[0]);
            let u = p.update(p.len() - 1, p.last().push(x));
            assert(q.update(q.len() - 1, q.last().push(x)) =~= u.update(0, seq![c] + u[0]));
        }
    }
}

pub proof fn lemma_decimal(n: nat)
    ensures
        decimal(n).len() >= 1,
        all_digits(decimal(n)),
        digits_value(decimal(n)) == n,
    decreases n,
{
    let d = decimal(n);
    assert(digit_value(digit_char(n % 10)) == n % 10);
    if n < 10 {
        assert(d.drop_last() =~= Seq::<char>::empty());
        assert(digits_value(Seq::<char>::empty()) == 0);
        assert(digits_value(d) == digits_value(d.drop_last()) * 10 + digit_value(d.last()));
        assert(n % 10 == n);
    }
    if n >= 10 {
        lemma_decimal(n / 10);
        assert(d.drop_last() =~= decimal(n / 10));
        assert(d.last() == digit_char(n % 10));
        assert forall|i: int| 0 <= i < d.len() implies is_digit(#[trigger] d[i]) by {
            if i < d.len() - 1 {
                assert(d[i] == decimal(n / 10)[i]);
            }
        }
        assert(digits_value(d) == digits_value(d.drop_last()) * 10 + digit_value(d.last()));
        assert(digits_value(d) == (n / 10) * 10 + n % 10);
        assert(n == (n / 10) * 10 + n % 10) by (nonlinear_arith);
    }
}

/// Writing an `i32` and reading it back gives the same number.
pub proof fn lemma_int_text_round_trip(v: i32)
    ensures
        i32_of(int_text(v as int)) == Some(v),
        !int_text(v as int).contains(':'),
        !int_text(v as int).contains('"'),
{
    let t = int_text(v as int);
    if v < 0 {
        let m = (-v) as nat;
        lemma_decimal(m);
        assert(t.drop_first() =~= decimal(m));
        assert(t[0] == '-');
        assert(!is_digit(t[0]));
    } else {
        lemma_decimal(v as nat);
        assert(is_digit(t[0]));
    }
    assert forall|i: int| 0 <= i < t.len() implies t[i] != ':' && t[i] != '"' by {
        if v < 0 && i > 0 {
            assert(t[i] == t.drop_first()[i - 1]);
        }
    }
}

/// Taking out a character that does not occur changes nothing.
pub proof fn lemma_without_absent(s: Seq<char>, c: char)
    requires
        !s.contains(c),
    ensures
        without(s, c) == s,
    decreases s.len(),
{
    if s.len() > 0 {
        assert(!s.drop_last().contains(c)) by {
            if s.drop_last().contains(c) {
                let i = choose|i: int| 0 <= i < s.drop_last().len() && s.drop_last()[i] == c;
                assert(s[i] == c);
            }
        }
        lemma_without_absent(s.drop_last(), c);
        assert(s[s.len() - 1] == s.last());
        assert(s.drop_last().push(s.last()) =~= s);
    }
}

} // verus!
