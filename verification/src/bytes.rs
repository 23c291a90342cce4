use vstd::prelude::*;
use vstd::multiset::Multiset;

verus! {

// ----------------------------------------------------------------------------
// Lexicographic order on byte strings
// ----------------------------------------------------------------------------

/// Strict lexicographic order on byte strings: a proper prefix sorts first,
/// otherwise the first differing byte decides.
pub open spec fn lex_lt(a: Seq<u8>, b: Seq<u8>) -> bool
    decreases a.len(),
{
    if b.len() == 0 {
        false
    } else if a.len() == 0 {
        true
    } else if a[0] != b[0] {
        a[0] < b[0]
    } else {
        lex_lt(a.drop_first(), b.drop_first())
    }
}

pub proof fn lemma_lex_lt_trichotomy(a: Seq<u8>, b: Seq<u8>)
    ensures
        lex_lt(a, b) || lex_lt(b, a) || a == b,
    decreases a.len(),
{
    if a.len() == 0 || b.len() == 0 {
        if a.len() == 0 && b.len() == 0 {
            assert(a =~= b);
        }
    } else if a[0] == b[0] {
        lemma_lex_lt_trichotomy(a.drop_first(), b.drop_first());
        if a.drop_first() == b.drop_first() {
            assert(a =~= seq![a[0]] + a.drop_first());
            assert(b =~= seq![b[0]] + b.drop_first());
        }
    }
}

pub proof fn lemma_lex_lt_irreflexive(a: Seq<u8>, b: Seq<u8>)
    requires
        lex_lt(a, b),
    ensures
        a != b,
        !lex_lt(b, a),
    decreases a.len(),
{
    if a.len() != 0 && b.len() != 0 && a[0] == b[0] {
        lemma_lex_lt_irreflexive(a.drop_first(), b.drop_first());
        assert(a != b) by {
            assert(a.drop_first() != b.drop_first());
        }
    }
}

pub proof fn lemma_lex_lt_transitive(a: Seq<u8>, b: Seq<u8>, c: Seq<u8>)
    requires
        lex_lt(a, b),
        lex_lt(b, c),
    ensures
        lex_lt(a, c),
    decreases a.len(),
{
    if a.len() != 0 && b.len() != 0 && c.len() != 0 {
        if a[0] == b[0] && b[0] == c[0] {
            lemma_lex_lt_transitive(a.drop_first(), b.drop_first(), c.drop_first());
        }
    }
}

/// Compares two byte vectors in the order of `lex_lt`.
pub fn bytes_lt(a: &Vec<u8>, b: &Vec<u8>) -> (r: bool)
    ensures
        r == lex_lt(a@, b@),
{
    assert(a@.skip(0) == a@);
    assert(b@.skip(0) == b@);
    bytes_lt_from(a, b, 0)
}

fn bytes_lt_from(a: &Vec<u8>, b: &Vec<u8>, i: usize) -> (r: bool)
    requires
        i <= a@.len(),
        i <= b@.len(),
    ensures
        r == lex_lt(a@.skip(i as int), b@.skip(i as int)),
    decreases a@.len() - i,
{
    if i == b.len() {
        false
    } else if i == a.len() {
        true
    } else if a[i] != b[i] {
        a[i] < b[i]
    } else {
        let r = bytes_lt_from(a, b, i + 1);
        assert(a@.skip(i as int).drop_first() =~= a@.skip(i + 1));
        assert(b@.skip(i as int).drop_first() =~= b@.skip(i + 1));
        r
    }
}

/// A proper prefix sorts strictly before what it begins.
pub proof fn lemma_prefix_lex_lt(a: Seq<u8>, b: Seq<u8>)
    requires
        is_prefix(a, b),
        a.len() < b.len(),
    ensures
        lex_lt(a, b),
    decreases a.len(),
{
    if a.len() > 0 {
        assert(a[0] == b[0]) by {
            assert(b.subrange(0, a.len() as int)[0] == b[0]);
        }
        assert(is_prefix(a.drop_first(), b.drop_first())) by {
            assert(b.drop_first().subrange(0, a.len() - 1) =~= a.drop_first()) by {
                assert forall|i: int| 0 <= i < a.len() - 1 implies b.drop_first()[i]
                    == a.drop_first()[i] by {
                    assert(b.subrange(0, a.len() as int)[i + 1] == b[i + 1]);
                }
            }
        }
        lemma_prefix_lex_lt(a.drop_first(), b.drop_first());
    }
}

/// Prefixes chain.
pub proof fn lemma_prefix_trans(a: Seq<u8>, b: Seq<u8>, c: Seq<u8>)
    requires
        is_prefix(a, b),
        is_prefix(b, c),
    ensures
        is_prefix(a, c),
{
    assert(c.subrange(0, a.len() as int) =~= a) by {
        assert forall|i: int| 0 <= i < a.len() implies c[i] == a[i] by {
            assert(b.subrange(0, a.len() as int)[i] == b[i]);
            assert(c.subrange(0, b.len() as int)[i] == c[i]);
        }
    }
}

/// A shared prefix neither makes nor breaks the byte order.
pub proof fn lemma_lex_lt_cancel(p: Seq<u8>, a: Seq<u8>, b: Seq<u8>)
    ensures
        lex_lt(p + a, p + b) == lex_lt(a, b),
    decreases p.len(),
{
    if p.len() == 0 {
        assert(p + a =~= a);
        assert(p + b =~= b);
    } else {
        assert((p + a).len() > 0 && (p + b).len() > 0);
        assert((p + a)[0] == p[0] && (p + b)[0] == p[0]);
        assert((p + a).drop_first() =~= p.drop_first() + a);
        assert((p + b).drop_first() =~= p.drop_first() + b);
        lemma_lex_lt_cancel(p.drop_first(), a, b);
    }
}

/// Tests two byte vectors for equality of their contents.
pub fn bytes_eq(a: &Vec<u8>, b: &Vec<u8>) -> (r: bool)
    ensures
        r == (a@ == b@),
{
    if a.len() != b.len() {
        return false;
    }
    let n = a.len();
    for i in 0..n
        invariant
            n == a@.len() == b@.len(),
            forall|j: int| 0 <= j < i ==> a@[j] == b@[j],
    {
        if a[i] != b[i] {
            return false;
        }
    }
    assert(a@ =~= b@);
    true
}

/// `p` is an initial segment of `a`.
pub open spec fn is_prefix(p: Seq<u8>, a: Seq<u8>) -> bool {
    p.len() <= a.len() && a.subrange(0, p.len() as int) == p
}

pub fn bytes_has_prefix(a: &Vec<u8>, p: &Vec<u8>) -> (r: bool)
    ensures
        r == is_prefix(p@, a@),
{
    if p.len() > a.len() {
        return false;
    }
    let n = p.len();
    for i in 0..n
        invariant
            n == p@.len() <= a@.len(),
            forall|j: int| 0 <= j < i ==> a@[j] == p@[j],
    {
        if a[i] != p[i] {
            assert(a@.subrange(0, p@.len() as int)[i as int] != p@[i as int]);
            return false;
        }
    }
    assert(a@.subrange(0, p@.len() as int) =~= p@);
    true
}

/// Appends all of `src` to `dst`.
pub fn push_all(dst: &mut Vec<u8>, src: &Vec<u8>)
    ensures
        final(dst)@ == old(dst)@ + src@,
{
    let n = src.len();
    for i in 0..n
        invariant
            n == src@.len(),
            dst@ == old(dst)@ + src@.subrange(0, i as int),
    {
        dst.push(src[i]);
        assert(dst@ =~= old(dst)@ + src@.subrange(0, i + 1));
    }
    assert(dst@ =~= old(dst)@ + src@);
}

/// Copies a byte vector.
pub fn bytes_clone(src: &Vec<u8>) -> (r: Vec<u8>)
    ensures
        r@ == src@,
{
    let mut r: Vec<u8> = Vec::new();
    push_all(&mut r, src);
    assert(r@ =~= src@);
    r
}

/// Copies the range `[from, to)` of `src` into a fresh vector.
pub fn bytes_range(src: &Vec<u8>, from: usize, to: usize) -> (r: Vec<u8>)
    requires
        from <= to <= src@.len(),
    ensures
        r@ == src@.subrange(from as int, to as int),
{
    let mut r: Vec<u8> = Vec::new();
    for i in from..to
        invariant
            from <= i <= to <= src@.len(),
            r@ == src@.subrange(from as int, i as int),
    {
        r.push(src[i]);
        assert(r@ =~= src@.subrange(from as int, i + 1));
    }
    r
}

/// The index of the first occurrence of `b` in `s`, or -1.
pub open spec fn find_byte(s: Seq<u8>, b: u8) -> int
    decreases s.len(),
{
    if s.len() == 0 {
        -1
    } else if s[0] == b {
        0
    } else {
        let r = find_byte(s.drop_first(), b);
        if r == -1 {
            -1
        } else {
            r + 1
        }
    }
}

pub proof fn lemma_find_byte(s: Seq<u8>, b: u8)
    ensures
        find_byte(s, b) == -1 ==> no_byte(s, b),
        find_byte(s, b) != -1 ==> {
            &&& 0 <= find_byte(s, b) < s.len()
            &&& s[find_byte(s, b)] == b
            &&& forall|j: int| 0 <= j < find_byte(s, b) ==> #[trigger] s[j] != b
        },
    decreases s.len(),
{
    if s.len() > 0 && s[0] != b {
        lemma_find_byte(s.drop_first(), b);
        let r = find_byte(s.drop_first(), b);
        if r == -1 {
            assert forall|j: int| 0 <= j < s.len() implies #[trigger] s[j] != b by {
                if j > 0 {
                    assert(s[j] == s.drop_first()[j - 1]);
                }
            }
        } else {
            assert(s[r + 1] == s.drop_first()[r]);
            assert forall|j: int| 0 <= j < r + 1 implies #[trigger] s[j] != b by {
                if j > 0 {
                    assert(s[j] == s.drop_first()[j - 1]);
                }
            }
        }
    }
}

/// A byte with nothing but other bytes before it is the first of its kind.
pub proof fn lemma_find_byte_unique(s: Seq<u8>, b: u8, i: int)
    requires
        0 <= i < s.len(),
        s[i] == b,
        forall|j: int| 0 <= j < i ==> #[trigger] s[j] != b,
    ensures
        find_byte(s, b) == i,
{
    lemma_find_byte(s, b);
    let f = find_byte(s, b);
    if f == -1 {
        assert(s[i] != b);
    } else if f < i {
        assert(s[f] != b);
    } else if f > i {
        assert(s[i] != b);
    }
}

/// The position of the first occurrence of `b` in `s`, if any.
pub fn find_byte_at(s: &Vec<u8>, b: u8) -> (r: Option<usize>)
    ensures
        match r {
            Some(i) => i == find_byte(s@, b),
            None => find_byte(s@, b) == -1,
        },
{
    proof {
        lemma_find_byte(s@, b);
    }
    let n = s.len();
    for i in 0..n
        invariant
            n == s@.len(),
            forall|j: int| 0 <= j < i ==> #[trigger] s@[j] != b,
            find_byte(s@, b) != -1 ==> {
                &&& 0 <= find_byte(s@, b) < s@.len()
                &&& s@[find_byte(s@, b)] == b
                &&& forall|j: int| 0 <= j < find_byte(s@, b) ==> #[trigger] s@[j] != b
            },
            find_byte(s@, b) == -1 ==> no_byte(s@, b),
    {
        if s[i] == b {
            proof {
                let f = find_byte(s@, b);
                if f != i {
                    if f == -1 {
                        assert(false);
                    } else if f < i {
                        assert(s@[f] != b);
                        assert(false);
                    } else {
                        assert(s@[i as int] != b);
                        assert(false);
                    }
                }
            }
            return Some(i);
        }
    }
    proof {
        if find_byte(s@, b) != -1 {
            assert(s@[find_byte(s@, b)] != b);
            assert(false);
        }
    }
    None
}

// ----------------------------------------------------------------------------
// Decimal numerals
// ----------------------------------------------------------------------------

/// The shortest decimal numeral of `n`, as ASCII bytes.
pub open spec fn dec_digits(n: nat) -> Seq<u8>
    decreases n,
{
    if n < 10 {
        seq![(48 + n) as u8]
    } else {
        dec_digits(n / 10).push((48 + n % 10) as u8)
    }
}

/// The decimal numeral of an integer, with a leading minus sign if negative.
pub open spec fn int_dec(v: int) -> Seq<u8> {
    if v < 0 {
        seq![45u8] + dec_digits((-v) as nat)
    } else {
        dec_digits(v as nat)
    }
}

pub open spec fn is_digit(c: u8) -> bool {
    48 <= c <= 57
}

pub open spec fn all_digits(s: Seq<u8>) -> bool {
    forall|i: int| 0 <= i < s.len() ==> is_digit(#[trigger] s[i])
}

/// The value of a string of decimal digits (most significant first).
pub open spec fn dec_val(s: Seq<u8>) -> nat
    decreases s.len(),
{
    if s.len() == 0 {
        0
    } else {
        dec_val(s.drop_last()) * 10 + (if is_digit(s.last()) {
            (s.last() - 48) as nat
        } else {
            0
        })
    }
}

pub proof fn lemma_dec_digits_wf(n: nat)
    ensures
        dec_digits(n).len() >= 1,
        all_digits(dec_digits(n)),
        dec_val(dec_digits(n)) == n,
        n >= 1 ==> dec_digits(n)[0] != 48,
    decreases n,
{
    if n < 10 {
        let s = dec_digits(n);
        assert(s =~= seq![(48 + n) as u8]);
        assert(s.drop_last() =~= Seq::<u8>::empty());
        assert(s.last() == (48 + n) as u8);
        assert(is_digit(s.last()));
        assert(dec_val(s.drop_last()) == 0);
        assert(dec_val(s) == dec_val(s.drop_last()) * 10 + (s.last() - 48) as nat);
        assert(dec_val(s) == n);
    } else {
        lemma_dec_digits_wf(n / 10);
        let s = dec_digits(n);
        assert(s.drop_last() =~= dec_digits(n / 10));
        assert(s.last() == (48 + n % 10) as u8);
        assert(is_digit(s.last()));
        assert(dec_val(s) == dec_val(s.drop_last()) * 10 + (s.last() - 48) as nat);
        assert(dec_val(s.drop_last()) == n / 10);
        assert(n / 10 * 10 + n % 10 == n);
        assert forall|i: int| 0 <= i < s.len() implies is_digit(s[i]) by {
            if i < s.len() - 1 {
                assert(s[i] == dec_digits((n / 10) as nat)[i]);
            }
        }
    }
}

/// Converts `n` to its decimal numeral.
pub fn u64_to_dec(n: u64) -> (r: Vec<u8>)
    ensures
        r@ == dec_digits(n as nat),
    decreases n,
{
    if n < 10 {
        let mut v: Vec<u8> = Vec::new();
        v.push(48 + n as u8);
        assert(v@ =~= dec_digits(n as nat));
        v
    } else {
        let mut v = u64_to_dec(n / 10);
        v.push(48 + (n % 10) as u8);
        assert(v@ =~= dec_digits(n as nat));
        v
    }
}

/// Converts `v` to its decimal numeral, with a leading minus sign if negative.
pub fn i64_to_dec(v: i64) -> (r: Vec<u8>)
    ensures
        r@ == int_dec(v as int),
{
    if v >= 0 {
        u64_to_dec(v as u64)
    } else {
        let mag: u64 = if v == i64::MIN {
            9223372036854775808u64
        } else {
            (-v) as u64
        };
        let mut r: Vec<u8> = Vec::new();
        r.push(45);
        let digits = u64_to_dec(mag);
        push_all(&mut r, &digits);
        assert(r@ =~= seq![45u8] + dec_digits((-(v as int)) as nat));
        r
    }
}

/// The integer a numeral token denotes: an optional minus sign followed by
/// one or more digits; anything else denotes nothing.
pub open spec fn spec_parse_int(s: Seq<u8>) -> Option<int> {
    if s.len() >= 2 && s[0] == 45 && all_digits(s.drop_first()) {
        Some(-(dec_val(s.drop_first()) as int))
    } else if s.len() >= 1 && all_digits(s) {
        Some(dec_val(s) as int)
    } else {
        None
    }
}

proof fn lemma_dec_val_prefix_mono(s: Seq<u8>, i: int, j: int)
    requires
        0 <= i <= j <= s.len(),
    ensures
        dec_val(s.subrange(0, i)) <= dec_val(s.subrange(0, j)),
    decreases j - i,
{
    if i < j {
        lemma_dec_val_prefix_mono(s, i, j - 1);
        let sj = s.subrange(0, j);
        assert(sj.drop_last() =~= s.subrange(0, j - 1));
        assert(dec_val(s.subrange(0, j - 1)) <= dec_val(sj));
    }
}

/// Parses a string of decimal digits into a `u64`.
pub fn parse_dec_u64(s: &Vec<u8>) -> (r: Option<u64>)
    ensures
        match r {
            Some(v) => s@.len() >= 1 && all_digits(s@) && dec_val(s@) == v,
            None => s@.len() == 0 || !all_digits(s@) || dec_val(s@) > u64::MAX,
        },
{
    if s.len() == 0 {
        return None;
    }
    let n = s.len();
    let mut acc: u64 = 0;
    for i in 0..n
        invariant
            n == s@.len(),
            acc == dec_val(s@.subrange(0, i as int)),
            forall|j: int| 0 <= j < i ==> is_digit(#[trigger] s@[j]),
    {
        let c = s[i];
        if c < 48 || c > 57 {
            return None;
        }
        let d = (c - 48) as u64;
        if acc > (u64::MAX - d) / 10 {
            proof {
                let p = s@.subrange(0, i + 1);
                assert(p.drop_last() =~= s@.subrange(0, i as int));
                assert(dec_val(p) > u64::MAX);
                lemma_dec_val_prefix_mono(s@, i + 1, n as int);
                assert(s@.subrange(0, n as int) =~= s@);
            }
            return None;
        }
        acc = acc * 10 + d;
        proof {
            let p = s@.subrange(0, i + 1);
            assert(p.drop_last() =~= s@.subrange(0, i as int));
        }
    }
    assert(s@.subrange(0, n as int) =~= s@);
    Some(acc)
}

/// Parses a numeral token (optional minus sign, then digits) into an `i64`.
pub fn parse_dec_i64(s: &Vec<u8>) -> (r: Option<i64>)
    ensures
        match r {
            Some(v) => spec_parse_int(s@) == Some(v as int),
            None => match spec_parse_int(s@) {
                Some(v) => v < i64::MIN || v > i64::MAX,
                None => true,
            },
        },
{
    if s.len() >= 2 && s[0] == 45 {
        let digits = bytes_range(s, 1, s.len());
        assert(digits@ =~= s@.drop_first());
        match parse_dec_u64(&digits) {
            Some(mag) => {
                if mag > 9223372036854775808u64 {
                    None
                } else if mag == 9223372036854775808u64 {
                    Some(i64::MIN)
                } else {
                    Some(-(mag as i64))
                }
            },
            None => None,
        }
    } else {
        match parse_dec_u64(s) {
            Some(v) => {
                if v > i64::MAX as u64 {
                    None
                } else {
                    Some(v as i64)
                }
            },
            None => {
                proof {
                    if s@.len() >= 1 && s@[0] == 45 {
                        assert(!all_digits(s@)) by {
                            assert(!is_digit(s@[0]));
                        }
                    }
                }
                None
            },
        }
    }
}

// ----------------------------------------------------------------------------
// Joining and splitting on a separator byte
// ----------------------------------------------------------------------------

/// The views of a vector of byte vectors.
pub open spec fn views(s: Seq<Vec<u8>>) -> Seq<Seq<u8>> {
    s.map_values(|v: Vec<u8>| v@)
}

/// Concatenates `parts` with `sep` between consecutive parts.
pub open spec fn join_sep(parts: Seq<Seq<u8>>, sep: u8) -> Seq<u8>
    decreases parts.len(),
{
    if parts.len() == 0 {
        Seq::empty()
    } else if parts.len() == 1 {
        parts[0]
    } else {
        parts[0] + seq![sep] + join_sep(parts.drop_first(), sep)
    }
}

pub open spec fn no_byte(s: Seq<u8>, sep: u8) -> bool {
    forall|i: int| 0 <= i < s.len() ==> #[trigger] s[i] != sep
}

pub open spec fn no_byte_in_parts(parts: Seq<Seq<u8>>, sep: u8) -> bool {
    forall|i: int| 0 <= i < parts.len() ==> no_byte(#[trigger] parts[i], sep)
}

pub proof fn lemma_join_sep_push(parts: Seq<Seq<u8>>, q: Seq<u8>, sep: u8)
    ensures
        join_sep(parts.push(q), sep) == if parts.len() == 0 {
            q
        } else {
            join_sep(parts, sep) + seq![sep] + q
        },
    decreases parts.len(),
{
    if parts.len() == 0 {
        assert(parts.push(q)[0] =~= q);
    } else if parts.len() == 1 {
        assert(parts.push(q).drop_first() =~= seq![q]);
        assert(join_sep(seq![q], sep) == q);
    } else {
        lemma_join_sep_push(parts.drop_first(), q, sep);
        assert(parts.push(q).drop_first() =~= parts.drop_first().push(q));
    }
}

/// Two lists of separator-free parts with the same join are the same list.
pub proof fn lemma_join_sep_injective(p1: Seq<Seq<u8>>, p2: Seq<Seq<u8>>, sep: u8)
    requires
        p1.len() >= 1,
        p2.len() >= 1,
        no_byte_in_parts(p1, sep),
        no_byte_in_parts(p2, sep),
        join_sep(p1, sep) == join_sep(p2, sep),
    ensures
        p1 == p2,
    decreases p1.len(),
{
    let j = join_sep(p1, sep);
    if p1.len() == 1 && p2.len() == 1 {
        assert(p1 =~= p2);
    } else if p1.len() == 1 {
        // j == p1[0] has no separator, but p2's join holds one: contradiction.
        let k = p2[0].len() as int;
        assert(join_sep(p2, sep)[k] == sep);
        assert(no_byte(p1[0], sep));
        assert(false);
    } else if p2.len() == 1 {
        let k = p1[0].len() as int;
        assert(join_sep(p1, sep)[k] == sep);
        assert(no_byte(p2[0], sep));
        assert(false);
    } else {
        // Both joins start with their first part, then the separator; the first
        // separator position pins the first part.
        let a = p1[0];
        let b = p2[0];
        assert(j[a.len() as int] == sep);
        assert(j[b.len() as int] == sep);
        assert forall|i: int| 0 <= i < a.len() implies j[i] != sep by {
            assert(j[i] == a[i]);
            assert(no_byte(a, sep));
        }
        assert forall|i: int| 0 <= i < b.len() implies j[i] != sep by {
            assert(j[i] == b[i]);
            assert(no_byte(b, sep));
        }
        assert(a.len() == b.len()) by {
            if a.len() < b.len() {
                assert(j[a.len() as int] != sep);
            } else if b.len() < a.len() {
                assert(j[b.len() as int] != sep);
            }
        }
        assert forall|i: int| 0 <= i < a.len() implies a[i] == b[i] by {
            assert(j[i] == a[i]);
            assert(j[i] == b[i]);
        }
        assert(a =~= b);
        let r1 = join_sep(p1.drop_first(), sep);
        let r2 = join_sep(p2.drop_first(), sep);
        assert(r1 =~= j.skip(a.len() as int + 1));
        assert(r2 =~= j.skip(a.len() as int + 1));
        assert forall|i: int| 0 <= i < p1.drop_first().len() implies no_byte(
            #[trigger] p1.drop_first()[i],
            sep,
        ) by {
            assert(p1.drop_first()[i] == p1[i + 1]);
        }
        assert forall|i: int| 0 <= i < p2.drop_first().len() implies no_byte(
            #[trigger] p2.drop_first()[i],
            sep,
        ) by {
            assert(p2.drop_first()[i] == p2[i + 1]);
        }
        lemma_join_sep_injective(p1.drop_first(), p2.drop_first(), sep);
        assert forall|i: int| 0 <= i < p1.len() implies p1[i] == p2[i] by {
            if i > 0 {
                assert(p1[i] == p1.drop_first()[i - 1]);
                assert(p2[i] == p2.drop_first()[i - 1]);
            }
        }
        assert(p1 =~= p2);
    }
}

/// The list of separator-free parts of `s`: one part more than there are
/// occurrences of `sep`.
pub open spec fn split_at_seps(s: Seq<u8>, sep: u8) -> Seq<Seq<u8>>
    decreases s.len(),
{
    if s.len() == 0 {
        seq![Seq::<u8>::empty()]
    } else if s.last() == sep {
        split_at_seps(s.drop_last(), sep).push(Seq::<u8>::empty())
    } else {
        let p = split_at_seps(s.drop_last(), sep);
        p.update(p.len() - 1, p.last().push(s.last()))
    }
}

proof fn lemma_join_last_push(p: Seq<Seq<u8>>, c: u8, sep: u8)
    requires
        p.len() >= 1,
    ensures
        join_sep(p.update(p.len() - 1, p.last().push(c)), sep) == join_sep(p, sep).push(c),
    decreases p.len(),
{
    let p2 = p.update(p.len() - 1, p.last().push(c));
    if p.len() == 1 {
        assert(p2 =~= seq![p[0].push(c)]);
        assert(join_sep(p2, sep) == p[0].push(c));
        assert(join_sep(p, sep).push(c) =~= p[0].push(c));
    } else {
        lemma_join_last_push(p.drop_first(), c, sep);
        assert(p2.drop_first() =~= p.drop_first().update(p.drop_first().len() - 1, p.drop_first().last().push(c)));
        assert(p2[0] == p[0]);
        assert(join_sep(p2, sep) == p[0] + seq![sep] + join_sep(p.drop_first(), sep).push(c));
        assert(p[0] + seq![sep] + join_sep(p.drop_first(), sep).push(c) =~= (p[0] + seq![sep]
            + join_sep(p.drop_first(), sep)).push(c));
    }
}

pub proof fn lemma_split_at_seps_wf(s: Seq<u8>, sep: u8)
    ensures
        split_at_seps(s, sep).len() >= 1,
        no_byte_in_parts(split_at_seps(s, sep), sep),
        join_sep(split_at_seps(s, sep), sep) == s,
    decreases s.len(),
{
    let r = split_at_seps(s, sep);
    if s.len() == 0 {
        assert(r =~= seq![Seq::<u8>::empty()]);
        assert(join_sep(r, sep) =~= s);
        assert forall|i: int| 0 <= i < r.len() implies no_byte(#[trigger] r[i], sep) by {}
    } else {
        let prev = split_at_seps(s.drop_last(), sep);
        lemma_split_at_seps_wf(s.drop_last(), sep);
        if s.last() == sep {
            lemma_join_sep_push(prev, Seq::<u8>::empty(), sep);
            assert(join_sep(r, sep) =~= s);
            assert forall|i: int| 0 <= i < r.len() implies no_byte(#[trigger] r[i], sep) by {
                if i < prev.len() {
                    assert(r[i] == prev[i]);
                }
            }
        } else {
            lemma_join_last_push(prev, s.last(), sep);
            assert(join_sep(r, sep) =~= s);
            assert forall|i: int| 0 <= i < r.len() implies no_byte(#[trigger] r[i], sep) by {
                if i < prev.len() - 1 {
                    assert(r[i] == prev[i]);
                } else {
                    assert(r[i] == prev.last().push(s.last()));
                    assert(no_byte(prev.last(), sep));
                    assert forall|k: int| 0 <= k < r[i].len() implies #[trigger] r[i][k] != sep by {
                        if k < r[i].len() - 1 {
                            assert(r[i][k] == prev.last()[k]);
                        }
                    }
                }
            }
        }
    }
}

/// A separator-free string splits to itself alone.
pub proof fn lemma_split_nosep(s: Seq<u8>, sep: u8)
    requires
        no_byte(s, sep),
    ensures
        split_at_seps(s, sep) == seq![s],
    decreases s.len(),
{
    if s.len() == 0 {
        assert(split_at_seps(s, sep) =~~= seq![s]);
    } else {
        assert(no_byte(s.drop_last(), sep)) by {
            assert forall|i: int| 0 <= i < s.drop_last().len() implies #[trigger] s.drop_last()[i]
                != sep by {
                assert(s.drop_last()[i] == s[i]);
            }
        }
        lemma_split_nosep(s.drop_last(), sep);
        let p = split_at_seps(s, sep);
        assert(p =~~= seq![s.drop_last().push(s.last())]);
        assert(s.drop_last().push(s.last()) =~= s);
    }
}

/// Splitting distributes over concatenation at a separator.
pub proof fn lemma_split_append(a: Seq<u8>, b: Seq<u8>, sep: u8)
    ensures
        split_at_seps(a + seq![sep] + b, sep) == split_at_seps(a, sep) + split_at_seps(b, sep),
    decreases b.len(),
{
    let s = a + seq![sep] + b;
    if b.len() == 0 {
        assert(s.len() == a.len() + 1);
        assert(s.last() == sep);
        assert(s.drop_last() =~= a);
        assert(split_at_seps(b, sep) == seq![Seq::<u8>::empty()]);
        assert(split_at_seps(s, sep) =~= split_at_seps(a, sep) + split_at_seps(b, sep));
    } else {
        lemma_split_append(a, b.drop_last(), sep);
        let st = a + seq![sep] + b.drop_last();
        assert(s.drop_last() =~= st);
        assert(s.last() == b.last());
        let pa = split_at_seps(a, sep);
        let pb = split_at_seps(b.drop_last(), sep);
        lemma_split_at_seps_wf(b.drop_last(), sep);
        lemma_split_at_seps_wf(a, sep);
        if b.last() == sep {
            assert(split_at_seps(s, sep) =~= (pa + pb).push(Seq::<u8>::empty()));
            assert(split_at_seps(b, sep) =~= pb.push(Seq::<u8>::empty()));
            assert((pa + pb).push(Seq::<u8>::empty()) =~= pa + pb.push(Seq::<u8>::empty()));
        } else {
            let q = pa + pb;
            assert(q.len() == pa.len() + pb.len());
            assert(q.last() == pb.last());
            assert(split_at_seps(s, sep) == q.update(q.len() - 1, q.last().push(b.last())));
            assert(split_at_seps(b, sep) == pb.update(pb.len() - 1, pb.last().push(b.last())));
            assert(q.update(q.len() - 1, q.last().push(b.last())) =~= pa + pb.update(
                pb.len() - 1,
                pb.last().push(b.last()),
            ));
        }
    }
}

/// The nonempty entries of a list of byte strings, in order.
pub open spec fn nonempty_parts(ps: Seq<Seq<u8>>) -> Seq<Seq<u8>>
    decreases ps.len(),
{
    if ps.len() == 0 {
        Seq::empty()
    } else if ps.last().len() == 0 {
        nonempty_parts(ps.drop_last())
    } else {
        nonempty_parts(ps.drop_last()).push(ps.last())
    }
}

pub proof fn lemma_nonempty_parts_id(ps: Seq<Seq<u8>>)
    requires
        forall|i: int| 0 <= i < ps.len() ==> (#[trigger] ps[i]).len() > 0,
    ensures
        nonempty_parts(ps) == ps,
    decreases ps.len(),
{
    if ps.len() > 0 {
        assert forall|i: int| 0 <= i < ps.drop_last().len() implies (#[trigger] ps.drop_last()[i]).len()
            > 0 by {
            assert(ps.drop_last()[i] == ps[i]);
        }
        lemma_nonempty_parts_id(ps.drop_last());
        assert(ps[ps.len() - 1].len() > 0);
        assert(nonempty_parts(ps) =~= ps);
    }
}

pub proof fn lemma_nonempty_parts_append(a: Seq<Seq<u8>>, b: Seq<Seq<u8>>)
    ensures
        nonempty_parts(a + b) == nonempty_parts(a) + nonempty_parts(b),
    decreases b.len(),
{
    if b.len() == 0 {
        assert(a + b =~= a);
        assert(nonempty_parts(a) + nonempty_parts(b) =~= nonempty_parts(a));
    } else {
        lemma_nonempty_parts_append(a, b.drop_last());
        assert((a + b).drop_last() =~= a + b.drop_last());
        assert((a + b).last() == b.last());
        if b.last().len() == 0 {
        } else {
            assert(nonempty_parts(a) + nonempty_parts(b.drop_last()).push(b.last()) =~= (
            nonempty_parts(a) + nonempty_parts(b.drop_last())).push(b.last()));
        }
    }
}

pub proof fn lemma_nonempty_parts_nonempty(ps: Seq<Seq<u8>>)
    ensures
        forall|i: int|
            0 <= i < nonempty_parts(ps).len() ==> (#[trigger] nonempty_parts(ps)[i]).len() > 0,
    decreases ps.len(),
{
    if ps.len() > 0 {
        lemma_nonempty_parts_nonempty(ps.drop_last());
        let r = nonempty_parts(ps);
        if ps.last().len() > 0 {
            assert forall|i: int| 0 <= i < r.len() implies (#[trigger] r[i]).len() > 0 by {
                if i < r.len() - 1 {
                    assert(r[i] == nonempty_parts(ps.drop_last())[i]);
                }
            }
        }
    }
}

/// Keeps the nonempty byte strings, in order.
pub fn filter_nonempty(parts: Vec<Vec<u8>>) -> (r: Vec<Vec<u8>>)
    ensures
        views(r@) == nonempty_parts(views(parts@)),
{
    let mut r: Vec<Vec<u8>> = Vec::new();
    let n = parts.len();
    let mut i: usize = 0;
    while i < n
        invariant
            n == parts@.len(),
            i <= n,
            views(r@) == nonempty_parts(views(parts@).subrange(0, i as int)),
        decreases n - i,
    {
        let keep = parts[i].len() > 0;
        proof {
            let pre = views(parts@).subrange(0, i as int);
            let cur = views(parts@).subrange(0, i + 1);
            assert(cur.drop_last() =~= pre);
            assert(cur.last() == parts@[i as int]@);
        }
        if keep {
            let ghost old_r = views(r@);
            let p = crate::bytes::bytes_clone(&parts[i]);
            r.push(p);
            proof {
                assert(views(r@) =~= old_r.push(parts@[i as int]@));
            }
        }
        i = i + 1;
    }
    proof {
        assert(views(parts@).subrange(0, n as int) =~= views(parts@));
    }
    r
}

/// Numerals read back as the integers they were written from.
pub proof fn lemma_int_dec_round_trip(v: int)
    ensures
        spec_parse_int(int_dec(v)) == Some(v),
{
    if v < 0 {
        lemma_dec_digits_wf((-v) as nat);
        let s = int_dec(v);
        assert(s[0] == 45);
        assert(s.drop_first() =~= dec_digits((-v) as nat));
        assert(s.len() >= 2);
    } else {
        lemma_dec_digits_wf(v as nat);
        let s = int_dec(v);
        assert(!(s.len() >= 2 && s[0] == 45 && all_digits(s.drop_first()))) by {
            assert(is_digit(s[0]));
        }
    }
}

/// Splitting a join recovers the parts, when only the last may hold the
/// separator: that one is split further.
pub proof fn lemma_split_join(lines: Seq<Seq<u8>>, sep: u8)
    requires
        lines.len() >= 1,
        forall|i: int| 0 <= i < lines.len() - 1 ==> no_byte(#[trigger] lines[i], sep),
    ensures
        split_at_seps(join_sep(lines, sep), sep) == lines.drop_last() + split_at_seps(
            lines.last(),
            sep,
        ),
    decreases lines.len(),
{
    if lines.len() == 1 {
        assert(join_sep(lines, sep) == lines[0]);
        assert(lines.drop_last() =~= Seq::<Seq<u8>>::empty());
        assert(lines.drop_last() + split_at_seps(lines.last(), sep) =~= split_at_seps(
            lines[0],
            sep,
        ));
    } else {
        let rest = lines.drop_first();
        assert(join_sep(lines, sep) == lines[0] + seq![sep] + join_sep(rest, sep));
        lemma_split_append(lines[0], join_sep(rest, sep), sep);
        lemma_split_nosep(lines[0], sep);
        assert forall|i: int| 0 <= i < rest.len() - 1 implies no_byte(#[trigger] rest[i], sep) by {
            assert(rest[i] == lines[i + 1]);
        }
        lemma_split_join(rest, sep);
        assert(rest.last() == lines.last());
        assert(seq![lines[0]] + (rest.drop_last() + split_at_seps(lines.last(), sep))
            =~= lines.drop_last() + split_at_seps(lines.last(), sep)) by {
            assert forall|i: int| 0 <= i < lines.len() - 1 implies (seq![lines[0]]
                + rest.drop_last())[i] == lines.drop_last()[i] by {
                if i > 0 {
                    assert(rest.drop_last()[i - 1] == lines[i]);
                }
            }
            assert(seq![lines[0]] + rest.drop_last() =~= lines.drop_last());
        }
    }
}

/// Splits `s` at every occurrence of `sep`.
///
/// The result is the unique list of separator-free parts whose join is `s`.
pub fn split_bytes(s: &Vec<u8>, sep: u8) -> (r: Vec<Vec<u8>>)
    ensures
        r@.len() >= 1,
        no_byte_in_parts(views(r@), sep),
        join_sep(views(r@), sep) == s@,
        views(r@) == split_at_seps(s@, sep),
{
    let mut parts: Vec<Vec<u8>> = Vec::new();
    let mut current: Vec<u8> = Vec::new();
    let n = s.len();
    for i in 0..n
        invariant
            n == s@.len(),
            no_byte_in_parts(views(parts@), sep),
            no_byte(current@, sep),
            join_sep(views(parts@).push(current@), sep) == s@.subrange(0, i as int),
    {
        if s[i] == sep {
            proof {
                lemma_join_sep_push(views(parts@), current@, sep);
                lemma_join_sep_push(views(parts@).push(current@), Seq::<u8>::empty(), sep);
                assert(views(parts@.push(current)) =~= views(parts@).push(current@));
                assert(join_sep(views(parts@.push(current)).push(Seq::<u8>::empty()), sep) =~= s@.subrange(0, i + 1));
            }
            parts.push(current);
            current = Vec::new();
        } else {
            let c = s[i];
            proof {
                lemma_join_sep_push(views(parts@), current@, sep);
                lemma_join_sep_push(views(parts@), current@.push(c), sep);
                assert(join_sep(views(parts@).push(current@.push(c)), sep) =~= s@.subrange(0, i + 1));
            }
            current.push(c);
        }
    }
    proof {
        assert(s@.subrange(0, n as int) =~= s@);
        assert(views(parts@.push(current)) =~= views(parts@).push(current@));
        lemma_split_at_seps_wf(s@, sep);
        lemma_join_sep_injective(
            views(parts@).push(current@),
            split_at_seps(s@, sep),
            sep,
        );
    }
    parts.push(current);
    parts
}


/// A sorted list of byte strings stays sorted when filtered.
pub proof fn lemma_filter_sorted_names(s: Seq<Seq<u8>>, pred: spec_fn(Seq<u8>) -> bool)
    requires
        forall|i: int, j: int| 0 <= i < j < s.len() ==> lex_lt(#[trigger] s[i], #[trigger] s[j]),
    ensures
        forall|i: int, j: int|
            0 <= i < j < s.filter(pred).len() ==> lex_lt(
                #[trigger] s.filter(pred)[i],
                #[trigger] s.filter(pred)[j],
            ),
    decreases s.len(),
{
    if s.len() > 0 {
        assert forall|i: int, j: int| 0 <= i < j < s.drop_last().len() implies lex_lt(
            #[trigger] s.drop_last()[i],
            #[trigger] s.drop_last()[j],
        ) by {
            assert(s.drop_last()[i] == s[i] && s.drop_last()[j] == s[j]);
        }
        lemma_filter_sorted_names(s.drop_last(), pred);
        crate::table::lemma_filter_contained(s.drop_last(), pred);
        s.drop_last().lemma_filter_push(s.last(), pred);
        assert(s =~= s.drop_last().push(s.last()));
        let f = s.filter(pred);
        let fd = s.drop_last().filter(pred);
        if pred(s[s.len() - 1]) {
            assert(f == fd.push(s.last()));
            assert forall|i: int, j: int| 0 <= i < j < f.len() implies lex_lt(
                #[trigger] f[i],
                #[trigger] f[j],
            ) by {
                if j < f.len() - 1 {
                    assert(f[i] == fd[i] && f[j] == fd[j]);
                } else {
                    assert(f[i] == fd[i]);
                    assert(s.drop_last().contains(fd[i]));
                    let x = choose|x: int|
                        0 <= x < s.drop_last().len() && s.drop_last()[x] == fd[i];
                    assert(s[x] == fd[i]);
                    assert(lex_lt(s[x], s[s.len() - 1]));
                }
            }
        }
    }
}

/// Two equal elements at different places put their value twice in the
/// multiset.
pub proof fn lemma_multiset_two(s: Seq<Seq<u8>>, a: int, b: int)
    requires
        0 <= a < b < s.len(),
        s[a] == s[b],
    ensures
        s.to_multiset().count(s[a]) >= 2,
{
    broadcast use vstd::seq_lib::group_to_multiset_ensures;

    let p1 = s.subrange(0, a);
    let p2 = s.subrange(a, b);
    let p3 = s.subrange(b, s.len() as int);
    assert(s =~= p1 + p2 + p3);
    vstd::seq_lib::lemma_multiset_commutative(p1 + p2, p3);
    vstd::seq_lib::lemma_multiset_commutative(p1, p2);
    assert(p2.to_multiset().contains(s[a])) by {
        assert(p2[0] == s[a]);
        assert(p2.contains(s[a]));
    }
    assert(p3.to_multiset().contains(s[b])) by {
        assert(p3[0] == s[b]);
        assert(p3.contains(s[b]));
    }
    assert(s.to_multiset().count(s[a]) == p1.to_multiset().count(s[a]) + p2.to_multiset().count(
        s[a],
    ) + p3.to_multiset().count(s[a]));
}

/// A list of pairwise distinct byte strings holds each value at most once.
pub proof fn lemma_distinct_count(s: Seq<Seq<u8>>)
    requires
        forall|i: int, j: int| 0 <= i < j < s.len() ==> #[trigger] s[i] != #[trigger] s[j],
    ensures
        forall|x: Seq<u8>| #[trigger] s.to_multiset().count(x) <= 1,
    decreases s.len(),
{
    broadcast use vstd::seq_lib::group_to_multiset_ensures;

    s.to_multiset_ensures();
    if s.len() > 0 {
        let d = s.drop_last();
        assert forall|i: int, j: int| 0 <= i < j < d.len() implies #[trigger] d[i] != #[trigger] d[j] by {
            assert(d[i] == s[i] && d[j] == s[j]);
        }
        lemma_distinct_count(d);
        d.to_multiset_ensures();
        assert(s =~= d.push(s.last()));
        assert forall|x: Seq<u8>| #[trigger] s.to_multiset().count(x) <= 1 by {
            assert(s.to_multiset() =~= d.to_multiset().insert(s.last()));
            if x == s.last() {
                assert(!d.contains(x)) by {
                    if d.contains(x) {
                        let i = choose|i: int| 0 <= i < d.len() && d[i] == x;
                        assert(s[i] == s[s.len() - 1]);
                    }
                }
                assert(d.to_multiset().count(x) == 0);
            }
        }
    }
}

/// Sorts byte strings into ascending order, keeping every occurrence.
pub fn sort_byte_vecs(input: Vec<Vec<u8>>) -> (r: Vec<Vec<u8>>)
    ensures
        views(r@).to_multiset() == views(input@).to_multiset(),
        forall|i: int, j: int|
            0 <= i < j < r@.len() ==> lex_lt(#[trigger] views(r@)[i], #[trigger] views(r@)[j])
                || views(r@)[i] == views(r@)[j],
{
    broadcast use vstd::seq_lib::group_to_multiset_ensures;

    let mut acc: Vec<Vec<u8>> = Vec::new();
    let n = input.len();
    let mut i: usize = 0;
    while i < n
        invariant
            n == input@.len(),
            i <= n,
            views(acc@).to_multiset() == views(input@).subrange(0, i as int).to_multiset(),
            forall|a: int, b: int|
                0 <= a < b < acc@.len() ==> lex_lt(
                    #[trigger] views(acc@)[a],
                    #[trigger] views(acc@)[b],
                ) || views(acc@)[a] == views(acc@)[b],
        decreases n - i,
    {
        let x = bytes_clone(&input[i]);
        let m = acc.len();
        let mut pos: usize = 0;
        loop
            invariant
                m == acc@.len(),
                pos <= m,
                i < input@.len(),
                x@ == input@[i as int]@,
                forall|a: int| 0 <= a < pos ==> lex_lt(#[trigger] views(acc@)[a], x@),
            ensures
                pos <= m,
                forall|a: int| 0 <= a < pos ==> lex_lt(#[trigger] views(acc@)[a], x@),
                pos < m ==> !lex_lt(views(acc@)[pos as int], x@),
            decreases m - pos,
        {
            if pos >= m {
                break;
            }
            if !bytes_lt(&acc[pos], &x) {
                proof {
                    assert(views(acc@)[pos as int] == acc@[pos as int]@);
                }
                break;
            }
            proof {
                assert(views(acc@)[pos as int] == acc@[pos as int]@);
            }
            pos = pos + 1;
        }
        let ghost old_acc = views(acc@);
        acc.insert(pos, x);
        proof {
            assert(views(acc@) =~= old_acc.insert(pos as int, input@[i as int]@));
            let cur = views(input@).subrange(0, i + 1);
            assert(cur.drop_last() =~= views(input@).subrange(0, i as int));
            assert(cur.last() == input@[i as int]@);
            assert(cur =~= views(input@).subrange(0, i as int).push(input@[i as int]@));
            assert(old_acc.insert(pos as int, input@[i as int]@) =~= old_acc.subrange(
                0,
                pos as int,
            ) + seq![input@[i as int]@] + old_acc.subrange(pos as int, m as int));
            lemma_multiset_parts(old_acc, pos as int, input@[i as int]@);
            assert(views(acc@).to_multiset() =~= old_acc.to_multiset().insert(input@[i as int]@));
            views(input@).subrange(0, i as int).to_multiset_ensures();
            assert(cur.to_multiset() =~= views(input@).subrange(0, i as int).to_multiset().insert(
                input@[i as int]@,
            ));
            assert(views(acc@).to_multiset() =~= views(input@).subrange(0, i + 1).to_multiset());
            assert forall|a: int, b: int|
                0 <= a < b < views(acc@).len() implies lex_lt(
                #[trigger] views(acc@)[a],
                #[trigger] views(acc@)[b],
            ) || views(acc@)[a] == views(acc@)[b] by {
                let v = views(acc@);
                let p = pos as int;
                if a < p && b < p {
                    assert(v[a] == old_acc[a] && v[b] == old_acc[b]);
                } else if a < p && b == p {
                    assert(v[a] == old_acc[a]);
                } else if a < p && b > p {
                    assert(v[a] == old_acc[a] && v[b] == old_acc[b - 1]);
                } else if a == p && b > p {
                    assert(v[b] == old_acc[b - 1]);
                    // acc[pos] did not sort before x, so x comes first or equal
                    if pos < m {
                        lemma_lex_lt_trichotomy(v[a], old_acc[p]);
                        if b - 1 > p {
                            lemma_lex_lt_transitivity_weak(v[a], old_acc[p], old_acc[b - 1]);
                        }
                    }
                } else if a > p && b > p {
                    assert(v[a] == old_acc[a - 1] && v[b] == old_acc[b - 1]);
                }
            }
        }
        i = i + 1;
    }
    proof {
        assert(views(input@).subrange(0, n as int) =~= views(input@));
    }
    acc
}

proof fn lemma_multiset_parts(s: Seq<Seq<u8>>, pos: int, x: Seq<u8>)
    requires
        0 <= pos <= s.len(),
    ensures
        (s.subrange(0, pos) + seq![x] + s.subrange(pos, s.len() as int)).to_multiset()
            == s.to_multiset().insert(x),
{
    broadcast use vstd::seq_lib::group_to_multiset_ensures;

    let a = s.subrange(0, pos);
    let b = s.subrange(pos, s.len() as int);
    vstd::seq_lib::lemma_multiset_commutative(a + seq![x], b);
    vstd::seq_lib::lemma_multiset_commutative(a, seq![x]);
    vstd::seq_lib::lemma_multiset_commutative(a, b);
    assert(a + b =~= s);
    assert(seq![x].to_multiset() =~= Multiset::<Seq<u8>>::empty().insert(x)) by {
        assert(seq![x] =~= Seq::<Seq<u8>>::empty().push(x));
        assert(Seq::<Seq<u8>>::empty().push(x).to_multiset() =~= Seq::<Seq<u8>>::empty().to_multiset().insert(x));
    }
    assert((a + seq![x] + b).to_multiset() =~= s.to_multiset().insert(x));
}

/// Transitivity over the reflexive closure of the byte order.
proof fn lemma_lex_lt_transitivity_weak(a: Seq<u8>, b: Seq<u8>, c: Seq<u8>)
    requires
        lex_lt(a, b) || a == b,
        lex_lt(b, c) || b == c,
    ensures
        lex_lt(a, c) || a == c,
{
    if a != b && b != c {
        lemma_lex_lt_transitive(a, b, c);
    }
}


/// The least index at or after `from` holding byte `b`, or -1.
pub open spec fn first_at(s: Seq<u8>, b: u8, from: int) -> int
    decreases s.len() - from,
{
    if from < 0 || from >= s.len() {
        -1
    } else if s[from] == b {
        from
    } else {
        first_at(s, b, from + 1)
    }
}

/// A witness position pins `first_at` exactly.
pub proof fn lemma_first_at_found(s: Seq<u8>, b: u8, from: int, at: int)
    requires
        0 <= from <= at < s.len(),
        s[at] == b,
        forall|x: int| from <= x < at ==> s[x] != b,
    ensures
        first_at(s, b, from) == at,
    decreases at - from,
{
    if from < at {
        lemma_first_at_found(s, b, from + 1, at);
    }
}

/// Absence past `from` pins `first_at` to -1.
pub proof fn lemma_first_at_none(s: Seq<u8>, b: u8, from: int)
    requires
        0 <= from,
        forall|x: int| from <= x < s.len() ==> s[x] != b,
    ensures
        first_at(s, b, from) == -1,
    decreases s.len() - from,
{
    if from < s.len() {
        lemma_first_at_none(s, b, from + 1);
    }
}

/// Where `first_at` finds something, the find is sound.
pub proof fn lemma_first_at(s: Seq<u8>, b: u8, from: int)
    requires
        0 <= from,
    ensures
        first_at(s, b, from) != -1 ==> {
            &&& from <= first_at(s, b, from) < s.len()
            &&& s[first_at(s, b, from)] == b
            &&& forall|x: int| from <= x < first_at(s, b, from) ==> s[x] != b
        },
        first_at(s, b, from) == -1 ==> forall|x: int| from <= x < s.len() ==> s[x] != b,
    decreases s.len() - from,
{
    if from < s.len() && s[from] != b {
        lemma_first_at(s, b, from + 1);
    }
}

} // verus!
