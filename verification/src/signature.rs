use vstd::prelude::*;

use crate::bytes::all_digits;
use crate::bytes::dec_val;
use crate::bytes::int_dec;
use crate::bytes::i64_to_dec;
use crate::bytes::is_digit;
use crate::bytes::join_sep;
use crate::bytes::nonempty_parts;
use crate::bytes::push_all;
use crate::bytes::split_at_seps;
use crate::bytes::split_bytes;
use crate::bytes::dec_digits;
use crate::errors::RepoError;

verus! {

/// Which line of a commit a signature is serialized as.
pub enum SignatureKind {
    Author,
    Committer,
}

/// `"author"`
pub open spec fn spec_author_tag() -> Seq<u8> {
    seq![97u8, 117, 116, 104, 111, 114]
}

/// `"committer"`
pub open spec fn spec_committer_tag() -> Seq<u8> {
    seq![99u8, 111, 109, 109, 105, 116, 116, 101, 114]
}

pub open spec fn spec_role(kind: SignatureKind) -> Seq<u8> {
    match kind {
        SignatureKind::Author => spec_author_tag(),
        SignatureKind::Committer => spec_committer_tag(),
    }
}

/// Who made or recorded a commit: a name, an email address, and the moment
/// as seconds since the epoch with the local zone's offset from UTC.
#[derive(Debug, Clone)]
pub struct Signature {
    name: Vec<u8>,
    email: Vec<u8>,
    timestamp: i64,
    offset_seconds: i32,
}

impl View for Signature {
    type V = (Seq<u8>, Seq<u8>, int, int);

    closed spec fn view(&self) -> (Seq<u8>, Seq<u8>, int, int) {
        (self.name@, self.email@, self.timestamp as int, self.offset_seconds as int)
    }
}

/// A name that survives serialization: its space-separated words are all
/// nonempty (so no leading, trailing or doubled spaces), none opens like an
/// email, and no byte collides with the commit format's terminators.
pub open spec fn sig_name_wf(name: Seq<u8>) -> bool {
    let parts = split_at_seps(name, 32);
    &&& forall|i: int|
        0 <= i < parts.len() ==> (#[trigger] parts[i]).len() > 0 && parts[i][0] != 60
    &&& forall|i: int| 0 <= i < name.len() ==> #[trigger] name[i] != 0 && name[i] != 10
}

/// An email that survives serialization: nonempty and free of spaces and of
/// the commit format's terminators.
pub open spec fn sig_email_wf(email: Seq<u8>) -> bool {
    &&& email.len() > 0
    &&& forall|i: int|
        0 <= i < email.len() ==> #[trigger] email[i] != 0 && email[i] != 10 && email[i] != 32
}

/// A zone offset as chrono bounds it, rounded to whole minutes as the
/// serialized form keeps it.
pub open spec fn sig_offset_wf(off: int) -> bool {
    -86400 < off < 86400 && off % 60 == 0
}

impl Signature {
    /// A signature that survives a round trip through a commit object.
    pub open spec fn wf(&self) -> bool {
        sig_name_wf(self@.0) && sig_email_wf(self@.1) && sig_offset_wf(self@.3)
    }
}

// ----------------------------------------------------------------------------
// Zone offsets
// ----------------------------------------------------------------------------

pub open spec fn spec_two_digits(n: int) -> Seq<u8> {
    seq![(48 + n / 10) as u8, (48 + n % 10) as u8]
}

/// A zone offset as `±HHMM`, whole minutes only.
pub open spec fn spec_format_offset(off: int) -> Seq<u8> {
    let sign = if off >= 0 {
        seq![43u8]
    } else {
        seq![45u8]
    };
    let mag = if off >= 0 {
        off
    } else {
        -off
    };
    let mins = mag / 60;
    sign + spec_two_digits(mins / 60) + spec_two_digits(mins % 60)
}

/// The offset in seconds that a `±HHMM` token denotes.
pub open spec fn spec_parse_offset(s: Seq<u8>) -> Option<int> {
    if s.len() != 5 {
        None
    } else if s[0] != 43 && s[0] != 45 {
        None
    } else if !all_digits(s.skip(1)) {
        None
    } else {
        let h = dec_val(s.subrange(1, 3));
        let m = dec_val(s.subrange(3, 5));
        let v = h * 3600 + m * 60;
        Some(
            if s[0] == 43 {
                v as int
            } else {
                -(v as int)
            },
        )
    }
}

/// Writes a zone offset as `±HHMM`.
pub fn format_offset(offset_seconds: i32) -> (r: Vec<u8>)
    requires
        -86400 < offset_seconds < 86400,
    ensures
        r@ == spec_format_offset(offset_seconds as int),
{
    let sign: u8 = if offset_seconds >= 0 {
        43
    } else {
        45
    };
    let mag: i32 = if offset_seconds >= 0 {
        offset_seconds
    } else {
        -offset_seconds
    };
    let mins = mag / 60;
    let hours = mins / 60;
    let minutes = mins % 60;
    let mut r: Vec<u8> = Vec::new();
    r.push(sign);
    r.push(48 + (hours / 10) as u8);
    r.push(48 + (hours % 10) as u8);
    r.push(48 + (minutes / 10) as u8);
    r.push(48 + (minutes % 10) as u8);
    assert(r@ =~= spec_format_offset(offset_seconds as int));
    r
}

/// Reads a `±HHMM` token back into seconds.
pub fn parse_offset(s: &Vec<u8>) -> (r: Result<i32, RepoError>)
    ensures
        match r {
            Ok(v) => spec_parse_offset(s@) == Some(v as int),
            Err(e) => e == RepoError::InvalidObjectFormat && spec_parse_offset(s@) is None,
        },
{
    if s.len() != 5 {
        return Err(RepoError::InvalidObjectFormat);
    }
    let sign: i32 = if s[0] == 43 {
        1
    } else if s[0] == 45 {
        -1
    } else {
        return Err(RepoError::InvalidObjectFormat);
    };
    let c1 = s[1];
    let c2 = s[2];
    let c3 = s[3];
    let c4 = s[4];
    if c1 < 48 || c1 > 57 || c2 < 48 || c2 > 57 || c3 < 48 || c3 > 57 || c4 < 48 || c4 > 57 {
        proof {
            assert(!all_digits(s@.skip(1))) by {
                if c1 < 48 || c1 > 57 {
                    assert(!is_digit(s@.skip(1)[0]));
                } else if c2 < 48 || c2 > 57 {
                    assert(!is_digit(s@.skip(1)[1]));
                } else if c3 < 48 || c3 > 57 {
                    assert(!is_digit(s@.skip(1)[2]));
                } else {
                    assert(!is_digit(s@.skip(1)[3]));
                }
            }
        }
        return Err(RepoError::InvalidObjectFormat);
    }
    let hours: i32 = (c1 - 48) as i32 * 10 + (c2 - 48) as i32;
    let minutes: i32 = (c3 - 48) as i32 * 10 + (c4 - 48) as i32;
    proof {
        assert(0 <= hours <= 99 && 0 <= minutes <= 99);
        assert(hours * 3600 + minutes * 60 <= 362340) by (nonlinear_arith)
            requires
                0 <= hours <= 99 && 0 <= minutes <= 99,
        ;
        assert(hours * 3600 + minutes * 60 >= 0) by (nonlinear_arith)
            requires
                0 <= hours && 0 <= minutes,
        ;
    }
    let v = sign * (hours * 3600 + minutes * 60);
    proof {
        assert(all_digits(s@.skip(1))) by {
            assert forall|i: int| 0 <= i < s@.skip(1).len() implies is_digit(
                #[trigger] s@.skip(1)[i],
            ) by {
                assert(s@.skip(1)[i] == s@[i + 1]);
            }
        }
        reveal_with_fuel(dec_val, 4);
        let hs = s@.subrange(1, 3);
        assert(hs.drop_last() =~= seq![c1]);
        assert(seq![c1].drop_last() =~= Seq::<u8>::empty());
        assert(dec_val(hs) == (c1 - 48) * 10 + (c2 - 48));
        let ms = s@.subrange(3, 5);
        assert(ms.drop_last() =~= seq![c3]);
        assert(seq![c3].drop_last() =~= Seq::<u8>::empty());
        assert(dec_val(ms) == (c3 - 48) * 10 + (c4 - 48));
    }
    Ok(v)
}

/// Writing an offset of whole minutes and reading it back changes nothing.
pub proof fn lemma_offset_round_trip(off: int)
    requires
        sig_offset_wf(off),
    ensures
        spec_parse_offset(spec_format_offset(off)) == Some(off),
{
    let s = spec_format_offset(off);
    let mag = if off >= 0 {
        off
    } else {
        -off
    };
    let mins = mag / 60;
    let h = mins / 60;
    let m = mins % 60;
    assert(0 <= h < 24);
    assert(0 <= m < 60);
    assert(s.len() == 5);
    assert(s.subrange(1, 3) =~= spec_two_digits(h));
    assert(s.subrange(3, 5) =~= spec_two_digits(m));
    assert(all_digits(s.skip(1))) by {
        assert forall|i: int| 0 <= i < s.skip(1).len() implies is_digit(
            #[trigger] s.skip(1)[i],
        ) by {
            assert(s.skip(1)[i] == s[i + 1]);
        }
    }
    lemma_two_digit_val(h);
    lemma_two_digit_val(m);
    assert(h * 3600 + m * 60 == mins * 60) by {
        assert(h * 60 + m == mins);
        assert((h * 60 + m) * 60 == h * 3600 + m * 60) by (nonlinear_arith);
    }
    assert(mins * 60 == mag) by {
        assert(mag % 60 == 0);
        assert(mag / 60 * 60 + mag % 60 == mag);
    }
}

proof fn lemma_two_digit_val(n: int)
    requires
        0 <= n < 100,
    ensures
        dec_val(spec_two_digits(n)) == n,
{
    reveal_with_fuel(dec_val, 4);
    let s = spec_two_digits(n);
    assert(s.drop_last() =~= seq![(48 + n / 10) as u8]);
    assert(seq![(48 + n / 10) as u8].drop_last() =~= Seq::<u8>::empty());
    assert(dec_val(s) == (n / 10) * 10 + n % 10);
}

// ----------------------------------------------------------------------------
// Serializing a signature
// ----------------------------------------------------------------------------

/// One signature line of a commit:
/// `"<role> <name> <<email>> <unix-seconds> <±HHMM>"`.
pub open spec fn spec_signature_line(
    role: Seq<u8>,
    name: Seq<u8>,
    email: Seq<u8>,
    ts: int,
    off: int,
) -> Seq<u8> {
    role + seq![32u8] + name + seq![32u8, 60u8] + email + seq![62u8, 32u8] + int_dec(ts)
        + seq![32u8] + spec_format_offset(off)
}

fn role_bytes(kind: &SignatureKind) -> (r: Vec<u8>)
    ensures
        r@ == spec_role(*kind),
{
    let mut v: Vec<u8> = Vec::new();
    match kind {
        SignatureKind::Author => {
            v.push(97);
            v.push(117);
            v.push(116);
            v.push(104);
            v.push(111);
            v.push(114);
            assert(v@ =~= spec_author_tag());
        },
        SignatureKind::Committer => {
            v.push(99);
            v.push(111);
            v.push(109);
            v.push(109);
            v.push(105);
            v.push(116);
            v.push(116);
            v.push(101);
            v.push(114);
            assert(v@ =~= spec_committer_tag());
        },
    }
    v
}

/// Cuts an offset down to whole minutes, toward zero.
fn round_to_minute(off: i32) -> (r: i32)
    requires
        -86400 < off < 86400,
    ensures
        sig_offset_wf(r as int),
        off as int % 60 == 0 ==> r == off,
{
    if off >= 0 {
        let m = off % 60;
        let r = off - m;
        proof {
            assert(r == (off / 60) * 60);
            vstd::arithmetic::div_mod::lemma_mod_multiples_basic(off as int / 60, 60);
        }
        r
    } else {
        let p = -off;
        let m = p % 60;
        let r = -(p - m);
        proof {
            assert(p - m == (p / 60) * 60);
            vstd::arithmetic::div_mod::lemma_mod_multiples_basic(-(p as int / 60), 60);
            assert(r == (-(p as int / 60)) * 60);
            if off as int % 60 == 0 {
                vstd::arithmetic::div_mod::lemma_fundamental_div_mod(off as int, 60);
                assert(off as int == 60 * (off as int / 60));
                vstd::arithmetic::div_mod::lemma_mod_multiples_basic(-(off as int / 60), 60);
                assert(p as int == (-(off as int / 60)) * 60);
                vstd::arithmetic::div_mod::lemma_mod_multiples_basic(-(off as int / 60), 60);
                assert(p as int % 60 == 0);
                assert(m == 0);
            }
        }
        r
    }
}

/// Relies on chrono::Local::now and DateTime::fixed_offset: the clock's
/// seconds since the epoch, and the local zone's offset from UTC, which a
/// FixedOffset keeps strictly within one day.
#[verifier::external_body]
fn now_local() -> (r: (i64, i32))
    ensures
        -86400 < r.1 < 86400,
{
    let now = chrono::Local::now().fixed_offset();
    (now.timestamp(), now.offset().local_minus_utc())
}

impl Signature {
    /// A signature for `name` and `email` at the present moment, its zone
    /// offset rounded to the whole minute that serialization keeps.
    pub fn new(name: Vec<u8>, email: Vec<u8>) -> (sig: Signature)
        ensures
            sig@.0 == name@,
            sig@.1 == email@,
            sig_offset_wf(sig@.3),
    {
        let (timestamp, raw_offset) = now_local();
        let offset_seconds = round_to_minute(raw_offset);
        Signature { name, email, timestamp, offset_seconds }
    }

    /// A signature with every field given; the moment is taken as is, the
    /// offset rounded to the whole minute that serialization keeps.
    pub fn at_time(name: Vec<u8>, email: Vec<u8>, timestamp: i64, offset_seconds: i32) -> (sig:
        Signature)
        requires
            -86400 < offset_seconds < 86400,
        ensures
            sig@.0 == name@,
            sig@.1 == email@,
            sig@.2 == timestamp as int,
            sig_offset_wf(sig@.3),
            offset_seconds as int % 60 == 0 ==> sig@.3 == offset_seconds as int,
    {
        let offset_seconds = round_to_minute(offset_seconds);
        Signature { name, email, timestamp, offset_seconds }
    }

    pub fn name(&self) -> (r: &Vec<u8>)
        ensures
            r@ == self@.0,
    {
        &self.name
    }

    pub fn email(&self) -> (r: &Vec<u8>)
        ensures
            r@ == self@.1,
    {
        &self.email
    }

    pub fn timestamp(&self) -> (r: i64)
        ensures
            r as int == self@.2,
    {
        self.timestamp
    }

    pub fn offset_seconds(&self) -> (r: i32)
        ensures
            r as int == self@.3,
    {
        self.offset_seconds
    }

    /// A signature's timestamp always fits the machine integer it is kept
    /// in, though the view hides the representation.
    pub proof fn lemma_timestamp_bounds(&self)
        ensures
            i64::MIN <= self@.2 <= i64::MAX,
    {
    }

    /// Writes the signature as one commit line under the given role.
    pub fn serialize_as(&self, kind: SignatureKind) -> (r: Vec<u8>)
        requires
            -86400 < self@.3 < 86400,
        ensures
            r@ == spec_signature_line(spec_role(kind), self@.0, self@.1, self@.2, self@.3),
    {
        let mut r = role_bytes(&kind);
        r.push(32);
        push_all(&mut r, &self.name);
        r.push(32);
        r.push(60);
        push_all(&mut r, &self.email);
        r.push(62);
        r.push(32);
        let ts = i64_to_dec(self.timestamp);
        push_all(&mut r, &ts);
        r.push(32);
        let off = format_offset(self.offset_seconds);
        push_all(&mut r, &off);
        assert(r@ =~= spec_signature_line(spec_role(kind), self@.0, self@.1, self@.2, self@.3));
        r
    }
}

// ----------------------------------------------------------------------------
// Parsing a signature
// ----------------------------------------------------------------------------

/// The space-separated words of a line, empties dropped.
pub open spec fn ws_tokens(s: Seq<u8>) -> Seq<Seq<u8>> {
    nonempty_parts(split_at_seps(s, 32))
}

/// Splits a token list at the first token that opens like an email.
pub open spec fn split_name(toks: Seq<Seq<u8>>) -> (Seq<Seq<u8>>, Seq<Seq<u8>>)
    decreases toks.len(),
{
    if toks.len() == 0 {
        (Seq::<Seq<u8>>::empty(), Seq::<Seq<u8>>::empty())
    } else if toks[0].len() > 0 && toks[0][0] == 60 {
        (Seq::<Seq<u8>>::empty(), toks)
    } else {
        let r = split_name(toks.drop_first());
        (seq![toks[0]] + r.0, r.1)
    }
}

proof fn lemma_split_name_at(t: Seq<Seq<u8>>, m: int)
    requires
        0 <= m <= t.len(),
        forall|j: int| 0 <= j < m ==> !((#[trigger] t[j]).len() > 0 && t[j][0] == 60),
        m < t.len() ==> (t[m].len() > 0 && t[m][0] == 60),
    ensures
        split_name(t).0 == t.subrange(0, m),
        split_name(t).1 == t.skip(m),
    decreases m,
{
    if m == 0 {
        assert(t.subrange(0, 0) =~= Seq::<Seq<u8>>::empty());
        assert(t.skip(0) =~= t);
    } else {
        assert forall|j: int| 0 <= j < m - 1 implies !((#[trigger] t.drop_first()[j]).len() > 0
            && t.drop_first()[j][0] == 60) by {
            assert(t.drop_first()[j] == t[j + 1]);
        }
        assert(m - 1 < t.drop_first().len() ==> (t.drop_first()[m - 1].len() > 0
            && t.drop_first()[m - 1][0] == 60)) by {
            if m - 1 < t.drop_first().len() {
                assert(t.drop_first()[m - 1] == t[m]);
            }
        }
        lemma_split_name_at(t.drop_first(), m - 1);
        assert(seq![t[0]] + t.drop_first().subrange(0, m - 1) =~= t.subrange(0, m));
        assert(t.drop_first().skip(m - 1) =~= t.skip(m));
    }
}

/// What a signature line denotes: the name (one or more words before the
/// email), the email between its brackets, the timestamp, and the offset,
/// bounded as chrono accepts it. The leading role word is skipped.
pub open spec fn spec_parse_signature(line: Seq<u8>) -> Option<(Seq<u8>, Seq<u8>, int, int)> {
    let toks = ws_tokens(line);
    if toks.len() == 0 {
        None
    } else {
        let name_parts = split_name(toks.drop_first()).0;
        let rest = split_name(toks.drop_first()).1;
        if name_parts.len() == 0 {
            None
        } else if rest.len() < 3 {
            None
        } else {
            let email_tok = rest[0];
            if !(email_tok.len() >= 2 && email_tok[0] == 60 && email_tok.last() == 62) {
                None
            } else {
                let email = email_tok.subrange(1, email_tok.len() - 1);
                match crate::bytes::spec_parse_int(rest[1]) {
                    None => None,
                    Some(ts) => if ts < i64::MIN || ts > i64::MAX {
                        None
                    } else {
                        match spec_parse_offset(rest[2]) {
                            None => None,
                            Some(off) => if -86400 < off < 86400 {
                                Some((join_sep(name_parts, 32), email, ts, off))
                            } else {
                                None
                            },
                        }
                    },
                }
            }
        }
    }
}

impl Signature {
    /// Reads one commit signature line back into a signature.
    pub fn deserialize(line: &Vec<u8>) -> (r: Result<Signature, RepoError>)
        ensures
            match r {
                Ok(sig) => {
                    &&& spec_parse_signature(line@) == Some((sig@.0, sig@.1, sig@.2, sig@.3))
                    &&& sig_offset_wf(sig@.3)
                },
                Err(e) => {
                    &&& e == RepoError::InvalidObjectFormat
                    &&& spec_parse_signature(line@) is None
                },
            },
    {
        let raw = split_bytes(line, 32);
        let toks = crate::bytes::filter_nonempty(raw);
        proof {
            crate::bytes::lemma_nonempty_parts_nonempty(split_at_seps(line@, 32));
        }
        let n = toks.len();
        if n == 0 {
            return Err(RepoError::InvalidObjectFormat);
        }
        let ghost tv = crate::bytes::views(toks@);
        let mut k: usize = 1;
        loop
            invariant
                1 <= k <= n,
                n == toks@.len(),
                tv == crate::bytes::views(toks@),
                tv == ws_tokens(line@),
                forall|i: int| 0 <= i < tv.len() ==> (#[trigger] tv[i]).len() > 0,
                forall|j: int| 1 <= j < k ==> (#[trigger] tv[j])[0] != 60,
            ensures
                1 <= k <= n,
                forall|j: int| 1 <= j < k ==> (#[trigger] tv[j])[0] != 60,
                k < n ==> tv[k as int][0] == 60,
            decreases n - k,
        {
            if k == n {
                break;
            }
            assert(tv[k as int].len() > 0);
            if toks[k].len() > 0 && toks[k][0] == 60 {
                break;
            }
            k = k + 1;
        }
        proof {
            assert forall|j: int| 0 <= j < k - 1 implies !((#[trigger] tv.drop_first()[j]).len()
                > 0 && tv.drop_first()[j][0] == 60) by {
                assert(tv.drop_first()[j] == tv[j + 1]);
            }
            if k < n {
                assert(tv.drop_first()[k - 1] == tv[k as int]);
            }
            lemma_split_name_at(tv.drop_first(), k - 1);
        }
        if k == 1 {
            return Err(RepoError::InvalidObjectFormat);
        }
        if n - k < 3 {
            assert(split_name(tv.drop_first()).1.len() < 3);
            return Err(RepoError::InvalidObjectFormat);
        }
        let ghost rest = split_name(tv.drop_first()).1;
        proof {
            assert(rest[0] == tv[k as int]);
            assert(rest[1] == tv[k as int + 1]);
            assert(rest[2] == tv[k as int + 2]);
        }
        let email_tok = &toks[k];
        if !(email_tok.len() >= 2 && email_tok[0] == 60 && email_tok[email_tok.len() - 1] == 62) {
            proof {
                if tv[k as int].len() >= 2 {
                    assert(tv[k as int].last() == email_tok@[email_tok@.len() - 1]);
                }
            }
            return Err(RepoError::InvalidObjectFormat);
        }
        let email = crate::bytes::bytes_range(email_tok, 1, email_tok.len() - 1);
        let timestamp = match crate::bytes::parse_dec_i64(&toks[k + 1]) {
            Some(v) => v,
            None => {
                return Err(RepoError::InvalidObjectFormat);
            },
        };
        let offset_seconds = match parse_offset(&toks[k + 2]) {
            Ok(v) => v,
            Err(e) => {
                return Err(e);
            },
        };
        if !(-86400 < offset_seconds && offset_seconds < 86400) {
            return Err(RepoError::InvalidObjectFormat);
        }
        let mut name: Vec<u8> = crate::bytes::bytes_clone(&toks[1]);
        let ghost name_parts = split_name(tv.drop_first()).0;
        proof {
            assert(name_parts =~= tv.subrange(1, k as int));
            assert(name@ =~= join_sep(name_parts.subrange(0, 1), 32)) by {
                assert(name_parts.subrange(0, 1) =~= seq![tv[1]]);
            }
        }
        let mut j: usize = 2;
        while j < k
            invariant
                2 <= j <= k <= n,
                n == toks@.len(),
                tv == crate::bytes::views(toks@),
                name_parts == split_name(tv.drop_first()).0,
                name_parts =~= tv.subrange(1, k as int),
                name@ == join_sep(name_parts.subrange(0, j - 1), 32),
            decreases k - j,
        {
            name.push(32);
            crate::bytes::push_all(&mut name, &toks[j]);
            proof {
                crate::bytes::lemma_join_sep_push(
                    name_parts.subrange(0, j - 1),
                    tv[j as int],
                    32,
                );
                assert(name_parts.subrange(0, j as int) =~= name_parts.subrange(0, j - 1).push(
                    tv[j as int],
                ));
                assert(name@ =~= join_sep(name_parts.subrange(0, j - 1), 32) + seq![32u8]
                    + tv[j as int]);
            }
            j = j + 1;
        }
        proof {
            assert(name_parts.subrange(0, k - 1) =~= name_parts);
            // The parsed offset is a whole number of minutes.
            let off_tok = tv[k as int + 2];
            let h = dec_val(off_tok.subrange(1, 3)) as int;
            let m = dec_val(off_tok.subrange(3, 5)) as int;
            assert(h * 3600 + m * 60 == (h * 60 + m) * 60) by (nonlinear_arith);
            vstd::arithmetic::div_mod::lemma_mod_multiples_basic(h * 60 + m, 60);
            vstd::arithmetic::div_mod::lemma_mod_multiples_basic(-(h * 60 + m), 60);
            assert((-((h * 60 + m) * 60)) == (-(h * 60 + m)) * 60) by (nonlinear_arith);
        }
        Ok(Signature { name, email, timestamp, offset_seconds })
    }
}

/// A well-formed signature, written as a commit line and read back, is
/// itself again.
#[verifier::rlimit(100)]
pub proof fn lemma_signature_round_trip(
    kind: SignatureKind,
    name: Seq<u8>,
    email: Seq<u8>,
    ts: int,
    off: int,
)
    requires
        sig_name_wf(name),
        sig_email_wf(email),
        sig_offset_wf(off),
        i64::MIN <= ts <= i64::MAX,
    ensures
        spec_parse_signature(spec_signature_line(spec_role(kind), name, email, ts, off)) == Some(
            (name, email, ts, off),
        ),
{
    let role = spec_role(kind);
    let line = spec_signature_line(role, name, email, ts, off);
    let email_tok = seq![60u8] + email + seq![62u8];
    let dec = int_dec(ts);
    let off_tok = spec_format_offset(off);
    crate::bytes::lemma_dec_digits_wf(if ts < 0 {
        (-ts) as nat
    } else {
        ts as nat
    });
    // The line splits into role, name words, email token, numeral, offset.
    assert(line =~= role + seq![32u8] + (name + seq![32u8] + (email_tok + seq![32u8] + (dec
        + seq![32u8] + off_tok))));
    crate::bytes::lemma_split_append(
        dec,
        off_tok,
        32,
    );
    crate::bytes::lemma_split_append(email_tok, dec + seq![32u8] + off_tok, 32);
    crate::bytes::lemma_split_append(name, email_tok + seq![32u8] + (dec + seq![32u8] + off_tok), 32);
    crate::bytes::lemma_split_append(
        role,
        name + seq![32u8] + (email_tok + seq![32u8] + (dec + seq![32u8] + off_tok)),
        32,
    );
    assert(no_space(role)) by {
        assert forall|i: int| 0 <= i < role.len() implies #[trigger] role[i] != 32 by {
            if role.len() == 6 {
                assert(role == spec_author_tag());
            } else {
                assert(role == spec_committer_tag());
            }
        }
    }
    crate::bytes::lemma_split_nosep(role, 32);
    assert(no_space(email_tok)) by {
        assert forall|i: int| 0 <= i < email_tok.len() implies #[trigger] email_tok[i] != 32 by {
            if 0 < i < email_tok.len() - 1 {
                assert(email_tok[i] == email[i - 1]);
            }
        }
    }
    crate::bytes::lemma_split_nosep(email_tok, 32);
    assert(no_space(dec)) by {
        if ts < 0 {
            assert forall|i: int| 0 <= i < dec.len() implies #[trigger] dec[i] != 32 by {
                if i > 0 {
                    assert(dec[i] == dec_digits((-ts) as nat)[i - 1]);
                    assert(is_digit(dec_digits((-ts) as nat)[i - 1]));
                }
            }
        } else {
            assert(all_digits(dec));
            assert forall|i: int| 0 <= i < dec.len() implies #[trigger] dec[i] != 32 by {
                assert(is_digit(dec[i]));
            }
        }
    }
    crate::bytes::lemma_split_nosep(dec, 32);
    assert(no_space(off_tok)) by {
        assert(off_tok.len() == 5);
        assert(off_tok[0] == 43 || off_tok[0] == 45);
        assert forall|i: int| 0 <= i < off_tok.len() implies #[trigger] off_tok[i] != 32 by {}
    }
    crate::bytes::lemma_split_nosep(off_tok, 32);
    let name_parts = split_at_seps(name, 32);
    crate::bytes::lemma_split_at_seps_wf(name, 32);
    let toks_full = seq![role] + name_parts + seq![email_tok] + seq![dec] + seq![off_tok];
    assert(split_at_seps(line, 32) =~= toks_full);
    // Every part is nonempty, so the word list is the part list itself.
    assert forall|i: int| 0 <= i < toks_full.len() implies (#[trigger] toks_full[i]).len()
        > 0 by {
        if 1 <= i < 1 + name_parts.len() {
            assert(toks_full[i] == name_parts[i - 1]);
        }
    }
    crate::bytes::lemma_nonempty_parts_id(toks_full);
    assert(ws_tokens(line) == toks_full);
    // The name words stop exactly at the email token.
    let after_role = toks_full.drop_first();
    assert(after_role =~= name_parts + seq![email_tok] + seq![dec] + seq![off_tok]);
    assert forall|j: int| 0 <= j < name_parts.len() implies !((#[trigger] after_role[j]).len() > 0
        && after_role[j][0] == 60) by {
        assert(after_role[j] == name_parts[j]);
    }
    assert(after_role[name_parts.len() as int] == email_tok);
    lemma_split_name_at(after_role, name_parts.len() as int);
    assert(split_name(after_role).0 =~= name_parts);
    assert(split_name(after_role).1 =~= seq![email_tok, dec, off_tok]);
    assert(email_tok.subrange(1, email_tok.len() - 1) =~= email);
    crate::bytes::lemma_int_dec_round_trip(ts);
    lemma_offset_round_trip(off);
    assert(join_sep(name_parts, 32) == name);
}

/// No spaces in a byte string.
pub open spec fn no_space(s: Seq<u8>) -> bool {
    crate::bytes::no_byte(s, 32)
}

/// A well-formed signature's line holds no newline, and never opens like a
/// parent line of a commit.
pub proof fn lemma_signature_line_clean(
    kind: SignatureKind,
    name: Seq<u8>,
    email: Seq<u8>,
    ts: int,
    off: int,
)
    requires
        sig_name_wf(name),
        sig_email_wf(email),
        sig_offset_wf(off),
    ensures
        crate::bytes::no_byte(spec_signature_line(spec_role(kind), name, email, ts, off), 10),
        spec_signature_line(spec_role(kind), name, email, ts, off)[0] != 112,
{
    let role = spec_role(kind);
    let line = spec_signature_line(role, name, email, ts, off);
    let dec = int_dec(ts);
    let off_tok = spec_format_offset(off);
    crate::bytes::lemma_dec_digits_wf(if ts < 0 {
        (-ts) as nat
    } else {
        ts as nat
    });
    let rl = role.len() as int;
    let nl = name.len() as int;
    let el = email.len() as int;
    let dl = dec.len() as int;
    assert forall|i: int| 0 <= i < line.len() implies #[trigger] line[i] != 10 by {
        if i < rl {
            assert(line[i] == role[i]);
            if kind is Author {
                assert(role == spec_author_tag());
            } else {
                assert(role == spec_committer_tag());
            }
        } else if i == rl {
        } else if i < rl + 1 + nl {
            assert(line[i] == name[i - rl - 1]);
        } else if i < rl + 3 + nl {
        } else if i < rl + 3 + nl + el {
            assert(line[i] == email[i - rl - 3 - nl]);
        } else if i < rl + 5 + nl + el {
        } else if i < rl + 5 + nl + el + dl {
            assert(line[i] == dec[i - rl - 5 - nl - el]);
            if ts < 0 {
                if i - rl - 5 - nl - el > 0 {
                    assert(dec[i - rl - 5 - nl - el] == dec_digits((-ts) as nat)[i - rl - 6 - nl
                        - el]);
                    assert(is_digit(dec_digits((-ts) as nat)[i - rl - 6 - nl - el]));
                }
            } else {
                assert(is_digit(dec[i - rl - 5 - nl - el]));
            }
        } else if i == rl + 5 + nl + el + dl {
        } else {
            assert(line[i] == off_tok[i - rl - 6 - nl - el - dl]);
            assert(off_tok.len() == 5);
        }
    }
    assert(line[0] == role[0]);
    if kind is Author {
        assert(role == spec_author_tag());
    } else {
        assert(role == spec_committer_tag());
    }
}

} // verus!
