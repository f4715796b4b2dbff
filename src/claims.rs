//! The claim set that a session token carries, written as JSON bytes in one
//! fixed form, and read back from that form.
//!
//! The form is `{"exp":<decimal>,"iss":"<text>","sub":"<text>"}`. Inside the
//! two texts `"` and `\` are escaped with a backslash, the bytes 0x08, 0x09,
//! 0x0a, 0x0c and 0x0d as `\b`, `\t`, `\n`, `\f` and `\r`, the other bytes
//! below 0x20 as `\u00xx` with lower-case hex digits; all other bytes stand
//! as they are. This is the form serde_json writes.

use vstd::prelude::*;

verus! {

pub const QUOTE: u8 = 34;

pub const BACKSLASH: u8 = 92;

/// `{"exp":`
pub const OPEN_EXP: [u8; 7] = [123u8, 34, 101, 120, 112, 34, 58];

/// `,"iss":"`
pub const ISS_KEY: [u8; 8] = [44u8, 34, 105, 115, 115, 34, 58, 34];

/// `","sub":"`
pub const SUB_KEY: [u8; 9] = [34u8, 44, 34, 115, 117, 98, 34, 58, 34];

/// `"}`
pub const CLOSE: [u8; 2] = [34u8, 125];

pub open spec fn is_digit(c: u8) -> bool {
    48 <= c <= 57
}

pub open spec fn hex_digit(n: int) -> u8 {
    if n < 10 {
        (48 + n) as u8
    } else {
        (87 + n) as u8
    }
}

pub open spec fn is_hex_digit(c: u8) -> bool {
    (48 <= c <= 57) || (97 <= c <= 102)
}

pub open spec fn hex_value(c: u8) -> int {
    if c <= 57 {
        c - 48
    } else {
        c - 87
    }
}

/// Whether a control byte has a one-letter escape.
pub open spec fn has_short_escape(b: u8) -> bool {
    b == 8 || b == 9 || b == 10 || b == 12 || b == 13
}

/// The letter of a one-letter escape: `b`, `t`, `n`, `f` or `r`.
pub open spec fn short_escape(b: u8) -> u8 {
    if b == 8 {
        98
    } else if b == 9 {
        116
    } else if b == 10 {
        110
    } else if b == 12 {
        102
    } else {
        114
    }
}

pub open spec fn is_short_letter(c: u8) -> bool {
    c == 98 || c == 116 || c == 110 || c == 102 || c == 114
}

/// The byte that a one-letter escape stands for.
pub open spec fn short_unescape(c: u8) -> u8 {
    if c == 98 {
        8
    } else if c == 116 {
        9
    } else if c == 110 {
        10
    } else if c == 102 {
        12
    } else {
        13
    }
}

/// How one byte of a text is written inside quotes.
pub open spec fn escaped_byte(b: u8) -> Seq<u8> {
    if b == QUOTE {
        seq![BACKSLASH, QUOTE]
    } else if b == BACKSLASH {
        seq![BACKSLASH, BACKSLASH]
    } else if has_short_escape(b) {
        seq![BACKSLASH, short_escape(b)]
    } else if b < 32 {
        seq![BACKSLASH, 117u8, 48u8, 48u8, hex_digit(b as int / 16), hex_digit(b as int % 16)]
    } else {
        seq![b]
    }
}

/// How a text is written inside quotes.
pub open spec fn escaped(s: Seq<u8>) -> Seq<u8>
    decreases s.len(),
{
    if s.len() == 0 {
        Seq::empty()
    } else {
        escaped(s.drop_last()) + escaped_byte(s.last())
    }
}

/// The decimal digits of `n`, without leading zeros.
pub open spec fn dec_digits(n: nat) -> Seq<u8>
    decreases n,
{
    if n < 10 {
        seq![(48 + n) as u8]
    } else {
        dec_digits(n / 10) + seq![(48 + n % 10) as u8]
    }
}

/// The JSON bytes of a claim set.
pub open spec fn claims_json(exp: u64, iss: Seq<u8>, sub: Seq<u8>) -> Seq<u8> {
    OPEN_EXP@ + dec_digits(exp as nat) + ISS_KEY@ + escaped(iss) + SUB_KEY@ + escaped(sub) + CLOSE@
}

/// The number that decimal digits write.
pub open spec fn digits_value(d: Seq<u8>) -> nat
    decreases d.len(),
{
    if d.len() == 0 {
        0
    } else {
        digits_value(d.drop_last()) * 10 + (d.last() - 48) as nat
    }
}

/// Where the run of digits that starts at `i` ends.
pub open spec fn digit_run_end(s: Seq<u8>, i: int) -> int
    decreases s.len() - i,
{
    if 0 <= i < s.len() && is_digit(s[i]) {
        digit_run_end(s, i + 1)
    } else {
        i
    }
}

/// `c` put in front of the text of a read.
pub open spec fn prepend(c: u8, r: Option<(Seq<u8>, int)>) -> Option<(Seq<u8>, int)> {
    match r {
        Some((v, q)) => Some((seq![c] + v, q)),
        None => None,
    }
}

/// Reads a quoted text from `i` on: its bytes, and where its closing quote
/// stands.
pub open spec fn unescape(s: Seq<u8>, i: int) -> Option<(Seq<u8>, int)>
    decreases s.len() - i,
{
    if i < 0 || i >= s.len() {
        None
    } else if s[i] == QUOTE {
        Some((Seq::empty(), i))
    } else if s[i] == BACKSLASH {
        if i + 1 < s.len() && (s[i + 1] == QUOTE || s[i + 1] == BACKSLASH) {
            prepend(s[i + 1], unescape(s, i + 2))
        } else if i + 1 < s.len() && is_short_letter(s[i + 1]) {
            prepend(short_unescape(s[i + 1]), unescape(s, i + 2))
        } else if i + 5 < s.len() && s[i + 1] == 117 && s[i + 2] == 48 && s[i + 3] == 48 && is_hex_digit(s[i + 4])
            && is_hex_digit(s[i + 5]) {
            prepend((hex_value(s[i + 4]) * 16 + hex_value(s[i + 5])) as u8, unescape(s, i + 6))
        } else {
            None
        }
    } else {
        prepend(s[i], unescape(s, i + 1))
    }
}

/// Whether `lit` stands in `b` at `i`.
pub open spec fn has_at(b: Seq<u8>, i: int, lit: Seq<u8>) -> bool {
    0 <= i && i + lit.len() <= b.len() && b.subrange(i, i + lit.len()) == lit
}

/// The claim set that JSON bytes in the fixed form hold.
pub open spec fn parse_claims_spec(b: Seq<u8>) -> Option<(u64, Seq<u8>, Seq<u8>)> {
    let a = OPEN_EXP@.len() as int;
    let e = digit_run_end(b, a);
    if !has_at(b, 0, OPEN_EXP@) || e == a || digits_value(b.subrange(a, e)) > u64::MAX {
        None
    } else if !has_at(b, e, ISS_KEY@) {
        None
    } else {
        match unescape(b, e + ISS_KEY@.len()) {
            None => None,
            Some((iss, q)) => if !has_at(b, q, SUB_KEY@) {
                None
            } else {
                match unescape(b, q + SUB_KEY@.len()) {
                    None => None,
                    Some((sub, q2)) => if b.subrange(q2, b.len() as int) == CLOSE@ {
                        Some((digits_value(b.subrange(a, e)) as u64, iss, sub))
                    } else {
                        None
                    },
                }
            },
        }
    }
}

proof fn lemma_escaped_concat(x: Seq<u8>, y: Seq<u8>)
    ensures
        escaped(x + y) == escaped(x) + escaped(y),
    decreases y.len(),
{
    if y.len() == 0 {
        assert(x + y =~= x);
        assert(escaped(x) + escaped(y) =~= escaped(x));
    } else {
        assert((x + y).drop_last() =~= x + y.drop_last());
        lemma_escaped_concat(x, y.drop_last());
        assert(escaped(x + y) =~= escaped(x) + escaped(y));
    }
}

proof fn lemma_escaped_one(a: u8)
    ensures
        escaped(seq![a]) == escaped_byte(a),
{
    assert(seq![a].drop_last() =~= Seq::<u8>::empty());
    assert(escaped(Seq::<u8>::empty()) == Seq::<u8>::empty());
    assert(seq![a].last() == a);
    assert(escaped(seq![a]) =~= escaped_byte(a));
}

proof fn lemma_hex(n: int)
    requires
        0 <= n < 16,
    ensures
        is_hex_digit(hex_digit(n)),
        hex_value(hex_digit(n)) == n,
{
}

/// An escaped text followed by a quote reads back as the text.
proof fn lemma_unescape_escaped(s: Seq<u8>, i: int, x: Seq<u8>)
    requires
        0 <= i,
        i + escaped(x).len() < s.len(),
        s.subrange(i, i + escaped(x).len()) == escaped(x),
        s[i + escaped(x).len()] == QUOTE,
    ensures
        unescape(s, i) == Some((x, i + escaped(x).len())),
    decreases x.len(),
{
    if x.len() == 0 {
    } else {
        let a = x[0];
        let y = x.drop_first();
        assert(x =~= seq![a] + y);
        lemma_escaped_concat(seq![a], y);
        lemma_escaped_one(a);
        let e = escaped_byte(a);
        let k = e.len() as int;
        assert(escaped(x) == e + escaped(y));
        assert forall|j: int| 0 <= j < k implies s[i + j] == e[j] by {
            assert(s.subrange(i, i + escaped(x).len())[j] == escaped(x)[j]);
        }
        assert(s.subrange(i + k, i + k + escaped(y).len()) =~= escaped(y)) by {
            assert forall|j: int| 0 <= j < escaped(y).len() implies s[i + k + j] == escaped(y)[j] by {
                assert(s.subrange(i, i + escaped(x).len())[k + j] == escaped(x)[k + j]);
            }
        }
        lemma_unescape_escaped(s, i + k, y);
        if a == QUOTE || a == BACKSLASH {
            assert(s[i] == BACKSLASH && s[i + 1] == a);
        } else if has_short_escape(a) {
            assert(s[i] == BACKSLASH && s[i + 1] == short_escape(a));
        } else if a < 32 {
            lemma_hex(a as int / 16);
            lemma_hex(a as int % 16);
            assert(s[i] == BACKSLASH && s[i + 1] == 117 && s[i + 2] == 48 && s[i + 3] == 48);
            assert(s[i + 4] == hex_digit(a as int / 16) && s[i + 5] == hex_digit(a as int % 16));
            assert((a as int / 16) * 16 + a as int % 16 == a);
        } else {
            assert(s[i] == a);
        }
        assert(unescape(s, i) == prepend(a, unescape(s, i + k)));
    }
}

proof fn lemma_dec_digits(n: nat)
    ensures
        digits_value(dec_digits(n)) == n,
        dec_digits(n).len() >= 1,
        forall|k: int| 0 <= k < dec_digits(n).len() ==> is_digit(#[trigger] dec_digits(n)[k]),
    decreases n,
{
    let d = dec_digits(n);
    if n < 10 {
        assert(d.drop_last() =~= Seq::<u8>::empty());
        assert(digits_value(Seq::<u8>::empty()) == 0);
    } else {
        lemma_dec_digits(n / 10);
        assert(d.drop_last() =~= dec_digits(n / 10));
        assert(d.last() == (48 + n % 10) as u8);
        assert((n / 10) * 10 + n % 10 == n);
        assert forall|k: int| 0 <= k < d.len() implies is_digit(#[trigger] d[k]) by {
            if k < d.len() - 1 {
                assert(d[k] == dec_digits(n / 10)[k]);
            }
        }
    }
}

proof fn lemma_run_end(s: Seq<u8>, i: int, j: int)
    requires
        0 <= i <= j <= s.len(),
        forall|k: int| i <= k < j ==> is_digit(#[trigger] s[k]),
        j == s.len() || !is_digit(s[j]),
    ensures
        digit_run_end(s, i) == j,
    decreases j - i,
{
    if i < j {
        lemma_run_end(s, i + 1, j);
    }
}

/// The fixed JSON form of a claim set reads back as that claim set.
pub proof fn lemma_parse_claims_json(exp: u64, iss: Seq<u8>, sub: Seq<u8>)
    ensures
        parse_claims_spec(claims_json(exp, iss, sub)) == Some((exp, iss, sub)),
{
    let o = OPEN_EXP@;
    let d = dec_digits(exp as nat);
    let ik = ISS_KEY@;
    let e1 = escaped(iss);
    let sk = SUB_KEY@;
    let e2 = escaped(sub);
    let c = CLOSE@;
    let b = claims_json(exp, iss, sub);
    lemma_dec_digits(exp as nat);
    let at1 = o.len() as int;
    let at2 = at1 + d.len();
    let at3 = at2 + ik.len();
    let at4 = at3 + e1.len();
    let at5 = at4 + sk.len();
    let at6 = at5 + e2.len();
    assert(b.len() == at6 + c.len());
    assert(b.subrange(0, at1) =~= o);
    assert(b.subrange(at1, at2) =~= d);
    assert(b.subrange(at2, at3) =~= ik);
    assert(b.subrange(at3, at4) =~= e1);
    assert(b.subrange(at4, at5) =~= sk);
    assert(b.subrange(at5, at6) =~= e2);
    assert(b.subrange(at6, b.len() as int) =~= c);
    assert forall|k: int| at1 <= k < at2 implies is_digit(#[trigger] b[k]) by {
        assert(b[k] == d[k - at1]);
    }
    assert(b[at2] == ik[0]);
    lemma_run_end(b, at1, at2);
    assert(b[at4] == sk[0]);
    lemma_unescape_escaped(b, at3, iss);
    assert(b[at6] == c[0]);
    lemma_unescape_escaped(b, at5, sub);
}

fn push_slice(out: &mut Vec<u8>, lit: &[u8])
    ensures
        final(out)@ == old(out)@ + lit@,
{
    let mut i: usize = 0;
    while i < lit.len()
        invariant
            i <= lit@.len(),
            out@ == old(out)@ + lit@.subrange(0, i as int),
        decreases lit@.len() - i,
    {
        out.push(lit[i]);
        i = i + 1;
        proof {
            assert(out@ =~= old(out)@ + lit@.subrange(0, i as int));
        }
    }
    proof {
        assert(lit@.subrange(0, i as int) =~= lit@);
    }
}

fn push_decimal(out: &mut Vec<u8>, n: u64)
    ensures
        final(out)@ == old(out)@ + dec_digits(n as nat),
    decreases n,
{
    if n >= 10 {
        push_decimal(out, n / 10);
    }
    out.push(48 + (n % 10) as u8);
    proof {
        if n < 10 {
            assert(out@ =~= old(out)@ + dec_digits(n as nat));
        } else {
            assert(out@ =~= old(out)@ + dec_digits(n as nat));
        }
    }
}

fn short_escape_exec(b: u8) -> (r: u8)
    ensures
        r == short_escape(b),
{
    if b == 8 {
        98
    } else if b == 9 {
        116
    } else if b == 10 {
        110
    } else if b == 12 {
        102
    } else {
        114
    }
}

fn short_unescape_exec(c: u8) -> (r: u8)
    ensures
        r == short_unescape(c),
{
    if c == 98 {
        8
    } else if c == 116 {
        9
    } else if c == 110 {
        10
    } else if c == 102 {
        12
    } else {
        13
    }
}

fn hex_digit_exec(n: u8) -> (r: u8)
    requires
        n < 16,
    ensures
        r == hex_digit(n as int),
{
    if n < 10 {
        48 + n
    } else {
        87 + n
    }
}

fn push_escaped(out: &mut Vec<u8>, s: &[u8])
    ensures
        final(out)@ == old(out)@ + escaped(s@),
{
    let mut i: usize = 0;
    while i < s.len()
        invariant
            i <= s@.len(),
            out@ == old(out)@ + escaped(s@.subrange(0, i as int)),
        decreases s@.len() - i,
    {
        let b = s[i];
        let ghost before = out@;
        if b == QUOTE || b == BACKSLASH {
            out.push(BACKSLASH);
            out.push(b);
        } else if b == 8 || b == 9 || b == 10 || b == 12 || b == 13 {
            out.push(BACKSLASH);
            out.push(short_escape_exec(b));
        } else if b < 32 {
            out.push(BACKSLASH);
            out.push(117);
            out.push(48);
            out.push(48);
            out.push(hex_digit_exec(b / 16));
            out.push(hex_digit_exec(b % 16));
        } else {
            out.push(b);
        }
        proof {
            let t = s@.subrange(0, i + 1);
            assert(t.drop_last() =~= s@.subrange(0, i as int));
            assert(out@ =~= before + escaped_byte(b));
        }
        i = i + 1;
    }
    proof {
        assert(s@.subrange(0, i as int) =~= s@);
    }
}

/// The JSON bytes of a claim set, in the fixed form.
pub fn claims_json_bytes(exp: u64, iss: &[u8], sub: &[u8]) -> (r: Vec<u8>)
    ensures
        r@ == claims_json(exp, iss@, sub@),
{
    let mut out: Vec<u8> = Vec::new();
    push_slice(&mut out, OPEN_EXP.as_slice());
    push_decimal(&mut out, exp);
    push_slice(&mut out, ISS_KEY.as_slice());
    push_escaped(&mut out, iss);
    push_slice(&mut out, SUB_KEY.as_slice());
    push_escaped(&mut out, sub);
    push_slice(&mut out, CLOSE.as_slice());
    proof {
        assert(out@ =~= claims_json(exp, iss@, sub@));
    }
    out
}

fn matches_at(b: &[u8], i: usize, lit: &[u8]) -> (r: bool)
    ensures
        r == has_at(b@, i as int, lit@),
{
    if i > b.len() || lit.len() > b.len() - i {
        return false;
    }
    let n = b.len();
    let mut k: usize = 0;
    while k < lit.len()
        invariant
            n == b@.len(),
            i + lit@.len() <= b@.len(),
            k <= lit@.len(),
            forall|j: int| 0 <= j < k ==> b@[i + j] == lit@[j],
        decreases lit@.len() - k,
    {
        if b[i + k] != lit[k] {
            proof {
                assert(b@.subrange(i as int, i + lit@.len())[k as int] != lit@[k as int]);
            }
            return false;
        }
        k = k + 1;
    }
    proof {
        assert(b@.subrange(i as int, i + lit@.len()) =~= lit@);
    }
    true
}

/// The number written by the run of digits at `i`, and where the run ends.
fn scan_number(b: &[u8], i: usize) -> (r: Option<(u64, usize)>)
    requires
        i <= b@.len(),
    ensures
        match r {
            Some((v, e)) => e == digit_run_end(b@, i as int) && e > i && v == digits_value(
                b@.subrange(i as int, e as int),
            ),
            None => digit_run_end(b@, i as int) == i || digits_value(
                b@.subrange(i as int, digit_run_end(b@, i as int)),
            ) > u64::MAX,
        },
{
    let mut j: usize = i;
    let mut v: u64 = 0;
    let mut overflow = false;
    while j < b.len() && 48 <= b[j] && b[j] <= 57
        invariant
            i <= j <= b@.len(),
            digit_run_end(b@, i as int) == digit_run_end(b@, j as int),
            overflow ==> digits_value(b@.subrange(i as int, j as int)) > u64::MAX,
            !overflow ==> v == digits_value(b@.subrange(i as int, j as int)),
        decreases b@.len() - j,
    {
        let d = (b[j] - 48) as u64;
        proof {
            let t = b@.subrange(i as int, j + 1);
            assert(t.drop_last() =~= b@.subrange(i as int, j as int));
        }
        if !overflow {
            if v > 1844674407370955161 || (v == 1844674407370955161 && d > 5) {
                overflow = true;
            } else {
                v = v * 10 + d;
            }
        }
        j = j + 1;
    }
    if j == i || overflow {
        None
    } else {
        Some((v, j))
    }
}

/// Reads the quoted text at `i`; see `unescape`.
fn unescape_at(b: &[u8], i: usize) -> (r: Option<(Vec<u8>, usize)>)
    ensures
        match r {
            Some((v, q)) => unescape(b@, i as int) == Some((v@, q as int)) && q < b@.len(),
            None => unescape(b@, i as int) is None,
        },
{
    let mut out: Vec<u8> = Vec::new();
    let mut j: usize = i;
    let n = b.len();
    while j < n
        invariant
            n == b@.len(),
            i <= j,
            unescape(b@, i as int) == (match unescape(b@, j as int) {
                Some((v, q)) => Some((out@ + v, q)),
                None => None,
            }),
        decreases n - j,
    {
        let c = b[j];
        let ghost before = out@;
        if c == QUOTE {
            proof {
                assert(out@ + Seq::<u8>::empty() =~= out@);
            }
            return Some((out, j));
        } else if c == BACKSLASH {
            if j + 1 < n && (b[j + 1] == QUOTE || b[j + 1] == BACKSLASH) {
                out.push(b[j + 1]);
                proof {
                    assert forall|v: Seq<u8>| #[trigger] (before + (seq![b@[j + 1]] + v)) == out@ + v by {
                        assert(before + (seq![b@[j + 1]] + v) =~= out@ + v);
                    }
                }
                j = j + 2;
            } else if j + 1 < n && (b[j + 1] == 98 || b[j + 1] == 116 || b[j + 1] == 110 || b[j + 1] == 102
                || b[j + 1] == 114) {
                let x = short_unescape_exec(b[j + 1]);
                out.push(x);
                proof {
                    assert forall|v: Seq<u8>| #[trigger] (before + (seq![x] + v)) == out@ + v by {
                        assert(before + (seq![x] + v) =~= out@ + v);
                    }
                }
                j = j + 2;
            } else if n - j > 5 && b[j + 1] == 117 && b[j + 2] == 48 && b[j + 3] == 48 && is_hex_exec(b[j + 4])
                && is_hex_exec(b[j + 5]) {
                let x = hex_value_exec(b[j + 4]) * 16 + hex_value_exec(b[j + 5]);
                out.push(x);
                proof {
                    assert forall|v: Seq<u8>| #[trigger] (before + (seq![x] + v)) == out@ + v by {
                        assert(before + (seq![x] + v) =~= out@ + v);
                    }
                }
                j = j + 6;
            } else {
                return None;
            }
        } else {
            out.push(c);
            proof {
                assert forall|v: Seq<u8>| #[trigger] (before + (seq![c] + v)) == out@ + v by {
                    assert(before + (seq![c] + v) =~= out@ + v);
                }
            }
            j = j + 1;
        }
    }
    None
}

fn is_hex_exec(c: u8) -> (r: bool)
    ensures
        r == is_hex_digit(c),
{
    (48 <= c && c <= 57) || (97 <= c && c <= 102)
}

fn hex_value_exec(c: u8) -> (r: u8)
    requires
        is_hex_digit(c),
    ensures
        r == hex_value(c),
        r < 16,
{
    if c <= 57 {
        c - 48
    } else {
        c - 87
    }
}

/// The claim set that JSON bytes in the fixed form hold; see
/// `parse_claims_spec`.
pub fn parse_claims(b: &[u8]) -> (r: Option<(u64, Vec<u8>, Vec<u8>)>)
    ensures
        match r {
            Some((exp, iss, sub)) => parse_claims_spec(b@) == Some((exp, iss@, sub@)),
            None => parse_claims_spec(b@) is None,
        },
{
    let n = b.len();
    if !matches_at(b, 0, OPEN_EXP.as_slice()) {
        return None;
    }
    let (exp, e) = match scan_number(b, 7) {
        Some(x) => x,
        None => {
            return None;
        },
    };
    if !matches_at(b, e, ISS_KEY.as_slice()) {
        return None;
    }
    let (iss, q) = match unescape_at(b, e + 8) {
        Some(x) => x,
        None => {
            return None;
        },
    };
    if !matches_at(b, q, SUB_KEY.as_slice()) {
        return None;
    }
    let (sub, q2) = match unescape_at(b, q + 9) {
        Some(x) => x,
        None => {
            return None;
        },
    };
    if q2 > n || n - q2 != 2 {
        proof {
            if q2 <= n {
                assert(b@.subrange(q2 as int, n as int).len() != 2);
            }
        }
        return None;
    }
    if !matches_at(b, q2, CLOSE.as_slice()) {
        proof {
            assert(q2 + CLOSE@.len() == n);
        }
        return None;
    }
    Some((exp, iss, sub))
}

} // verus!
