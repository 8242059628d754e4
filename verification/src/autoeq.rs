//! Parsing of AutoEQ-style parametric-EQ profiles.
//!
//! A profile is plain ASCII text: a `Preamp:` line and `Filter` lines of
//! the shape `Filter 1: ON PK Fc 8983 Hz Gain 4.4 dB Q 2.63`, or a small
//! CSV table with one band per row. Everything here works on the byte
//! view of the text; decimal numbers become Q16.16 fixed-point values
//! with floor rounding of the fractional part. The specification
//! functions give the exact grammar: which inputs parse, and to which
//! values.

use vstd::prelude::*;
use vstd::string::StringSliceAdditionalSpecFns;

use crate::biquad::FilterType;
use crate::fixed::{floor_div, sat_i32, sat_to_i32, div_floor_i128};

verus! {

/// Cap used while accumulating digit values, comfortably above any
/// Q16.16-representable magnitude.
pub const DIGIT_CAP: i64 = 281474976710655;

/// ASCII decimal digit.
pub open spec fn is_digit(c: u8) -> bool {
    48 <= c <= 57
}

/// ASCII whitespace as it appears in profile lines: space, tab, carriage
/// return.
pub open spec fn is_ws(c: u8) -> bool {
    c == 32 || c == 9 || c == 13
}

/// The number a digit string denotes, accumulated left to right and
/// saturated at `DIGIT_CAP` so that absurdly long numerals stay finite.
pub open spec fn digits_sat(s: Seq<u8>) -> int
    decreases s.len(),
{
    if s.len() == 0 {
        0
    } else {
        let v = digits_sat(s.drop_last()) * 10 + (s.last() - 48);
        if v > DIGIT_CAP as int {
            DIGIT_CAP as int
        } else {
            v
        }
    }
}

/// Ten to the `n`, saturated at the same cap.
pub open spec fn pow10_sat(n: int) -> int
    decreases n,
{
    if n <= 0 {
        1
    } else {
        let v = pow10_sat(n - 1) * 10;
        if v > DIGIT_CAP as int {
            DIGIT_CAP as int
        } else {
            v
        }
    }
}

/// Every byte is a decimal digit.
pub open spec fn all_digits(s: Seq<u8>) -> bool {
    forall|i: int| 0 <= i < s.len() ==> is_digit(#[trigger] s[i])
}

/// Whether the number begins with an ASCII minus sign.
pub open spec fn neg_of(s: Seq<u8>) -> bool {
    s.len() > 0 && s[0] == 45
}

/// The number with any leading minus sign removed.
pub open spec fn body_of(s: Seq<u8>) -> Seq<u8> {
    if neg_of(s) {
        s.skip(1)
    } else {
        s
    }
}

/// Index of the first ASCII dot, or the length if there is none.
pub open spec fn dot_pos(s: Seq<u8>) -> int
    decreases s.len(),
{
    if s.len() == 0 {
        0
    } else if s[0] == 46 {
        0
    } else {
        1 + dot_pos(s.skip(1))
    }
}

/// The integer-part digits of a number body.
pub open spec fn int_part(b: Seq<u8>) -> Seq<u8> {
    b.take(dot_pos(b))
}

/// The fraction digits of a number body (empty if there is no dot).
pub open spec fn frac_part(b: Seq<u8>) -> Seq<u8> {
    if dot_pos(b) == b.len() {
        Seq::empty()
    } else {
        b.skip(dot_pos(b) + 1)
    }
}

/// A decimal numeral: an optional minus sign, then digits with at most
/// one dot, and at least one digit somewhere.
pub open spec fn valid_number(s: Seq<u8>) -> bool {
    let b = body_of(s);
    &&& all_digits(int_part(b))
    &&& all_digits(frac_part(b))
    &&& int_part(b).len() + frac_part(b).len() >= 1
}

/// The Q16.16 value a decimal numeral denotes: the integer part scaled
/// up, plus the floor-rounded fraction, negated for a leading minus
/// sign, saturated into `i32`.
pub open spec fn number_q16(s: Seq<u8>) -> int {
    let b = body_of(s);
    let mag = digits_sat(int_part(b)) * 65536 + floor_div(
        digits_sat(frac_part(b)) * 65536,
        pow10_sat(frac_part(b).len() as int),
    );
    sat_i32(
        if neg_of(s) {
            -mag
        } else {
            mag
        },
    )
}

/// The whitespace-separated tokens of a line, accumulated left to right:
/// `cur` is the token currently being read.
pub open spec fn tokens_acc(s: Seq<u8>, cur: Seq<u8>) -> Seq<Seq<u8>>
    decreases s.len(),
{
    let flushed: Seq<Seq<u8>> = if cur.len() == 0 {
        Seq::empty()
    } else {
        seq![cur]
    };
    if s.len() == 0 {
        flushed
    } else if is_ws(s[0]) {
        flushed + tokens_acc(s.skip(1), Seq::empty())
    } else {
        tokens_acc(s.skip(1), cur.push(s[0]))
    }
}

/// The whitespace-separated tokens of a line.
pub open spec fn tokens_ws(s: Seq<u8>) -> Seq<Seq<u8>> {
    tokens_acc(s, Seq::empty())
}

/// The fields of `s` split at every occurrence of `sep`, accumulated
/// left to right; a trailing separator yields a trailing empty field,
/// like `str::split`.
pub open spec fn split_acc(s: Seq<u8>, sep: u8, cur: Seq<u8>) -> Seq<Seq<u8>>
    decreases s.len(),
{
    if s.len() == 0 {
        seq![cur]
    } else if s[0] == sep {
        seq![cur] + split_acc(s.skip(1), sep, Seq::empty())
    } else {
        split_acc(s.skip(1), sep, cur.push(s[0]))
    }
}

/// The fields of `s` split at every occurrence of `sep`.
pub open spec fn split_on(s: Seq<u8>, sep: u8) -> Seq<Seq<u8>> {
    split_acc(s, sep, Seq::empty())
}

/// The byte views of a vector of byte vectors.
pub open spec fn views_of(s: Seq<Vec<u8>>) -> Seq<Seq<u8>> {
    s.map(|i: int, v: Vec<u8>| v@)
}

/// Whether two byte slices hold the same bytes.
fn bytes_eq(a: &[u8], b: &[u8]) -> (r: bool)
    ensures
        r <==> a@ == b@,
{
    if a.len() != b.len() {
        proof {
            assert(a@.len() != b@.len());
        }
        return false;
    }
    let n = a.len();
    let mut i: usize = 0;
    while i < n
        invariant
            n == a@.len() == b@.len(),
            i <= n,
            forall|k: int| 0 <= k < i ==> a@[k] == b@[k],
        decreases n - i,
    {
        if a[i] != b[i] {
            return false;
        }
        i = i + 1;
    }
    proof {
        assert(a@ =~= b@);
    }
    true
}

/// Whether `a` begins with `prefix`.
fn starts_with_bytes(a: &[u8], prefix: &[u8]) -> (r: bool)
    ensures
        r <==> a@.len() >= prefix@.len() && a@.take(prefix@.len() as int) == prefix@,
{
    let m = prefix.len();
    if a.len() < m {
        return false;
    }
    let mut i: usize = 0;
    while i < m
        invariant
            m == prefix@.len() <= a@.len(),
            i <= m,
            forall|k: int| 0 <= k < i ==> a@[k] == prefix@[k],
        decreases m - i,
    {
        if a[i] != prefix[i] {
            proof {
                assert(a@.take(m as int)[i as int] != prefix@[i as int]);
            }
            return false;
        }
        i = i + 1;
    }
    proof {
        assert(a@.take(m as int) =~= prefix@);
    }
    true
}

/// Split a line into its whitespace-separated tokens.
fn split_ws_exec(b: &[u8]) -> (out: Vec<Vec<u8>>)
    ensures
        views_of(out@) == tokens_ws(b@),
{
    let n = b.len();
    let mut out: Vec<Vec<u8>> = Vec::new();
    let mut cur: Vec<u8> = Vec::new();
    let mut i: usize = 0;
    proof {
        assert(b@.skip(0) =~= b@);
        assert(views_of(out@) =~= Seq::<Seq<u8>>::empty());
        assert(views_of(out@) + tokens_acc(b@, cur@) =~= tokens_acc(b@, cur@));
    }
    while i < n
        invariant
            n == b@.len(),
            i <= n,
            tokens_ws(b@) == views_of(out@) + tokens_acc(b@.skip(i as int), cur@),
        decreases n - i,
    {
        let ghost out0 = out@;
        let ghost cur0 = cur@;
        let ghost rest = b@.skip(i as int);
        let c = b[i];
        proof {
            assert(rest.skip(1) =~= b@.skip(i + 1));
            assert(rest[0] == b@[i as int]);
        }
        if c == 32 || c == 9 || c == 13 {
            if cur.len() > 0 {
                out.push(cur);
                cur = Vec::new();
                proof {
                    assert(tokens_acc(rest, cur0) == seq![cur0] + tokens_acc(
                        rest.skip(1),
                        Seq::empty(),
                    ));
                    assert(views_of(out@) =~= views_of(out0) + seq![cur0]);
                    assert(views_of(out0) + (seq![cur0] + tokens_acc(b@.skip(i + 1), Seq::empty()))
                        =~= (views_of(out0) + seq![cur0]) + tokens_acc(b@.skip(i + 1), Seq::empty()));
                }
            } else {
                proof {
                    assert(cur0 =~= Seq::<u8>::empty());
                    assert(tokens_acc(rest, cur0) == Seq::<Seq<u8>>::empty() + tokens_acc(
                        rest.skip(1),
                        Seq::empty(),
                    ));
                    assert(Seq::<Seq<u8>>::empty() + tokens_acc(b@.skip(i + 1), Seq::empty())
                        =~= tokens_acc(b@.skip(i + 1), Seq::empty()));
                    assert(cur@ =~= Seq::<u8>::empty());
                }
            }
        } else {
            cur.push(c);
            proof {
                assert(tokens_acc(rest, cur0) == tokens_acc(rest.skip(1), cur0.push(c)));
                assert(cur@ =~= cur0.push(c));
            }
        }
        i = i + 1;
    }
    proof {
        assert(b@.skip(n as int) =~= Seq::<u8>::empty());
    }
    if cur.len() > 0 {
        let ghost out0 = out@;
        let ghost cur0 = cur@;
        out.push(cur);
        proof {
            assert(tokens_acc(Seq::<u8>::empty(), cur0) == seq![cur0]);
            assert(views_of(out@) =~= views_of(out0) + seq![cur0]);
        }
    } else {
        proof {
            assert(tokens_acc(Seq::<u8>::empty(), cur@) =~= Seq::<Seq<u8>>::empty());
            assert(views_of(out@) + Seq::<Seq<u8>>::empty() =~= views_of(out@));
        }
    }
    out
}

/// Split text into its fields at a separator byte.
fn split_on_exec(b: &[u8], sep: u8) -> (out: Vec<Vec<u8>>)
    ensures
        views_of(out@) == split_on(b@, sep),
{
    let n = b.len();
    let mut out: Vec<Vec<u8>> = Vec::new();
    let mut cur: Vec<u8> = Vec::new();
    let mut i: usize = 0;
    proof {
        assert(b@.skip(0) =~= b@);
        assert(views_of(out@) =~= Seq::<Seq<u8>>::empty());
        assert(views_of(out@) + split_acc(b@, sep, cur@) =~= split_acc(b@, sep, cur@));
    }
    while i < n
        invariant
            n == b@.len(),
            i <= n,
            split_on(b@, sep) == views_of(out@) + split_acc(b@.skip(i as int), sep, cur@),
        decreases n - i,
    {
        let ghost out0 = out@;
        let ghost cur0 = cur@;
        let ghost rest = b@.skip(i as int);
        let c = b[i];
        proof {
            assert(rest.skip(1) =~= b@.skip(i + 1));
            assert(rest[0] == b@[i as int]);
        }
        if c == sep {
            out.push(cur);
            cur = Vec::new();
            proof {
                assert(split_acc(rest, sep, cur0) == seq![cur0] + split_acc(
                    rest.skip(1),
                    sep,
                    Seq::empty(),
                ));
                assert(views_of(out@) =~= views_of(out0) + seq![cur0]);
                assert(views_of(out0) + (seq![cur0] + split_acc(b@.skip(i + 1), sep, Seq::empty()))
                    =~= (views_of(out0) + seq![cur0]) + split_acc(b@.skip(i + 1), sep, Seq::empty()));
                assert(cur@ =~= Seq::<u8>::empty());
            }
        } else {
            cur.push(c);
            proof {
                assert(split_acc(rest, sep, cur0) == split_acc(rest.skip(1), sep, cur0.push(c)));
                assert(cur@ =~= cur0.push(c));
            }
        }
        i = i + 1;
    }
    proof {
        assert(b@.skip(n as int) =~= Seq::<u8>::empty());
    }
    let ghost out0 = out@;
    let ghost cur0 = cur@;
    out.push(cur);
    proof {
        assert(split_acc(Seq::<u8>::empty(), sep, cur0) == seq![cur0]);
        assert(views_of(out@) =~= views_of(out0) + seq![cur0]);
    }
    out
}

/// Splitting always yields at least the one (possibly empty) field that
/// is being accumulated.
proof fn lemma_split_acc_len(s: Seq<u8>, sep: u8, cur: Seq<u8>)
    ensures
        split_acc(s, sep, cur).len() >= 1,
    decreases s.len(),
{
    if s.len() > 0 {
        if s[0] == sep {
            lemma_split_acc_len(s.skip(1), sep, Seq::empty());
        } else {
            lemma_split_acc_len(s.skip(1), sep, cur.push(s[0]));
        }
    }
}

/// The first dot comes no later than the end of the string.
proof fn lemma_dot_pos_le(s: Seq<u8>)
    ensures
        0 <= dot_pos(s) <= s.len(),
    decreases s.len(),
{
    if s.len() > 0 && s[0] != 46 {
        lemma_dot_pos_le(s.skip(1));
    }
}

/// Parse a decimal numeral into a Q16.16 value, floor-rounding the
/// fraction; `None` exactly on inputs that are not numerals.
fn parse_number_q16(b: &[u8]) -> (r: Option<i32>)
    ensures
        valid_number(b@) ==> (r matches Some(v) && v as int == number_q16(b@)),
        !valid_number(b@) ==> r is None,
{
    let n = b.len();
    let neg = n > 0 && b[0] == 45;
    let start: usize = if neg {
        1
    } else {
        0
    };
    let ghost body = body_of(b@);
    proof {
        assert(body =~= b@.skip(start as int));
        lemma_dot_pos_le(body);
    }
    let mut acc: i64 = 0;
    let mut j: usize = start;
    while j < n && b[j] != 46
        invariant
            n == b@.len(),
            start <= j <= n,
            start == if neg_of(b@) { 1int } else { 0int },
            body == body_of(b@),
            body == b@.skip(start as int),
            dot_pos(body) == j - start + dot_pos(b@.skip(j as int)),
            acc as int == digits_sat(body.take(j - start)),
            all_digits(body.take(j - start)),
            0 <= acc <= DIGIT_CAP,
        decreases n - j,
    {
        let c = b[j];
        let ghost rest = b@.skip(j as int);
        proof {
            assert(rest[0] == b@[j as int]);
            assert(rest.skip(1) =~= b@.skip(j + 1));
            assert(dot_pos(rest) == 1 + dot_pos(rest.skip(1)));
            lemma_dot_pos_le(rest.skip(1));
        }
        if !(48 <= c && c <= 57) {
            proof {
                assert(dot_pos(body) >= j - start + 1);
                lemma_dot_pos_le(body);
                assert(int_part(body)[j - start] == body[j - start]);
                assert(body[j - start] == b@[j as int]);
                assert(!is_digit(int_part(body)[j - start]));
            }
            return None;
        }
        let a2: i64 = acc * 10 + ((c - 48) as i64);
        let ghost pre = body.take(j - start);
        proof {
            assert(body.take(j + 1 - start).drop_last() =~= pre);
            assert(body.take(j + 1 - start).last() == body[j - start]);
            assert(body[j - start] == b@[j as int]);
        }
        if a2 > DIGIT_CAP {
            acc = DIGIT_CAP;
        } else {
            acc = a2;
        }
        j = j + 1;
    }
    let ghost ip = int_part(body);
    proof {
        if j == n {
            assert(b@.skip(n as int) =~= Seq::<u8>::empty());
            assert(dot_pos(body) == n - start);
            assert(body.len() == n - start);
            assert(ip =~= body.take(dot_pos(body)));
        } else {
            assert(b@.skip(j as int)[0] == b@[j as int]);
            assert(dot_pos(b@.skip(j as int)) == 0);
            assert(dot_pos(body) == j - start);
        }
        assert(ip =~= body.take(j - start));
        assert(acc as int == digits_sat(ip));
        assert(all_digits(ip));
    }
    let mut facc: i64 = 0;
    let mut fden: i64 = 1;
    let ghost fq = frac_part(body);
    if j < n {
        let fstart = j + 1;
        proof {
            assert(fq =~= b@.skip(fstart as int));
        }
        let mut k: usize = fstart;
        while k < n
            invariant
                n == b@.len(),
                fstart <= k <= n,
                fq == frac_part(body_of(b@)),
                fq == b@.skip(fstart as int),
                facc as int == digits_sat(fq.take(k - fstart)),
                fden as int == pow10_sat(k - fstart),
                all_digits(fq.take(k - fstart)),
                0 <= facc <= DIGIT_CAP,
                1 <= fden <= DIGIT_CAP,
            decreases n - k,
        {
            let c = b[k];
            if !(48 <= c && c <= 57) {
                proof {
                    assert(fq[k - fstart] == b@[k as int]);
                    assert(!is_digit(fq[k - fstart]));
                }
                return None;
            }
            let ghost pre = fq.take(k - fstart);
            proof {
                assert(fq.take(k + 1 - fstart).drop_last() =~= pre);
                assert(fq.take(k + 1 - fstart).last() == fq[k - fstart]);
                assert(fq[k - fstart] == b@[k as int]);
            }
            let a2: i64 = facc * 10 + ((c - 48) as i64);
            if a2 > DIGIT_CAP {
                facc = DIGIT_CAP;
            } else {
                facc = a2;
            }
            let d2: i64 = fden * 10;
            if d2 > DIGIT_CAP {
                fden = DIGIT_CAP;
            } else {
                fden = d2;
            }
            k = k + 1;
        }
        proof {
            assert(fq.take(n - fstart) =~= fq);
        }
    } else {
        proof {
            assert(dot_pos(body) == body.len());
            assert(fq =~= Seq::<u8>::empty());
        }
    }
    proof {
        assert(facc as int == digits_sat(fq));
        assert(fden as int == pow10_sat(fq.len() as int));
        assert(all_digits(fq));
    }
    if j == start && (j >= n || j + 1 >= n) {
        proof {
            assert(ip.len() == 0);
            assert(fq.len() == 0);
        }
        return None;
    }
    let fr = div_floor_i128((facc as i128) * 65536, fden as i128);
    let mag: i128 = (acc as i128) * 65536 + fr;
    proof {
        vstd::arithmetic::div_mod::lemma_div_pos_is_pos(facc as int * 65536, fden as int);
        vstd::arithmetic::div_mod::lemma_div_is_ordered(
            facc as int * 65536,
            0x1_0000_0000_0000_0000,
            fden as int,
        );
    }
    let v: i128 = if neg {
        -mag
    } else {
        mag
    };
    Some(sat_to_i32(v))
}

/// The band description one profile line or CSV row denotes. `frequency`
/// is in Q16.16 Hz, `q` and `gain` are Q16.16.
#[derive(Debug, Clone, Copy, PartialEq, Eq, Structural)]
pub struct BandSetting {
    pub enabled: bool,
    pub filter_type: FilterType,
    pub frequency: i32,
    pub q: i32,
    pub gain: i32,
}

impl Default for BandSetting {
    /// A disabled peak band with all parameters zero.
    fn default() -> (b: BandSetting)
        ensures
            b == (BandSetting {
                enabled: false,
                filter_type: FilterType::Peak,
                frequency: 0,
                q: 0,
                gain: 0,
            }),
    {
        BandSetting {
            enabled: false,
            filter_type: FilterType::Peak,
            frequency: 0,
            q: 0,
            gain: 0,
        }
    }
}

/// A parsed profile: a preamp gain (Q16.16 dB) and the band list.
#[derive(Debug, Clone)]
pub struct AutoEqProfile {
    pub preamp: i32,
    pub bands: Vec<BandSetting>,
}

impl Default for AutoEqProfile {
    /// No preamp and no bands.
    fn default() -> (p: AutoEqProfile)
        ensures
            p.preamp == 0,
            p.bands@ == Seq::<BandSetting>::empty(),
    {
        AutoEqProfile { preamp: 0, bands: Vec::new() }
    }
}

/// The filter-type codes used by AutoEQ CSV rows.
pub open spec fn map_type_short(s: Seq<u8>) -> Option<FilterType> {
    if s == "PK".spec_bytes() {
        Some(FilterType::Peak)
    } else if s == "LS".spec_bytes() {
        Some(FilterType::LowShelf)
    } else if s == "HS".spec_bytes() {
        Some(FilterType::HighShelf)
    } else {
        None
    }
}

/// The filter-type codes used by parametric-EQ profile lines.
pub open spec fn map_type_line(s: Seq<u8>) -> Option<FilterType> {
    if s == "PK".spec_bytes() {
        Some(FilterType::Peak)
    } else if s == "LSC".spec_bytes() {
        Some(FilterType::LowShelf)
    } else if s == "HSC".spec_bytes() {
        Some(FilterType::HighShelf)
    } else {
        None
    }
}

/// Map an AutoEQ filter-type code (`PK`, `LS`, `HS`) to a filter type;
/// any other code is rejected.
pub fn map_filter_type(autoeq_type: &str) -> (r: Result<FilterType, String>)
    ensures
        map_type_short(autoeq_type.spec_bytes()) matches Some(ft) ==> r == Ok::<
            FilterType,
            String,
        >(ft),
        map_type_short(autoeq_type.spec_bytes()) is None ==> r is Err,
{
    let b = autoeq_type.as_bytes();
    if bytes_eq(b, "PK".as_bytes()) {
        Ok(FilterType::Peak)
    } else if bytes_eq(b, "LS".as_bytes()) {
        Ok(FilterType::LowShelf)
    } else if bytes_eq(b, "HS".as_bytes()) {
        Ok(FilterType::HighShelf)
    } else {
        Err("unsupported filter type".to_owned())
    }
}

/// Whether a profile line is a well-formed `Filter` line: at least the
/// twelve fixed tokens, switched `ON`, a known filter-type code, and
/// numerals in the frequency, gain and quality positions.
pub open spec fn filter_line_ok(s: Seq<u8>) -> bool {
    let ts = tokens_ws(s);
    &&& ts.len() >= 12
    &&& ts[0] == "Filter".spec_bytes()
    &&& ts[2] == "ON".spec_bytes()
    &&& map_type_line(ts[3]) is Some
    &&& valid_number(ts[5])
    &&& valid_number(ts[8])
    &&& valid_number(ts[11])
}

/// The band a well-formed `Filter` line denotes.
pub open spec fn filter_line_band(s: Seq<u8>) -> BandSetting {
    let ts = tokens_ws(s);
    BandSetting {
        enabled: true,
        filter_type: map_type_line(ts[3]).unwrap(),
        frequency: number_q16(ts[5]) as i32,
        q: number_q16(ts[11]) as i32,
        gain: number_q16(ts[8]) as i32,
    }
}

/// The byte-level worker behind [`parse_filter_line`].
fn parse_filter_bytes(b: &[u8]) -> (r: Option<BandSetting>)
    ensures
        filter_line_ok(b@) ==> r == Some(filter_line_band(b@)),
        !filter_line_ok(b@) ==> r is None,
{
    let ghost tsv = tokens_ws(b@);
    let ts = split_ws_exec(b);
    proof {
        assert(views_of(ts@) == tsv);
    }
    if ts.len() < 12 {
        return None;
    }
    proof {
        assert(ts@[0]@ == tsv[0]);
        assert(ts@[2]@ == tsv[2]);
        assert(ts@[3]@ == tsv[3]);
        assert(ts@[5]@ == tsv[5]);
        assert(ts@[8]@ == tsv[8]);
        assert(ts@[11]@ == tsv[11]);
    }
    if !bytes_eq(ts[0].as_slice(), "Filter".as_bytes()) {
        return None;
    }
    if !bytes_eq(ts[2].as_slice(), "ON".as_bytes()) {
        return None;
    }
    let filter_type: FilterType;
    if bytes_eq(ts[3].as_slice(), "PK".as_bytes()) {
        filter_type = FilterType::Peak;
    } else if bytes_eq(ts[3].as_slice(), "LSC".as_bytes()) {
        filter_type = FilterType::LowShelf;
    } else if bytes_eq(ts[3].as_slice(), "HSC".as_bytes()) {
        filter_type = FilterType::HighShelf;
    } else {
        return None;
    }
    let frequency = match parse_number_q16(ts[5].as_slice()) {
        Some(v) => v,
        None => {
            return None;
        },
    };
    let gain = match parse_number_q16(ts[8].as_slice()) {
        Some(v) => v,
        None => {
            return None;
        },
    };
    let q = match parse_number_q16(ts[11].as_slice()) {
        Some(v) => v,
        None => {
            return None;
        },
    };
    Some(BandSetting { enabled: true, filter_type, frequency, q, gain })
}

/// Parse one `Filter` profile line, such as
/// `Filter 1: ON PK Fc 8983 Hz Gain 4.4 dB Q 2.63`; any malformed line
/// is rejected.
pub fn parse_filter_line(line: &str) -> (r: Result<BandSetting, String>)
    ensures
        filter_line_ok(line.spec_bytes()) ==> r == Ok::<BandSetting, String>(
            filter_line_band(line.spec_bytes()),
        ),
        !filter_line_ok(line.spec_bytes()) ==> r is Err,
{
    match parse_filter_bytes(line.as_bytes()) {
        Some(b) => Ok(b),
        None => Err("invalid filter line".to_owned()),
    }
}

/// A line announcing the profile's preamp gain.
pub open spec fn is_preamp_line(l: Seq<u8>) -> bool {
    let p = "Preamp:".spec_bytes();
    l.len() >= p.len() && l.take(p.len() as int) == p
}

/// A line that claims to configure a filter band.
pub open spec fn is_filter_line(l: Seq<u8>) -> bool {
    let p = "Filter".spec_bytes();
    l.len() >= p.len() && l.take(p.len() as int) == p
}

/// The profile a sequence of lines denotes, folded left to right over
/// the running preamp value and band list: a `Preamp:` line with a
/// second token must carry a numeral (else the whole parse fails), a
/// `Filter` line contributes a band when well formed and is skipped when
/// not, and every other line is ignored.
pub open spec fn profile_fold(
    lines: Seq<Seq<u8>>,
    preamp: int,
    bands: Seq<BandSetting>,
) -> Option<(int, Seq<BandSetting>)>
    decreases lines.len(),
{
    if lines.len() == 0 {
        Some((preamp, bands))
    } else {
        let l = lines[0];
        let rest = lines.skip(1);
        if is_preamp_line(l) {
            let ts = tokens_ws(l);
            if ts.len() >= 2 {
                if valid_number(ts[1]) {
                    profile_fold(rest, number_q16(ts[1]), bands)
                } else {
                    None
                }
            } else {
                profile_fold(rest, preamp, bands)
            }
        } else if is_filter_line(l) {
            if filter_line_ok(l) {
                profile_fold(rest, preamp, bands.push(filter_line_band(l)))
            } else {
                profile_fold(rest, preamp, bands)
            }
        } else {
            profile_fold(rest, preamp, bands)
        }
    }
}

/// Parse a whole parametric-EQ profile text: its `Preamp:` line and its
/// `Filter` lines. Malformed filter lines are skipped; a malformed
/// preamp value fails the parse.
pub fn parse_autoeq_file(content: &str) -> (r: Result<AutoEqProfile, String>)
    ensures
        profile_fold(split_on(content.spec_bytes(), 10), 0, Seq::empty()) matches Some(pb)
            ==> (r matches Ok(p) && p.preamp as int == pb.0 && p.bands@ == pb.1),
        profile_fold(split_on(content.spec_bytes(), 10), 0, Seq::empty()) is None ==> r is Err,
{
    let ghost lv = split_on(content.spec_bytes(), 10);
    let lines = split_on_exec(content.as_bytes(), 10);
    proof {
        assert(views_of(lines@) == lv);
        assert(lv.skip(0) =~= lv);
    }
    let mut preamp: i32 = 0;
    let mut bands: Vec<BandSetting> = Vec::new();
    let n = lines.len();
    let mut i: usize = 0;
    while i < n
        invariant
            n == lines@.len(),
            i <= n,
            lv == split_on(content.spec_bytes(), 10),
            lv == views_of(lines@),
            profile_fold(lv.skip(i as int), preamp as int, bands@) == profile_fold(
                lv,
                0,
                Seq::empty(),
            ),
        decreases n - i,
    {
        let ghost rest = lv.skip(i as int);
        proof {
            assert(rest[0] == lv[i as int]);
            assert(lv[i as int] == lines@[i as int]@);
            assert(rest.skip(1) =~= lv.skip(i + 1));
        }
        let line = lines[i].as_slice();
        if starts_with_bytes(line, "Preamp:".as_bytes()) {
            let ts = split_ws_exec(line);
            proof {
                assert(views_of(ts@) == tokens_ws(line@));
            }
            if ts.len() >= 2 {
                proof {
                    assert(ts@[1]@ == tokens_ws(line@)[1]);
                }
                match parse_number_q16(ts[1].as_slice()) {
                    Some(v) => {
                        preamp = v;
                    },
                    None => {
                        proof {
                            assert(is_preamp_line(rest[0]));
                            assert(tokens_ws(rest[0]).len() >= 2);
                            assert(!valid_number(tokens_ws(rest[0])[1]));
                            assert(profile_fold(rest, preamp as int, bands@) is None);
                        }
                        return Err("invalid preamp value".to_owned());
                    },
                }
            }
        } else if starts_with_bytes(line, "Filter".as_bytes()) {
            match parse_filter_bytes(line) {
                Some(b) => {
                    bands.push(b);
                },
                None => {},
            }
        }
        i = i + 1;
    }
    proof {
        assert(lv.skip(n as int) =~= Seq::<Seq<u8>>::empty());
    }
    Ok(AutoEqProfile { preamp, bands })
}

/// A byte sequence with any trailing carriage return removed.
pub open spec fn strip_cr(s: Seq<u8>) -> Seq<u8> {
    if s.len() > 0 && s.last() == 13 {
        s.drop_last()
    } else {
        s
    }
}

/// The band list a sequence of CSV rows (after the header) denotes:
/// each non-empty row must hold the four fields
/// `filter-type, frequency, gain, q`, with a known type code and three
/// numerals; any malformed row fails the parse.
pub open spec fn csv_fold(rows: Seq<Seq<u8>>, bands: Seq<BandSetting>) -> Option<
    Seq<BandSetting>,
>
    decreases rows.len(),
{
    if rows.len() == 0 {
        Some(bands)
    } else {
        let row = rows[0];
        let rest = rows.skip(1);
        if strip_cr(row).len() == 0 {
            csv_fold(rest, bands)
        } else {
            let fs = split_on(row, 44);
            if fs.len() == 4 && map_type_short(fs[0]) is Some && valid_number(fs[1])
                && valid_number(fs[2]) && valid_number(strip_cr(fs[3])) {
                csv_fold(
                    rest,
                    bands.push(
                        BandSetting {
                            enabled: true,
                            filter_type: map_type_short(fs[0]).unwrap(),
                            frequency: number_q16(fs[1]) as i32,
                            q: number_q16(strip_cr(fs[3])) as i32,
                            gain: number_q16(fs[2]) as i32,
                        },
                    ),
                )
            } else {
                None
            }
        }
    }
}

/// Parse AutoEQ CSV data: a header row, then one band per row as
/// `filter-type, frequency, gain, q`. Any malformed row fails the whole
/// parse.
pub fn parse_autoeq_text(text_content: &str) -> (r: Result<Vec<BandSetting>, String>)
    ensures
        csv_fold(split_on(text_content.spec_bytes(), 10).skip(1), Seq::empty()) matches Some(bs)
            ==> (r matches Ok(v) && v@ == bs),
        csv_fold(split_on(text_content.spec_bytes(), 10).skip(1), Seq::empty()) is None ==> r
            is Err,
{
    let ghost rv = split_on(text_content.spec_bytes(), 10);
    let rows = split_on_exec(text_content.as_bytes(), 10);
    proof {
        assert(views_of(rows@) == rv);
    }
    let mut bands: Vec<BandSetting> = Vec::new();
    let n = rows.len();
    let mut i: usize = 1;
    proof {
        lemma_split_acc_len(text_content.spec_bytes(), 10, Seq::empty());
        assert(rv.len() >= 1);
    }
    while i < n
        invariant
            n == rows@.len(),
            1 <= i <= n,
            rv == split_on(text_content.spec_bytes(), 10),
            rv == views_of(rows@),
            csv_fold(rv.skip(i as int), bands@) == csv_fold(rv.skip(1), Seq::empty()),
        decreases n - i,
    {
        let ghost rest = rv.skip(i as int);
        proof {
            assert(rest[0] == rv[i as int]);
            assert(rv[i as int] == rows@[i as int]@);
            assert(rest.skip(1) =~= rv.skip(i + 1));
        }
        let row = rows[i].as_slice();
        let empty_row = row.len() == 0 || (row.len() == 1 && row[0] == 13);
        proof {
            if row@.len() == 1 && row@[0] == 13 {
                assert(strip_cr(row@) =~= Seq::<u8>::empty());
            }
            assert(empty_row == (strip_cr(row@).len() == 0));
        }
        if !empty_row {
            let ghost fsv = split_on(row@, 44);
            let mut fields = split_on_exec(row, 44);
            proof {
                assert(views_of(fields@) == fsv);
            }
            if fields.len() != 4 {
                proof {
                    assert(strip_cr(rest[0]).len() != 0);
                    assert(fsv.len() != 4);
                    assert(csv_fold(rest, bands@) is None);
                }
                return Err("malformed row".to_owned());
            }
            proof {
                assert(fields@[0]@ == fsv[0]);
                assert(fields@[1]@ == fsv[1]);
                assert(fields@[2]@ == fsv[2]);
                assert(fields@[3]@ == fsv[3]);
            }
            let ghost fields4 = fields@;
            let mut f3 = fields.pop().unwrap();
            proof {
                assert(fields@ =~= fields4.drop_last());
                assert(fields@[0]@ == fsv[0]);
                assert(fields@[1]@ == fsv[1]);
                assert(fields@[2]@ == fsv[2]);
                assert(f3@ == fsv[3]);
            }
            if f3.len() > 0 {
                let lastb = f3[f3.len() - 1];
                if lastb == 13 {
                    f3.pop();
                }
            }
            proof {
                assert(f3@ =~= strip_cr(fsv[3]));
            }
            let filter_type: FilterType;
            if bytes_eq(fields[0].as_slice(), "PK".as_bytes()) {
                filter_type = FilterType::Peak;
            } else if bytes_eq(fields[0].as_slice(), "LS".as_bytes()) {
                filter_type = FilterType::LowShelf;
            } else if bytes_eq(fields[0].as_slice(), "HS".as_bytes()) {
                filter_type = FilterType::HighShelf;
            } else {
                proof {
                    assert(map_type_short(fsv[0]) is None);
                    assert(csv_fold(rest, bands@) is None);
                }
                return Err("unsupported filter type".to_owned());
            }
            let frequency = match parse_number_q16(fields[1].as_slice()) {
                Some(v) => v,
                None => {
                    proof {
                        assert(!valid_number(fsv[1]));
                        assert(csv_fold(rest, bands@) is None);
                    }
                    return Err("malformed frequency".to_owned());
                },
            };
            let gain = match parse_number_q16(fields[2].as_slice()) {
                Some(v) => v,
                None => {
                    proof {
                        assert(!valid_number(fsv[2]));
                        assert(csv_fold(rest, bands@) is None);
                    }
                    return Err("malformed gain".to_owned());
                },
            };
            let q = match parse_number_q16(f3.as_slice()) {
                Some(v) => v,
                None => {
                    proof {
                        assert(!valid_number(strip_cr(fsv[3])));
                        assert(csv_fold(rest, bands@) is None);
                    }
                    return Err("malformed q".to_owned());
                },
            };
            bands.push(BandSetting { enabled: true, filter_type, frequency, q, gain });
        }
        i = i + 1;
    }
    proof {
        assert(rv.skip(n as int) =~= Seq::<Seq<u8>>::empty());
    }
    Ok(bands)
}

} // verus!
