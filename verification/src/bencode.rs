//! Self-describing binary codec: integers (`i..e`), byte strings
//! (`<len>:<bytes>`), lists (`l..e`) and key-sorted maps (`d..e`).
//!
//! The decoder's central contract: whenever it succeeds, re-encoding the
//! returned value reproduces, byte for byte, exactly the input prefix that
//! was consumed; and it must succeed on any input that begins with an
//! integer or byte-string encoding.
use vstd::prelude::*;

verus! {

/// A decoded value of the self-describing binary format.
/// Dict pairs are kept in the order they appeared on the wire; a canonical
/// (interoperable) encoding has its keys in strictly increasing byte order.
#[derive(Debug, PartialEq, Eq)]
pub enum BencodeValue {
    Int(i64),
    Bytes(Vec<u8>),
    List(Vec<BencodeValue>),
    Dict(Vec<(Vec<u8>, BencodeValue)>),
}

/// Why a byte sequence failed to decode.
#[derive(Debug, Clone, Copy, PartialEq, Eq, Structural)]
pub enum DecodeError {
    MalformedInteger,
    MalformedString,
    UnterminatedList,
    UnterminatedMap,
    NonStringMapKey,
    UnknownValueTag,
}

/// ASCII decimal digit.
pub open spec fn is_digit(b: u8) -> bool {
    48 <= b <= 57
}

/// Numeric value of a sequence of ASCII digits (most significant first).
pub open spec fn digits_val(s: Seq<u8>) -> int
    decreases s.len(),
{
    if s.len() == 0 {
        0
    } else {
        digits_val(s.drop_last()) * 10 + (s.last() - 48)
    }
}

/// The decimal digits of a natural number, most significant first.
pub open spec fn spec_dec_digits(n: nat) -> Seq<u8>
    decreases n,
{
    if n < 10 {
        seq![(n + 48) as u8]
    } else {
        spec_dec_digits(n / 10).push((n % 10 + 48) as u8)
    }
}

/// The byte rendering of a signed integer: optional '-', then digits.
pub open spec fn spec_int_bytes(i: int) -> Seq<u8> {
    if i < 0 {
        seq![45u8] + spec_dec_digits((-i) as nat)
    } else {
        spec_dec_digits(i as nat)
    }
}

/// Encoding of a byte string: decimal length, ':', raw bytes.
pub open spec fn spec_encode_bytes(s: Seq<u8>) -> Seq<u8> {
    spec_dec_digits(s.len()) + seq![58u8] + s
}

/// The wire encoding of a value, dict pairs emitted in stored order.
pub open spec fn spec_encode(v: BencodeValue) -> Seq<u8>
    decreases v,
{
    match v {
        BencodeValue::Int(i) => seq![105u8] + spec_int_bytes(i as int) + seq![101u8],
        BencodeValue::Bytes(s) => spec_encode_bytes(s@),
        BencodeValue::List(l) => seq![108u8] + spec_encode_seq(l@) + seq![101u8],
        BencodeValue::Dict(d) => seq![100u8] + spec_encode_pairs(d@) + seq![101u8],
    }
}

/// Concatenated encodings of a sequence of values.
pub open spec fn spec_encode_seq(s: Seq<BencodeValue>) -> Seq<u8>
    decreases s,
{
    if s.len() == 0 {
        Seq::empty()
    } else {
        spec_encode(s[0]) + spec_encode_seq(s.drop_first())
    }
}

/// Concatenated encodings of key/value pairs; each key as a byte string.
pub open spec fn spec_encode_pairs(s: Seq<(Vec<u8>, BencodeValue)>) -> Seq<u8>
    decreases s,
{
    if s.len() == 0 {
        Seq::empty()
    } else {
        spec_encode_bytes(s[0].0@) + spec_encode(s[0].1) + spec_encode_pairs(s.drop_first())
    }
}

/// Position `h` marks a string length prefix in `s` starting at `pos` whose
/// declared length exceeds the bytes that remain after the ':' separator.
pub open spec fn string_len_overrun(s: Seq<u8>, pos: int, h: int) -> bool {
    &&& pos < h < s.len()
    &&& forall|k: int| pos <= k < h ==> is_digit(s[k])
    &&& s[h] == 58u8
    &&& digits_val(s.subrange(pos, h)) > s.len() - h - 1
}

proof fn lemma_digits_val_nonneg(s: Seq<u8>)
    requires
        forall|k: int| 0 <= k < s.len() ==> is_digit(s[k]),
    ensures
        digits_val(s) >= 0,
    decreases s.len(),
{
    if s.len() > 0 {
        lemma_digits_val_nonneg(s.drop_last());
    }
}

proof fn lemma_digits_val_pos(s: Seq<u8>)
    requires
        s.len() > 0,
        forall|k: int| 0 <= k < s.len() ==> is_digit(s[k]),
        s[0] != 48,
    ensures
        digits_val(s) >= 1,
    decreases s.len(),
{
    if s.len() == 1 {
        assert(s.drop_last().len() == 0);
        assert(digits_val(s.drop_last()) == 0);
        assert(s.last() == s[0]);
    } else {
        lemma_digits_val_pos(s.drop_last());
        lemma_digits_val_nonneg(s.drop_last());
    }
}

/// A well-formed digit string (nonempty, no leading zero unless it is "0")
/// is reproduced exactly by rendering its numeric value back to decimal.
proof fn lemma_digits_roundtrip(s: Seq<u8>)
    requires
        s.len() > 0,
        forall|k: int| 0 <= k < s.len() ==> is_digit(s[k]),
        s.len() > 1 ==> s[0] != 48,
    ensures
        digits_val(s) >= 0,
        spec_dec_digits(digits_val(s) as nat) == s,
    decreases s.len(),
{
    lemma_digits_val_nonneg(s);
    if s.len() == 1 {
        assert(s.drop_last().len() == 0);
        assert(digits_val(s.drop_last()) == 0);
        assert(s.last() == s[0]);
        assert(digits_val(s) == s[0] - 48);
        assert(spec_dec_digits((s[0] - 48) as nat) =~= s);
    } else {
        let s0 = s.drop_last();
        assert(forall|k: int| 0 <= k < s0.len() ==> is_digit(#[trigger] s0[k]));
        lemma_digits_roundtrip(s0);
        lemma_digits_val_pos(s0);
        let n = digits_val(s);
        let n0 = digits_val(s0);
        let d = s.last() - 48;
        assert(n == n0 * 10 + d);
        assert(n0 >= 1);
        assert(n >= 10);
        assert(n / 10 == n0 && n % 10 == d) by (nonlinear_arith)
            requires
                n == n0 * 10 + d,
                0 <= d < 10,
                n0 >= 1,
        ;
        assert(spec_dec_digits(n as nat) == spec_dec_digits(n0 as nat).push((d + 48) as u8));
        assert(spec_dec_digits(n0 as nat).push((d + 48) as u8) =~= s);
    }
}

/// Appending one value to a sequence appends its encoding.
proof fn lemma_encode_seq_push(s: Seq<BencodeValue>, v: BencodeValue)
    ensures
        spec_encode_seq(s.push(v)) == spec_encode_seq(s) + spec_encode(v),
    decreases s.len(),
{
    let p = s.push(v);
    if s.len() == 0 {
        assert(p[0] == v);
        assert(p.drop_first() =~= Seq::<BencodeValue>::empty());
        assert(spec_encode_seq(p) == spec_encode(v) + spec_encode_seq(
            Seq::<BencodeValue>::empty(),
        ));
        assert(spec_encode(v) + Seq::<u8>::empty() =~= spec_encode(v));
        assert(spec_encode_seq(s) + spec_encode(v) =~= spec_encode(v));
    } else {
        assert(p[0] == s[0]);
        assert(p.drop_first() =~= s.drop_first().push(v));
        lemma_encode_seq_push(s.drop_first(), v);
        assert(spec_encode_seq(p) == spec_encode(s[0]) + (spec_encode_seq(s.drop_first())
            + spec_encode(v)));
        assert(spec_encode(s[0]) + (spec_encode_seq(s.drop_first()) + spec_encode(v)) =~= (
        spec_encode(s[0]) + spec_encode_seq(s.drop_first())) + spec_encode(v));
    }
}

/// Appending one pair to a dict appends its key and value encodings.
proof fn lemma_encode_pairs_push(s: Seq<(Vec<u8>, BencodeValue)>, k: Vec<u8>, v: BencodeValue)
    ensures
        spec_encode_pairs(s.push((k, v))) == spec_encode_pairs(s) + spec_encode_bytes(k@)
            + spec_encode(v),
    decreases s.len(),
{
    let p = s.push((k, v));
    if s.len() == 0 {
        assert(p[0] == (k, v));
        assert(p.drop_first() =~= Seq::<(Vec<u8>, BencodeValue)>::empty());
        assert(spec_encode_pairs(p) == spec_encode_bytes(k@) + spec_encode(v) + spec_encode_pairs(
            Seq::<(Vec<u8>, BencodeValue)>::empty(),
        ));
        assert(spec_encode_pairs(p) =~= spec_encode_bytes(k@) + spec_encode(v));
        assert(spec_encode_pairs(s) + spec_encode_bytes(k@) + spec_encode(v) =~= spec_encode_bytes(
            k@,
        ) + spec_encode(v));
    } else {
        assert(p[0] == s[0]);
        assert(p.drop_first() =~= s.drop_first().push((k, v)));
        lemma_encode_pairs_push(s.drop_first(), k, v);
        assert(spec_encode_pairs(p) == spec_encode_bytes(s[0].0@) + spec_encode(s[0].1) + (
        spec_encode_pairs(s.drop_first()) + spec_encode_bytes(k@) + spec_encode(v)));
        assert(spec_encode_bytes(s[0].0@) + spec_encode(s[0].1) + (spec_encode_pairs(
            s.drop_first(),
        ) + spec_encode_bytes(k@) + spec_encode(v)) =~= (spec_encode_bytes(s[0].0@) + spec_encode(
            s[0].1,
        ) + spec_encode_pairs(s.drop_first())) + spec_encode_bytes(k@) + spec_encode(v));
    }
}

/// An encoding of an integer value sits exactly at `input[pos..n]`.
pub open spec fn int_encoding_at(input: Seq<u8>, pos: int, n: int, v: BencodeValue) -> bool {
    &&& v is Int
    &&& 0 <= pos < n <= input.len()
    &&& spec_encode(v) == input.subrange(pos, n)
}

/// An encoding of a byte string sits exactly at `input[pos..n]`.
pub open spec fn bytes_encoding_at(input: Seq<u8>, pos: int, n: int, v: BencodeValue) -> bool {
    &&& v is Bytes
    &&& 0 <= pos < n <= input.len()
    &&& spec_encode(v) == input.subrange(pos, n)
}

/// The magnitude of a signed value.
pub open spec fn spec_int_mag(i: i64) -> int {
    if i < 0 {
        -(i as int)
    } else {
        i as int
    }
}

spec fn pow10(n: nat) -> int
    decreases n,
{
    if n == 0 {
        1
    } else {
        10 * pow10((n - 1) as nat)
    }
}

proof fn lemma_pow10_pos(n: nat)
    ensures
        pow10(n) >= 1,
    decreases n,
{
    if n > 0 {
        lemma_pow10_pos((n - 1) as nat);
    }
}

proof fn lemma_pow10_mono(a: nat, b: nat)
    requires
        a <= b,
    ensures
        pow10(a) <= pow10(b),
    decreases b,
{
    lemma_pow10_pos(a);
    if a < b {
        lemma_pow10_mono(a, (b - 1) as nat);
        lemma_pow10_pos((b - 1) as nat);
    }
}

/// A digit string of length `k` denotes a value below ten to the `k`.
proof fn lemma_digits_val_upper(s: Seq<u8>)
    requires
        forall|k: int| 0 <= k < s.len() ==> is_digit(s[k]),
    ensures
        digits_val(s) < pow10(s.len()),
    decreases s.len(),
{
    if s.len() > 0 {
        lemma_digits_val_upper(s.drop_last());
    }
}

/// The decimal rendering of a value is a nonempty well-formed digit string
/// that denotes the value itself.
proof fn lemma_dec_digits_wf(n: nat)
    ensures
        spec_dec_digits(n).len() >= 1,
        forall|k: int| 0 <= k < spec_dec_digits(n).len() ==> is_digit(spec_dec_digits(n)[k]),
        spec_dec_digits(n).len() > 1 ==> spec_dec_digits(n)[0] != 48,
        digits_val(spec_dec_digits(n)) == n,
    decreases n,
{
    if n < 10 {
        let s = spec_dec_digits(n);
        assert(s.drop_last().len() == 0);
        assert(digits_val(s.drop_last()) == 0);
    } else {
        lemma_dec_digits_wf(n / 10);
        let s0 = spec_dec_digits(n / 10);
        let d = (n % 10 + 48) as u8;
        let s = s0.push(d);
        assert(s.drop_last() =~= s0);
        assert(s.last() == d);
        assert(digits_val(s) == digits_val(s0) * 10 + (d - 48));
        vstd::arithmetic::div_mod::lemma_fundamental_div_mod(n as int, 10);
        assert forall|k: int| 0 <= k < s.len() implies is_digit(s[k]) by {
            if k < s0.len() {
                assert(is_digit(s0[k]));
            }
        }
        if s0.len() == 1 {
            assert(s0.drop_last().len() == 0);
            assert(digits_val(s0.drop_last()) == 0);
            assert(s0.last() == s0[0]);
            assert(digits_val(s0) == s0[0] - 48);
        }
        assert(s[0] == s0[0]);
    }
}

/// A proper digit prefix denotes at most a tenth of the whole string.
proof fn lemma_digits_val_prefix(s: Seq<u8>, k: int)
    requires
        forall|j: int| 0 <= j < s.len() ==> is_digit(s[j]),
        0 <= k < s.len(),
    ensures
        digits_val(s.subrange(0, k)) >= 0,
        10 * digits_val(s.subrange(0, k)) <= digits_val(s),
    decreases s.len(),
{
    lemma_digits_val_nonneg(s.subrange(0, k));
    if k == s.len() - 1 {
        assert(s.subrange(0, k) =~= s.drop_last());
    } else {
        let t = s.drop_last();
        assert(t.subrange(0, k) =~= s.subrange(0, k));
        lemma_digits_val_prefix(t, k);
        lemma_digits_val_nonneg(t);
    }
}

/// The first byte of an encoding names the kind of the encoded value.
proof fn lemma_encode_head(v: BencodeValue)
    ensures
        spec_encode(v).len() >= 2,
        v is Int ==> spec_encode(v).len() >= 3 && spec_encode(v)[0] == 105u8,
        v is Bytes ==> is_digit(spec_encode(v)[0]),
        v is List ==> spec_encode(v)[0] == 108u8,
        v is Dict ==> spec_encode(v)[0] == 100u8,
{
    match v {
        BencodeValue::Int(i) => {
            if i < 0 {
                lemma_dec_digits_wf((-(i as int)) as nat);
            } else {
                lemma_dec_digits_wf(i as nat);
            }
        },
        BencodeValue::Bytes(s) => {
            lemma_dec_digits_wf(s@.len());
            let dd = spec_dec_digits(s@.len());
            assert(spec_encode(v)[0] == dd[0]);
        },
        BencodeValue::List(_) => {},
        BencodeValue::Dict(_) => {},
    }
}

/// Where a digit scan stops inside a byte-string encoding: exactly at the
/// ':' separator, with the length digits before it denoting the payload
/// length.
proof fn lemma_bytes_scan_position(input: Seq<u8>, pos: int, n: int, v: BencodeValue, q: int)
    requires
        bytes_encoding_at(input, pos, n, v),
        pos <= q <= input.len(),
        forall|k: int| pos <= k < q ==> is_digit(input[k]),
        q < input.len() ==> !is_digit(input[q]),
    ensures
        ({
            let len = v->Bytes_0@.len();
            let dd = spec_dec_digits(len);
            &&& q == pos + dd.len()
            &&& q < input.len()
            &&& input[q] == 58u8
            &&& input.subrange(pos, q) == dd
            &&& digits_val(input.subrange(pos, q)) == len
            &&& q > pos
            &&& (q - pos > 1 ==> input[pos] != 48)
            &&& n == q + 1 + len
        }),
{
    let s = v->Bytes_0;
    let len = s@.len();
    let dd = spec_dec_digits(len);
    lemma_dec_digits_wf(len);
    let enc = spec_encode(v);
    assert(enc == dd + seq![58u8] + s@);
    assert(enc.len() == n - pos);
    let h0 = pos + dd.len();
    assert forall|k: int| pos <= k < h0 implies is_digit(input[k]) by {
        assert(input[k] == input.subrange(pos, n)[k - pos]);
        assert(enc[k - pos] == dd[k - pos]);
    }
    assert(input[h0] == input.subrange(pos, n)[h0 - pos]);
    assert(enc[dd.len() as int] == 58u8);
    if q < h0 {
        assert(is_digit(input[q]));
        assert(false);
    }
    if q > h0 {
        assert(is_digit(input[h0]));
        assert(false);
    }
    assert(input.subrange(pos, q) =~= dd);
}

/// Where a digit scan stops inside an integer encoding: exactly at the 'e'
/// terminator, with the digits denoting the value's magnitude.
proof fn lemma_int_scan_position(input: Seq<u8>, pos: int, n: int, v: BencodeValue, q: int)
    requires
        int_encoding_at(input, pos, n, v),
        ({
            let st = if input[pos + 1] == 45u8 {
                pos + 2
            } else {
                pos + 1
            };
            &&& st <= q <= input.len()
            &&& (forall|k: int| st <= k < q ==> is_digit(input[k]))
            &&& (q < input.len() ==> !is_digit(input[q]))
        }),
    ensures
        input[pos] == 105u8,
        pos + 2 < n,
        ((v->Int_0 < 0) <==> input[pos + 1] == 45u8),
        ({
            let st = if input[pos + 1] == 45u8 {
                pos + 2
            } else {
                pos + 1
            };
            let mag = spec_int_mag(v->Int_0);
            let dd = spec_dec_digits(mag as nat);
            &&& q == st + dd.len()
            &&& q < input.len()
            &&& input[q] == 101u8
            &&& input.subrange(st, q) == dd
            &&& digits_val(input.subrange(st, q)) == mag
            &&& q > st
            &&& (q - st > 1 ==> input[st] != 48)
            &&& n == q + 1
        }),
        0 <= spec_int_mag(v->Int_0) <= 0x8000_0000_0000_0000,
        v->Int_0 >= 0 ==> spec_int_mag(v->Int_0) <= 0x7fff_ffff_ffff_ffff,
        v->Int_0 < 0 ==> spec_int_mag(v->Int_0) >= 1,
{
    let i = v->Int_0;
    let mag = spec_int_mag(i);
    let dd = spec_dec_digits(mag as nat);
    lemma_dec_digits_wf(mag as nat);
    let enc = spec_encode(v);
    let body = spec_int_bytes(i as int);
    assert(enc == seq![105u8] + body + seq![101u8]);
    assert(enc.len() == n - pos);
    if i < 0 {
        assert(body == seq![45u8] + dd);
    } else {
        assert(body == dd);
    }
    assert(input[pos] == input.subrange(pos, n)[0]);
    assert(input[pos + 1] == input.subrange(pos, n)[1]);
    if i < 0 {
        assert(enc[1] == 45u8);
    } else {
        assert(enc[1] == dd[0]);
        assert(is_digit(dd[0]));
    }
    let st = if input[pos + 1] == 45u8 {
        pos + 2
    } else {
        pos + 1
    };
    let h0 = st + dd.len();
    assert forall|k: int| st <= k < h0 implies is_digit(input[k]) by {
        assert(input[k] == input.subrange(pos, n)[k - pos]);
        if i < 0 {
            assert(enc[k - pos] == dd[k - pos - 2]);
        } else {
            assert(enc[k - pos] == dd[k - pos - 1]);
        }
    }
    assert(input[h0] == input.subrange(pos, n)[h0 - pos]);
    assert(enc[enc.len() - 1] == 101u8);
    assert(h0 == n - 1);
    if q < h0 {
        assert(is_digit(input[q]));
        assert(false);
    }
    if q > h0 {
        assert(is_digit(input[h0]));
        assert(false);
    }
    assert forall|j: int| 0 <= j < dd.len() implies input[st + j] == dd[j] by {
        assert(input[st + j] == input.subrange(pos, n)[st + j - pos]);
        if i < 0 {
            assert(enc[st + j - pos] == dd[j]);
        } else {
            assert(enc[st + j - pos] == dd[j]);
        }
    }
    assert(input.subrange(st, q) =~= dd);
}

/// An encoding of any value sits exactly at `input[pos..n]`.
pub open spec fn encoding_at(input: Seq<u8>, pos: int, n: int, v: BencodeValue) -> bool {
    &&& 0 <= pos < n <= input.len()
    &&& spec_encode(v) == input.subrange(pos, n)
}

/// Pointwise view of a subrange equality: each byte of the extracted
/// sequence is the corresponding input byte.
proof fn lemma_subrange_index(bytes: Seq<u8>, p: int, n: int, s: Seq<u8>)
    requires
        0 <= p <= n <= bytes.len(),
        s == bytes.subrange(p, n),
    ensures
        s.len() == n - p,
        forall|j: int| 0 <= j < s.len() ==> #[trigger] s[j] == bytes[p + j],
{
    assert forall|j: int| 0 <= j < s.len() implies #[trigger] s[j] == bytes[p + j] by {
        assert(bytes.subrange(p, n)[j] == bytes[p + j]);
    }
}

/// Two byte-string encodings starting at the same position have the same
/// length and carry the same payload: the digits run to the first ':' and
/// fix the payload length.
proof fn lemma_bytestring_len_unique(
    ka: Seq<u8>,
    kb: Seq<u8>,
    bytes: Seq<u8>,
    p: int,
    na: int,
    nb: int,
)
    requires
        0 <= p < na <= bytes.len(),
        p < nb <= bytes.len(),
        spec_encode_bytes(ka) == bytes.subrange(p, na),
        spec_encode_bytes(kb) == bytes.subrange(p, nb),
    ensures
        na == nb,
        ka == kb,
{
    let dda = spec_dec_digits(ka.len());
    let ddb = spec_dec_digits(kb.len());
    lemma_dec_digits_wf(ka.len());
    lemma_dec_digits_wf(kb.len());
    let ea = spec_encode_bytes(ka);
    let eb = spec_encode_bytes(kb);
    lemma_subrange_index(bytes, p, na, ea);
    lemma_subrange_index(bytes, p, nb, eb);
    let ha = p + dda.len();
    let hb = p + ddb.len();
    assert forall|k: int| p <= k < ha implies is_digit(bytes[k]) by {
        assert(ea[k - p] == bytes[p + (k - p)]);
        assert(ea[k - p] == dda[k - p]);
    }
    assert forall|k: int| p <= k < hb implies is_digit(bytes[k]) by {
        assert(eb[k - p] == bytes[p + (k - p)]);
        assert(eb[k - p] == ddb[k - p]);
    }
    assert(ea[dda.len() as int] == bytes[p + dda.len()]);
    assert(ea[dda.len() as int] == 58u8);
    assert(eb[ddb.len() as int] == bytes[p + ddb.len()]);
    assert(eb[ddb.len() as int] == 58u8);
    if ha < hb {
        assert(is_digit(bytes[ha]));
        assert(false);
    }
    if hb < ha {
        assert(is_digit(bytes[hb]));
        assert(false);
    }
    assert forall|j: int| 0 <= j < dda.len() implies dda[j] == ddb[j] by {
        assert(ea[j] == bytes[p + j]);
        assert(ea[j] == dda[j]);
        assert(eb[j] == bytes[p + j]);
        assert(eb[j] == ddb[j]);
    }
    assert(dda =~= ddb);
    assert(digits_val(dda) == digits_val(ddb));
    assert(ka.len() == kb.len());
    assert(na == ha + 1 + ka.len());
    assert(nb == hb + 1 + kb.len());
    assert forall|j: int| 0 <= j < ka.len() implies ka[j] == kb[j] by {
        assert(ea[dda.len() + 1 + j] == bytes[p + (dda.len() + 1 + j)]);
        assert(ea[dda.len() + 1 + j] == ka[j]);
        assert(eb[ddb.len() + 1 + j] == bytes[p + (ddb.len() + 1 + j)]);
        assert(eb[ddb.len() + 1 + j] == kb[j]);
    }
    assert(ka =~= kb);
}

/// Two integer encodings starting at the same position have the same length
/// and denote the same value: the body runs to the first 'e'.
proof fn lemma_int_len_unique(ia: i64, ib: i64, bytes: Seq<u8>, p: int, na: int, nb: int)
    requires
        0 <= p < na <= bytes.len(),
        p < nb <= bytes.len(),
        spec_encode(BencodeValue::Int(ia)) == bytes.subrange(p, na),
        spec_encode(BencodeValue::Int(ib)) == bytes.subrange(p, nb),
    ensures
        na == nb,
        ia == ib,
{
    let maga = spec_int_mag(ia);
    let magb = spec_int_mag(ib);
    let dda = spec_dec_digits(maga as nat);
    let ddb = spec_dec_digits(magb as nat);
    lemma_dec_digits_wf(maga as nat);
    lemma_dec_digits_wf(magb as nat);
    let ea = spec_encode(BencodeValue::Int(ia));
    let eb = spec_encode(BencodeValue::Int(ib));
    let ba = spec_int_bytes(ia as int);
    let bb = spec_int_bytes(ib as int);
    lemma_subrange_index(bytes, p, na, ea);
    lemma_subrange_index(bytes, p, nb, eb);
    assert(ea == seq![105u8] + ba + seq![101u8]);
    assert(eb == seq![105u8] + bb + seq![101u8]);
    if ia < 0 {
        assert(ba == seq![45u8] + dda);
    } else {
        assert(ba == dda);
    }
    if ib < 0 {
        assert(bb == seq![45u8] + ddb);
    } else {
        assert(bb == ddb);
    }
    assert forall|k: int| p < k < na - 1 implies bytes[k] != 101u8 by {
        assert(ea[k - p] == bytes[p + (k - p)]);
        assert(ea[k - p] == ba[k - p - 1]);
        if ia < 0 {
            if k - p - 1 == 0 {
            } else {
                assert(ba[k - p - 1] == dda[k - p - 2]);
                assert(is_digit(dda[k - p - 2]));
            }
        } else {
            assert(is_digit(dda[k - p - 1]));
        }
    }
    assert forall|k: int| p < k < nb - 1 implies bytes[k] != 101u8 by {
        assert(eb[k - p] == bytes[p + (k - p)]);
        assert(eb[k - p] == bb[k - p - 1]);
        if ib < 0 {
            if k - p - 1 == 0 {
            } else {
                assert(bb[k - p - 1] == ddb[k - p - 2]);
                assert(is_digit(ddb[k - p - 2]));
            }
        } else {
            assert(is_digit(ddb[k - p - 1]));
        }
    }
    assert(ea[na - p - 1] == bytes[p + (na - p - 1)]);
    assert(ea[na - p - 1] == 101u8);
    assert(eb[nb - p - 1] == bytes[p + (nb - p - 1)]);
    assert(eb[nb - p - 1] == 101u8);
    if na < nb {
        assert(bytes[na - 1] != 101u8);
        assert(false);
    }
    if nb < na {
        assert(bytes[nb - 1] != 101u8);
        assert(false);
    }
    assert forall|j: int| 0 <= j < ba.len() implies ba[j] == bb[j] by {
        assert(ea[j + 1] == bytes[p + (j + 1)]);
        assert(ea[j + 1] == ba[j]);
        assert(eb[j + 1] == bytes[p + (j + 1)]);
        assert(eb[j + 1] == bb[j]);
    }
    assert(ba =~= bb);
    if ia < 0 && ib >= 0 {
        assert(ba[0] == 45u8);
        assert(bb[0] == ddb[0]);
        assert(is_digit(ddb[0]));
        assert(false);
    }
    if ia >= 0 && ib < 0 {
        assert(bb[0] == 45u8);
        assert(ba[0] == dda[0]);
        assert(is_digit(dda[0]));
        assert(false);
    }
    if ia < 0 {
        assert forall|j: int| 0 <= j < dda.len() implies dda[j] == ddb[j] by {
            assert(ba[j + 1] == dda[j]);
            assert(bb[j + 1] == ddb[j]);
        }
        assert(dda =~= ddb);
    } else {
        assert(dda == ba && ddb == bb);
    }
    assert(digits_val(dda) == digits_val(ddb));
    assert(maga == magb);
}

/// Law: the format is self-delimiting. No encoding is a proper prefix of
/// another, so two encodings starting at the same position in the same bytes
/// consume exactly the same range; together with the decoder's contract this
/// pins the consumed count of every successful decode of given bytes.
pub proof fn lemma_enc_len_unique(
    a: BencodeValue,
    b: BencodeValue,
    bytes: Seq<u8>,
    p: int,
    na: int,
    nb: int,
)
    requires
        encoding_at(bytes, p, na, a),
        encoding_at(bytes, p, nb, b),
    ensures
        na == nb,
    decreases a,
{
    lemma_encode_head(a);
    lemma_encode_head(b);
    lemma_subrange_index(bytes, p, na, spec_encode(a));
    lemma_subrange_index(bytes, p, nb, spec_encode(b));
    assert(spec_encode(a)[0] == bytes[p + 0]);
    assert(spec_encode(b)[0] == bytes[p + 0]);
    match a {
        BencodeValue::Int(ia) => {
            assert(b is Int);
            lemma_int_len_unique(ia, b->Int_0, bytes, p, na, nb);
        },
        BencodeValue::Bytes(sa) => {
            assert(b is Bytes);
            assert(spec_encode(a) == spec_encode_bytes(sa@));
            assert(spec_encode(b) == spec_encode_bytes(b->Bytes_0@));
            lemma_bytestring_len_unique(sa@, b->Bytes_0@, bytes, p, na, nb);
        },
        BencodeValue::List(la) => {
            assert(b is List);
            let lb = b->List_0;
            lemma_open_run(bytes, p, na, spec_encode_seq(la@), spec_encode(a));
            lemma_open_run(bytes, p, nb, spec_encode_seq(lb@), spec_encode(b));
            lemma_seq_len_unique(la@, lb@, bytes, p + 1, na - 1, nb - 1);
        },
        BencodeValue::Dict(da) => {
            assert(b is Dict);
            let db = b->Dict_0;
            lemma_open_run(bytes, p, na, spec_encode_pairs(da@), spec_encode(a));
            lemma_open_run(bytes, p, nb, spec_encode_pairs(db@), spec_encode(b));
            lemma_pairs_len_unique(da@, db@, bytes, p + 1, na - 1, nb - 1);
        },
    }
}

/// Split a bracketed encoding `opener ++ run ++ 'e'` at `[p..n)` into its
/// inner run at `[p+1..n-1)` with the closing 'e' at `n-1`.
proof fn lemma_open_run(bytes: Seq<u8>, p: int, n: int, run: Seq<u8>, whole: Seq<u8>)
    requires
        0 <= p < n <= bytes.len(),
        whole == bytes.subrange(p, n),
        whole.len() == run.len() + 2,
        forall|j: int| 0 <= j < run.len() ==> whole[j + 1] == #[trigger] run[j],
        whole[whole.len() - 1] == 101u8,
    ensures
        run == bytes.subrange(p + 1, n - 1),
        bytes[n - 1] == 101u8,
        p + 1 <= n - 1,
{
    lemma_subrange_index(bytes, p, n, whole);
    assert forall|j: int| 0 <= j < run.len() implies run[j] == bytes.subrange(p + 1, n - 1)[j] by {
        assert(whole[j + 1] == bytes[p + (j + 1)]);
        assert(bytes.subrange(p + 1, n - 1)[j] == bytes[p + 1 + j]);
    }
    assert(run =~= bytes.subrange(p + 1, n - 1));
    assert(whole[whole.len() - 1] == bytes[p + (whole.len() - 1)]);
}

/// Two element runs closed by 'e' starting at the same position end at the
/// same position.
proof fn lemma_seq_len_unique(
    ea: Seq<BencodeValue>,
    eb: Seq<BencodeValue>,
    bytes: Seq<u8>,
    p: int,
    qa: int,
    qb: int,
)
    requires
        0 <= p <= qa < bytes.len(),
        p <= qb < bytes.len(),
        spec_encode_seq(ea) == bytes.subrange(p, qa),
        spec_encode_seq(eb) == bytes.subrange(p, qb),
        bytes[qa] == 101u8,
        bytes[qb] == 101u8,
    ensures
        qa == qb,
    decreases ea,
{
    lemma_subrange_index(bytes, p, qa, spec_encode_seq(ea));
    lemma_subrange_index(bytes, p, qb, spec_encode_seq(eb));
    if ea.len() == 0 && eb.len() == 0 {
    } else if ea.len() == 0 {
        lemma_encode_head(eb[0]);
        assert(spec_encode_seq(eb) == spec_encode(eb[0]) + spec_encode_seq(eb.drop_first()));
        assert(spec_encode_seq(eb)[0] == bytes[p + 0]);
        assert(spec_encode_seq(eb)[0] == spec_encode(eb[0])[0]);
        assert(bytes[p] == bytes[qa]);
        assert(false);
    } else if eb.len() == 0 {
        lemma_encode_head(ea[0]);
        assert(spec_encode_seq(ea) == spec_encode(ea[0]) + spec_encode_seq(ea.drop_first()));
        assert(spec_encode_seq(ea)[0] == bytes[p + 0]);
        assert(spec_encode_seq(ea)[0] == spec_encode(ea[0])[0]);
        assert(bytes[p] == bytes[qb]);
        assert(false);
    } else {
        lemma_encode_head(ea[0]);
        lemma_encode_head(eb[0]);
        let la0 = spec_encode(ea[0]).len() as int;
        let lb0 = spec_encode(eb[0]).len() as int;
        assert(spec_encode_seq(ea) == spec_encode(ea[0]) + spec_encode_seq(ea.drop_first()));
        assert(spec_encode_seq(eb) == spec_encode(eb[0]) + spec_encode_seq(eb.drop_first()));
        assert forall|j: int| 0 <= j < la0 implies spec_encode(ea[0])[j] == bytes[p + j] by {
            assert(spec_encode_seq(ea)[j] == bytes[p + j]);
            assert(spec_encode_seq(ea)[j] == spec_encode(ea[0])[j]);
        }
        assert(spec_encode(ea[0]) =~= bytes.subrange(p, p + la0));
        assert forall|j: int| 0 <= j < lb0 implies spec_encode(eb[0])[j] == bytes[p + j] by {
            assert(spec_encode_seq(eb)[j] == bytes[p + j]);
            assert(spec_encode_seq(eb)[j] == spec_encode(eb[0])[j]);
        }
        assert(spec_encode(eb[0]) =~= bytes.subrange(p, p + lb0));
        lemma_enc_len_unique(ea[0], eb[0], bytes, p, p + la0, p + lb0);
        assert forall|j: int| 0 <= j < spec_encode_seq(ea.drop_first()).len() implies
            spec_encode_seq(ea.drop_first())[j] == bytes[p + la0 + j] by {
            assert(spec_encode_seq(ea)[la0 + j] == bytes[p + (la0 + j)]);
            assert(spec_encode_seq(ea)[la0 + j] == spec_encode_seq(ea.drop_first())[j]);
        }
        assert(spec_encode_seq(ea.drop_first()) =~= bytes.subrange(p + la0, qa));
        assert forall|j: int| 0 <= j < spec_encode_seq(eb.drop_first()).len() implies
            spec_encode_seq(eb.drop_first())[j] == bytes[p + lb0 + j] by {
            assert(spec_encode_seq(eb)[lb0 + j] == bytes[p + (lb0 + j)]);
            assert(spec_encode_seq(eb)[lb0 + j] == spec_encode_seq(eb.drop_first())[j]);
        }
        assert(spec_encode_seq(eb.drop_first()) =~= bytes.subrange(p + lb0, qb));
        lemma_seq_len_unique(ea.drop_first(), eb.drop_first(), bytes, p + la0, qa, qb);
    }
}

/// Two key/value-pair runs closed by 'e' starting at the same position end
/// at the same position.
proof fn lemma_pairs_len_unique(
    ea: Seq<(Vec<u8>, BencodeValue)>,
    eb: Seq<(Vec<u8>, BencodeValue)>,
    bytes: Seq<u8>,
    p: int,
    qa: int,
    qb: int,
)
    requires
        0 <= p <= qa < bytes.len(),
        p <= qb < bytes.len(),
        spec_encode_pairs(ea) == bytes.subrange(p, qa),
        spec_encode_pairs(eb) == bytes.subrange(p, qb),
        bytes[qa] == 101u8,
        bytes[qb] == 101u8,
    ensures
        qa == qb,
    decreases ea,
{
    lemma_subrange_index(bytes, p, qa, spec_encode_pairs(ea));
    lemma_subrange_index(bytes, p, qb, spec_encode_pairs(eb));
    if ea.len() == 0 && eb.len() == 0 {
    } else if ea.len() == 0 {
        lemma_dec_digits_wf(eb[0].0@.len());
        assert(spec_encode_pairs(eb) == spec_encode_bytes(eb[0].0@) + spec_encode(eb[0].1)
            + spec_encode_pairs(eb.drop_first()));
        assert(spec_encode_pairs(eb)[0] == bytes[p + 0]);
        assert(spec_encode_pairs(eb)[0] == spec_dec_digits(eb[0].0@.len())[0]);
        assert(bytes[p] == bytes[qa]);
        assert(false);
    } else if eb.len() == 0 {
        lemma_dec_digits_wf(ea[0].0@.len());
        assert(spec_encode_pairs(ea) == spec_encode_bytes(ea[0].0@) + spec_encode(ea[0].1)
            + spec_encode_pairs(ea.drop_first()));
        assert(spec_encode_pairs(ea)[0] == bytes[p + 0]);
        assert(spec_encode_pairs(ea)[0] == spec_dec_digits(ea[0].0@.len())[0]);
        assert(bytes[p] == bytes[qb]);
        assert(false);
    } else {
        let lka = spec_encode_bytes(ea[0].0@).len() as int;
        let lkb = spec_encode_bytes(eb[0].0@).len() as int;
        lemma_dec_digits_wf(ea[0].0@.len());
        lemma_dec_digits_wf(eb[0].0@.len());
        lemma_encode_head(ea[0].1);
        lemma_encode_head(eb[0].1);
        let lva = spec_encode(ea[0].1).len() as int;
        let lvb = spec_encode(eb[0].1).len() as int;
        assert(spec_encode_pairs(ea) == spec_encode_bytes(ea[0].0@) + spec_encode(ea[0].1)
            + spec_encode_pairs(ea.drop_first()));
        assert(spec_encode_pairs(eb) == spec_encode_bytes(eb[0].0@) + spec_encode(eb[0].1)
            + spec_encode_pairs(eb.drop_first()));
        assert forall|j: int| 0 <= j < lka implies spec_encode_bytes(ea[0].0@)[j] == bytes[p + j]
            by {
            assert(spec_encode_pairs(ea)[j] == bytes[p + j]);
            assert(spec_encode_pairs(ea)[j] == spec_encode_bytes(ea[0].0@)[j]);
        }
        assert(spec_encode_bytes(ea[0].0@) =~= bytes.subrange(p, p + lka));
        assert forall|j: int| 0 <= j < lkb implies spec_encode_bytes(eb[0].0@)[j] == bytes[p + j]
            by {
            assert(spec_encode_pairs(eb)[j] == bytes[p + j]);
            assert(spec_encode_pairs(eb)[j] == spec_encode_bytes(eb[0].0@)[j]);
        }
        assert(spec_encode_bytes(eb[0].0@) =~= bytes.subrange(p, p + lkb));
        lemma_bytestring_len_unique(ea[0].0@, eb[0].0@, bytes, p, p + lka, p + lkb);
        assert forall|j: int| 0 <= j < lva implies spec_encode(ea[0].1)[j] == bytes[p + lka + j]
            by {
            assert(spec_encode_pairs(ea)[lka + j] == bytes[p + (lka + j)]);
            assert(spec_encode_pairs(ea)[lka + j] == spec_encode(ea[0].1)[j]);
        }
        assert(spec_encode(ea[0].1) =~= bytes.subrange(p + lka, p + lka + lva));
        assert forall|j: int| 0 <= j < lvb implies spec_encode(eb[0].1)[j] == bytes[p + lkb + j]
            by {
            assert(spec_encode_pairs(eb)[lkb + j] == bytes[p + (lkb + j)]);
            assert(spec_encode_pairs(eb)[lkb + j] == spec_encode(eb[0].1)[j]);
        }
        assert(spec_encode(eb[0].1) =~= bytes.subrange(p + lkb, p + lkb + lvb));
        lemma_enc_len_unique(ea[0].1, eb[0].1, bytes, p + lka, p + lka + lva, p + lkb + lvb);
        assert forall|j: int| 0 <= j < spec_encode_pairs(ea.drop_first()).len() implies
            spec_encode_pairs(ea.drop_first())[j] == bytes[p + lka + lva + j] by {
            assert(spec_encode_pairs(ea)[lka + lva + j] == bytes[p + (lka + lva + j)]);
            assert(spec_encode_pairs(ea)[lka + lva + j] == spec_encode_pairs(ea.drop_first())[j]);
        }
        assert(spec_encode_pairs(ea.drop_first()) =~= bytes.subrange(p + lka + lva, qa));
        assert forall|j: int| 0 <= j < spec_encode_pairs(eb.drop_first()).len() implies
            spec_encode_pairs(eb.drop_first())[j] == bytes[p + lkb + lvb + j] by {
            assert(spec_encode_pairs(eb)[lkb + lvb + j] == bytes[p + (lkb + lvb + j)]);
            assert(spec_encode_pairs(eb)[lkb + lvb + j] == spec_encode_pairs(eb.drop_first())[j]);
        }
        assert(spec_encode_pairs(eb.drop_first()) =~= bytes.subrange(p + lkb + lvb, qb));
        lemma_pairs_len_unique(ea.drop_first(), eb.drop_first(), bytes, p + lka + lva, qa, qb);
    }
}

/// An encoding of a list sits exactly at `input[pos..n]`.
pub open spec fn list_encoding_at(input: Seq<u8>, pos: int, n: int, v: BencodeValue) -> bool {
    v is List && encoding_at(input, pos, n, v)
}

/// An encoding of a map sits exactly at `input[pos..n]`.
pub open spec fn dict_encoding_at(input: Seq<u8>, pos: int, n: int, v: BencodeValue) -> bool {
    v is Dict && encoding_at(input, pos, n, v)
}

/// The bytes from `p` complete a list: a run of element encodings, then the
/// closing 'e' at `n-1`.
pub open spec fn list_tail_at(input: Seq<u8>, p: int, n: int) -> bool {
    &&& 0 <= p <= n - 1
    &&& n <= input.len()
    &&& input[n - 1] == 101u8
    &&& exists|elems: Seq<BencodeValue>| #[trigger] spec_encode_seq(elems) == input.subrange(
        p,
        n - 1,
    )
}

/// The bytes from `p` complete a map: a run of key/value encodings, then the
/// closing 'e' at `n-1`.
pub open spec fn dict_tail_at(input: Seq<u8>, p: int, n: int) -> bool {
    &&& 0 <= p <= n - 1
    &&& n <= input.len()
    &&& input[n - 1] == 101u8
    &&& exists|prs: Seq<(Vec<u8>, BencodeValue)>| #[trigger] spec_encode_pairs(prs)
        == input.subrange(p, n - 1)
}

/// An element run that has not reached its closing 'e' begins with one whole
/// element encoding, and the rest of the run follows it.
proof fn lemma_seq_decomp(input: Seq<u8>, p: int, n: int, elems: Seq<BencodeValue>)
    requires
        0 <= p <= n - 1,
        n <= input.len(),
        spec_encode_seq(elems) == input.subrange(p, n - 1),
        input[n - 1] == 101u8,
        input[p] != 101u8,
    ensures
        elems.len() > 0,
        ({
            let le = spec_encode_seq(elems).len() as int;
            let l0 = spec_encode(elems[0]).len() as int;
            &&& spec_encode(elems[0]) == input.subrange(p, p + l0)
            &&& p < p + l0 <= n - 1
            &&& spec_encode_seq(elems.drop_first()) == input.subrange(p + l0, n - 1)
        }),
{
    lemma_subrange_index(input, p, n - 1, spec_encode_seq(elems));
    if elems.len() == 0 {
        assert(p == n - 1);
        assert(false);
    }
    lemma_encode_head(elems[0]);
    let l0 = spec_encode(elems[0]).len() as int;
    assert(spec_encode_seq(elems) == spec_encode(elems[0]) + spec_encode_seq(elems.drop_first()));
    assert forall|j: int| 0 <= j < l0 implies spec_encode(elems[0])[j] == input[p + j] by {
        assert(spec_encode_seq(elems)[j] == input[p + j]);
        assert(spec_encode_seq(elems)[j] == spec_encode(elems[0])[j]);
    }
    assert(spec_encode(elems[0]) =~= input.subrange(p, p + l0));
    assert forall|j: int| 0 <= j < spec_encode_seq(elems.drop_first()).len() implies
        spec_encode_seq(elems.drop_first())[j] == input[p + l0 + j] by {
        assert(spec_encode_seq(elems)[l0 + j] == input[p + (l0 + j)]);
        assert(spec_encode_seq(elems)[l0 + j] == spec_encode_seq(elems.drop_first())[j]);
    }
    assert(spec_encode_seq(elems.drop_first()) =~= input.subrange(p + l0, n - 1));
}

/// A pair run that has not reached its closing 'e' begins with one whole
/// key encoding and one whole value encoding, and the rest follows them.
proof fn lemma_pairs_decomp(input: Seq<u8>, p: int, n: int, prs: Seq<(Vec<u8>, BencodeValue)>)
    requires
        0 <= p <= n - 1,
        n <= input.len(),
        spec_encode_pairs(prs) == input.subrange(p, n - 1),
        input[n - 1] == 101u8,
        input[p] != 101u8,
    ensures
        prs.len() > 0,
        is_digit(input[p]),
        ({
            let lk = spec_encode_bytes(prs[0].0@).len() as int;
            let lv = spec_encode(prs[0].1).len() as int;
            &&& spec_encode_bytes(prs[0].0@) == input.subrange(p, p + lk)
            &&& spec_encode(prs[0].1) == input.subrange(p + lk, p + lk + lv)
            &&& p < p + lk < p + lk + lv <= n - 1
            &&& spec_encode_pairs(prs.drop_first()) == input.subrange(p + lk + lv, n - 1)
        }),
{
    lemma_subrange_index(input, p, n - 1, spec_encode_pairs(prs));
    if prs.len() == 0 {
        assert(p == n - 1);
        assert(false);
    }
    lemma_dec_digits_wf(prs[0].0@.len());
    lemma_encode_head(prs[0].1);
    let lk = spec_encode_bytes(prs[0].0@).len() as int;
    let lv = spec_encode(prs[0].1).len() as int;
    assert(spec_encode_pairs(prs) == spec_encode_bytes(prs[0].0@) + spec_encode(prs[0].1)
        + spec_encode_pairs(prs.drop_first()));
    assert forall|j: int| 0 <= j < lk implies spec_encode_bytes(prs[0].0@)[j] == input[p + j] by {
        assert(spec_encode_pairs(prs)[j] == input[p + j]);
        assert(spec_encode_pairs(prs)[j] == spec_encode_bytes(prs[0].0@)[j]);
    }
    assert(spec_encode_bytes(prs[0].0@) =~= input.subrange(p, p + lk));
    assert(spec_encode_bytes(prs[0].0@)[0] == spec_dec_digits(prs[0].0@.len())[0]);
    assert forall|j: int| 0 <= j < lv implies spec_encode(prs[0].1)[j] == input[p + lk + j] by {
        assert(spec_encode_pairs(prs)[lk + j] == input[p + (lk + j)]);
        assert(spec_encode_pairs(prs)[lk + j] == spec_encode(prs[0].1)[j]);
    }
    assert(spec_encode(prs[0].1) =~= input.subrange(p + lk, p + lk + lv));
    assert forall|j: int| 0 <= j < spec_encode_pairs(prs.drop_first()).len() implies
        spec_encode_pairs(prs.drop_first())[j] == input[p + lk + lv + j] by {
        assert(spec_encode_pairs(prs)[lk + lv + j] == input[p + (lk + lv + j)]);
        assert(spec_encode_pairs(prs)[lk + lv + j] == spec_encode_pairs(prs.drop_first())[j]);
    }
    assert(spec_encode_pairs(prs.drop_first()) =~= input.subrange(p + lk + lv, n - 1));
}

/// After the list opener at `pos`, the rest of the input is a run of whole
/// element encodings with no closing 'e': the list is cut off.
pub open spec fn list_truncated_at(input: Seq<u8>, pos: int) -> bool {
    exists|elems: Seq<BencodeValue>| #[trigger] spec_encode_seq(elems) == input.subrange(
        pos + 1,
        input.len() as int,
    )
}

/// After the map opener at `pos`, the rest of the input is a run of whole
/// key/value encodings with no closing 'e': the map is cut off.
pub open spec fn dict_truncated_at(input: Seq<u8>, pos: int) -> bool {
    exists|prs: Seq<(Vec<u8>, BencodeValue)>| #[trigger] spec_encode_pairs(prs) == input.subrange(
        pos + 1,
        input.len() as int,
    )
}

/// A nonempty element run begins with one whole element encoding, and the
/// rest of the run follows it.
proof fn lemma_seq_decomp_open(input: Seq<u8>, p: int, q: int, elems: Seq<BencodeValue>)
    requires
        0 <= p <= q <= input.len(),
        spec_encode_seq(elems) == input.subrange(p, q),
        elems.len() > 0,
    ensures
        ({
            let l0 = spec_encode(elems[0]).len() as int;
            &&& spec_encode(elems[0]) == input.subrange(p, p + l0)
            &&& p < p + l0 <= q
            &&& spec_encode_seq(elems.drop_first()) == input.subrange(p + l0, q)
        }),
{
    lemma_subrange_index(input, p, q, spec_encode_seq(elems));
    lemma_encode_head(elems[0]);
    let l0 = spec_encode(elems[0]).len() as int;
    assert(spec_encode_seq(elems) == spec_encode(elems[0]) + spec_encode_seq(elems.drop_first()));
    assert forall|j: int| 0 <= j < l0 implies spec_encode(elems[0])[j] == input[p + j] by {
        assert(spec_encode_seq(elems)[j] == input[p + j]);
        assert(spec_encode_seq(elems)[j] == spec_encode(elems[0])[j]);
    }
    assert(spec_encode(elems[0]) =~= input.subrange(p, p + l0));
    assert forall|j: int| 0 <= j < spec_encode_seq(elems.drop_first()).len() implies
        spec_encode_seq(elems.drop_first())[j] == input[p + l0 + j] by {
        assert(spec_encode_seq(elems)[l0 + j] == input[p + (l0 + j)]);
        assert(spec_encode_seq(elems)[l0 + j] == spec_encode_seq(elems.drop_first())[j]);
    }
    assert(spec_encode_seq(elems.drop_first()) =~= input.subrange(p + l0, q));
}

/// A nonempty pair run begins with one whole key encoding and one whole
/// value encoding, and the rest of the run follows them.
proof fn lemma_pairs_decomp_open(
    input: Seq<u8>,
    p: int,
    q: int,
    prs: Seq<(Vec<u8>, BencodeValue)>,
)
    requires
        0 <= p <= q <= input.len(),
        spec_encode_pairs(prs) == input.subrange(p, q),
        prs.len() > 0,
    ensures
        is_digit(input[p]),
        ({
            let lk = spec_encode_bytes(prs[0].0@).len() as int;
            let lv = spec_encode(prs[0].1).len() as int;
            &&& spec_encode_bytes(prs[0].0@) == input.subrange(p, p + lk)
            &&& spec_encode(prs[0].1) == input.subrange(p + lk, p + lk + lv)
            &&& p < p + lk < p + lk + lv <= q
            &&& spec_encode_pairs(prs.drop_first()) == input.subrange(p + lk + lv, q)
        }),
{
    lemma_subrange_index(input, p, q, spec_encode_pairs(prs));
    lemma_dec_digits_wf(prs[0].0@.len());
    lemma_encode_head(prs[0].1);
    let lk = spec_encode_bytes(prs[0].0@).len() as int;
    let lv = spec_encode(prs[0].1).len() as int;
    assert(spec_encode_pairs(prs) == spec_encode_bytes(prs[0].0@) + spec_encode(prs[0].1)
        + spec_encode_pairs(prs.drop_first()));
    assert forall|j: int| 0 <= j < lk implies spec_encode_bytes(prs[0].0@)[j] == input[p + j] by {
        assert(spec_encode_pairs(prs)[j] == input[p + j]);
        assert(spec_encode_pairs(prs)[j] == spec_encode_bytes(prs[0].0@)[j]);
    }
    assert(spec_encode_bytes(prs[0].0@) =~= input.subrange(p, p + lk));
    assert(spec_encode_bytes(prs[0].0@)[0] == spec_dec_digits(prs[0].0@.len())[0]);
    assert forall|j: int| 0 <= j < lv implies spec_encode(prs[0].1)[j] == input[p + lk + j] by {
        assert(spec_encode_pairs(prs)[lk + j] == input[p + (lk + j)]);
        assert(spec_encode_pairs(prs)[lk + j] == spec_encode(prs[0].1)[j]);
    }
    assert(spec_encode(prs[0].1) =~= input.subrange(p + lk, p + lk + lv));
    assert forall|j: int| 0 <= j < spec_encode_pairs(prs.drop_first()).len() implies
        spec_encode_pairs(prs.drop_first())[j] == input[p + lk + lv + j] by {
        assert(spec_encode_pairs(prs)[lk + lv + j] == input[p + (lk + lv + j)]);
        assert(spec_encode_pairs(prs)[lk + lv + j] == spec_encode_pairs(prs.drop_first())[j]);
    }
    assert(spec_encode_pairs(prs.drop_first()) =~= input.subrange(p + lk + lv, q));
}

/// A value encoding that is not a byte string begins at `p`.
pub open spec fn dict_bad_key_from(input: Seq<u8>, p: int) -> bool {
    exists|w: BencodeValue, n: int|
        #![trigger encoding_at(input, p, n, w)]
        !(w is Bytes) && encoding_at(input, p, n, w)
}

/// After the map opener at `pos`: a run of whole key/value encodings, then a
/// key that is not a byte string.
pub open spec fn dict_bad_key_at(input: Seq<u8>, pos: int) -> bool {
    exists|prs: Seq<(Vec<u8>, BencodeValue)>, m: int|
        #![trigger spec_encode_pairs(prs), input.subrange(pos + 1, m)]
        {
            &&& pos + 1 <= m <= input.len()
            &&& spec_encode_pairs(prs) == input.subrange(pos + 1, m)
            &&& dict_bad_key_from(input, m)
        }
}

/// The same shape, measured from an arbitrary run start.
pub open spec fn dict_bad_key_run(input: Seq<u8>, p: int) -> bool {
    exists|prs: Seq<(Vec<u8>, BencodeValue)>, m: int|
        #![trigger spec_encode_pairs(prs), input.subrange(p, m)]
        {
            &&& p <= m <= input.len()
            &&& spec_encode_pairs(prs) == input.subrange(p, m)
            &&& dict_bad_key_from(input, m)
        }
}

/// If a digit scan from `pos` stopped at `q` (first non-digit), then the
/// only position that can mark a length-prefix overrun is `q` itself, and
/// only if `q` holds a ':'.
proof fn lemma_overrun_candidate(s: Seq<u8>, pos: int, q: int, h: int)
    requires
        0 <= pos <= q <= s.len(),
        forall|k: int| pos <= k < q ==> is_digit(s[k]),
        q < s.len() ==> !is_digit(s[q]),
        string_len_overrun(s, pos, h),
    ensures
        h == q,
        q < s.len() && s[q] == 58u8,
{
    if h < q {
        assert(is_digit(s[h]));
        assert(false);
    }
    if h > q {
        assert(is_digit(s[q]));
        assert(false);
    }
}

/// Everything the digit scan pins about an integer encoding at `[pos..n)`:
/// the layout positions, the digits' value, and the magnitude bounds.
pub open spec fn int_scan_facts(input: Seq<u8>, pos: int, n: int, q: int, v: BencodeValue) -> bool {
    let st = if input[pos + 1] == 45u8 {
        pos + 2
    } else {
        pos + 1
    };
    let mag = spec_int_mag(v->Int_0);
    let dd = spec_dec_digits(mag as nat);
    &&& input[pos] == 105u8
    &&& pos + 2 < n
    &&& ((v->Int_0 < 0) <==> input[pos + 1] == 45u8)
    &&& q == st + dd.len()
    &&& q < input.len()
    &&& input[q] == 101u8
    &&& input.subrange(st, q) == dd
    &&& digits_val(input.subrange(st, q)) == mag
    &&& q > st
    &&& (q - st > 1 ==> input[st] != 48)
    &&& n == q + 1
    &&& 0 <= mag <= 0x8000_0000_0000_0000
    &&& (v->Int_0 >= 0 ==> mag <= 0x7fff_ffff_ffff_ffff)
    &&& (v->Int_0 < 0 ==> mag >= 1)
}

/// One digit scan settles every integer-encoding hypothesis at once: any
/// integer encoding starting at `pos` must agree with where the scan from
/// `st0` stopped.
proof fn lemma_int_scan_all(input: Seq<u8>, pos: int, st0: int, q: int)
    requires
        0 <= pos < input.len(),
        pos + 1 < input.len() ==> st0 == (if input[pos + 1] == 45u8 {
            pos + 2
        } else {
            pos + 1
        }),
        pos + 1 >= input.len() ==> st0 == pos + 1,
        st0 <= q <= input.len(),
        forall|k: int| st0 <= k < q ==> is_digit(input[k]),
        q < input.len() ==> !is_digit(input[q]),
    ensures
        forall|v: BencodeValue, n: int|
            #[trigger] int_encoding_at(input, pos, n, v) ==> int_scan_facts(input, pos, n, q, v),
{
    assert forall|v: BencodeValue, n: int| int_encoding_at(input, pos, n, v) implies int_scan_facts(
        input,
        pos,
        n,
        q,
        v,
    ) by {
        lemma_encode_head(v);
        assert(input[pos + 1] == input.subrange(pos, n)[1]);
        lemma_int_scan_position(input, pos, n, v, q);
    }
}

fn digit(b: u8) -> (r: bool)
    ensures
        r == is_digit(b),
{
    48 <= b && b <= 57
}

/// Decode the byte string whose decimal length prefix starts at `pos`.
#[verifier::loop_isolation(false)]
fn decode_string_at(input: &Vec<u8>, pos: usize) -> (r: Result<(BencodeValue, usize), DecodeError>)
    requires
        pos < input.len(),
        is_digit(input@[pos as int]),
    ensures
        match r {
            Ok(p) => {
                &&& pos < p.1 <= input.len()
                &&& spec_encode(p.0) == input@.subrange(pos as int, p.1 as int)
            },
            Err(e) => e == DecodeError::MalformedString,
        },
        forall|h: int|
            string_len_overrun(input@, pos as int, h) ==> r == Err::<(BencodeValue, usize),
                DecodeError,
            >(DecodeError::MalformedString),
        forall|v: BencodeValue, n: int| bytes_encoding_at(input@, pos as int, n, v) ==> r is Ok,
{
    let len = input.len();
    let ghost gpos = pos as int;
    // scan the decimal digits of the length prefix
    let mut q = pos;
    while q < len && digit(input[q])
        invariant
            pos <= q <= len <= input.len(),
            forall|k: int| gpos <= k < q ==> is_digit(input@[k]),
        decreases len - q,
    {
        q = q + 1;
    }
    let ghost gq = q as int;
    if q == len || input[q] != 58 {
        // the length prefix never reaches a ':' separator
        proof {
            assert forall|h: int| string_len_overrun(input@, gpos, h) implies false by {
                lemma_overrun_candidate(input@, gpos, gq, h);
            }
            assert forall|v: BencodeValue, n: int| bytes_encoding_at(input@, gpos, n, v)
                implies false by {
                lemma_bytes_scan_position(input@, gpos, n, v, gq);
            }
        }
        return Err(DecodeError::MalformedString);
    }
    if input[pos] == 48 && q > pos + 1 {
        // leading zero in the length prefix
        proof {
            assert forall|v: BencodeValue, n: int| bytes_encoding_at(input@, gpos, n, v)
                implies false by {
                lemma_bytes_scan_position(input@, gpos, n, v, gq);
            }
        }
        return Err(DecodeError::MalformedString);
    }
    let remaining: usize = len - q - 1;
    // numeric value of the digits, bailing out once it cannot fit
    let mut val: u64 = 0;
    let mut k = pos;
    while k < q
        invariant
            pos <= k <= q < len <= input.len(),
            forall|j: int| gpos <= j < gq ==> is_digit(input@[j]),
            val == digits_val(input@.subrange(gpos, k as int)),
        decreases q - k,
    {
        proof {
            assert(is_digit(input@[k as int]));
        }
        let d = input[k] - 48;
        if val > remaining as u64 {
            // already more than the bytes that remain
            proof {
                assert forall|v: BencodeValue, n: int| bytes_encoding_at(input@, gpos, n, v)
                    implies false by {
                    lemma_bytes_scan_position(input@, gpos, n, v, gq);
                    let dd = input@.subrange(gpos, gq);
                    let pre = input@.subrange(gpos, k as int);
                    assert(pre =~= dd.subrange(0, k - gpos));
                    lemma_digits_val_prefix(dd, k - gpos);
                }
            }
            return Err(DecodeError::MalformedString);
        }
        if val > (0xffff_ffff_ffff_ffffu64 - 9) / 10 {
            // the declared length cannot fit at all
            proof {
                assert forall|v: BencodeValue, n: int| bytes_encoding_at(input@, gpos, n, v)
                    implies false by {
                    lemma_bytes_scan_position(input@, gpos, n, v, gq);
                    let dd = input@.subrange(gpos, gq);
                    let pre = input@.subrange(gpos, k as int);
                    assert(pre =~= dd.subrange(0, k - gpos));
                    lemma_digits_val_prefix(dd, k - gpos);
                    lemma_digits_val_upper(dd);
                    lemma_pow10_mono(dd.len(), 4);
                    reveal_with_fuel(pow10, 5);
                    assert(pow10(4) == 10000);
                }
            }
            return Err(DecodeError::MalformedString);
        }
        proof {
            let pre = input@.subrange(gpos, k as int);
            let ext = input@.subrange(gpos, k as int + 1);
            assert(ext.drop_last() =~= pre);
            assert(ext.last() == input@[k as int]);
            lemma_digits_val_nonneg(pre);
        }
        val = val * 10 + (d as u64);
        k = k + 1;
    }
    proof {
        lemma_digits_val_nonneg(input@.subrange(gpos, gq));
    }
    if val > remaining as u64 {
        // declared length exceeds the bytes that remain
        proof {
            assert forall|v: BencodeValue, n: int| bytes_encoding_at(input@, gpos, n, v)
                implies false by {
                lemma_bytes_scan_position(input@, gpos, n, v, gq);
            }
        }
        return Err(DecodeError::MalformedString);
    }
    let count = val as usize;
    let start = q + 1;
    let mut out: Vec<u8> = Vec::new();
    let mut i: usize = 0;
    while i < count
        invariant
            pos < start,
            start + count <= input.len(),
            i <= count,
            out@ == input@.subrange(start as int, start + i as int),
        decreases count - i,
    {
        out.push(input[start + i]);
        proof {
            assert(out@ =~= input@.subrange(start as int, start + i + 1int));
        }
        i = i + 1;
    }
    let end = start + count;
    proof {
        let digits = input@.subrange(gpos, gq);
        lemma_digits_roundtrip(digits);
        assert(out@.len() == digits_val(digits));
        assert(spec_encode_bytes(out@) =~= input@.subrange(gpos, end as int));
        assert forall|h: int| string_len_overrun(input@, gpos, h) implies false by {
            lemma_overrun_candidate(input@, gpos, gq, h);
            assert(digits_val(input@.subrange(gpos, h)) == val);
        }
    }
    Ok((BencodeValue::Bytes(out), end))
}

/// Decode the integer literal `i<digits>e` starting at `pos`.
#[verifier::loop_isolation(false)]
fn decode_int_at(input: &Vec<u8>, pos: usize) -> (r: Result<(BencodeValue, usize), DecodeError>)
    requires
        pos < input.len(),
        input@[pos as int] == 105u8,
    ensures
        match r {
            Ok(p) => {
                &&& pos < p.1 <= input.len()
                &&& spec_encode(p.0) == input@.subrange(pos as int, p.1 as int)
            },
            Err(e) => e == DecodeError::MalformedInteger,
        },
        forall|v: BencodeValue, n: int| int_encoding_at(input@, pos as int, n, v) ==> r is Ok,
{
    let ghost gpos = pos as int;
    let len = input.len();
    let mut p = pos + 1;
    let neg = p < len && input[p] == 45;
    if neg {
        p = p + 1;
    }
    let start = p;
    let ghost gstart = start as int;
    let mut q = start;
    while q < len && digit(input[q])
        invariant
            start <= q <= len <= input.len(),
            forall|k: int| gstart <= k < q ==> is_digit(input@[k]),
        decreases len - q,
    {
        q = q + 1;
    }
    let ghost gq = q as int;
    if q == len || input[q] != 101 {
        // digits are not terminated by the 'e' marker
        proof {
            lemma_int_scan_all(input@, gpos, gstart, gq);
        }
        return Err(DecodeError::MalformedInteger);
    }
    if q == start {
        // no digits at all
        proof {
            lemma_int_scan_all(input@, gpos, gstart, gq);
        }
        return Err(DecodeError::MalformedInteger);
    }
    if input[start] == 48 && q > start + 1 {
        // leading zero
        proof {
            lemma_int_scan_all(input@, gpos, gstart, gq);
        }
        return Err(DecodeError::MalformedInteger);
    }
    let mut val: u64 = 0;
    let mut k = start;
    while k < q
        invariant
            start <= k <= q < len <= input.len(),
            forall|j: int| gstart <= j < gq ==> is_digit(input@[j]),
            val == digits_val(input@.subrange(gstart, k as int)),
        decreases q - k,
    {
        proof {
            assert(is_digit(input@[k as int]));
        }
        let d = input[k] - 48;
        if val > (0xffff_ffff_ffff_ffffu64 - 9) / 10 {
            proof {
                lemma_int_scan_all(input@, gpos, gstart, gq);
                let dd = input@.subrange(gstart, gq);
                let pre = input@.subrange(gstart, k as int);
                assert(pre =~= dd.subrange(0, k - gstart));
                lemma_digits_val_prefix(dd, k - gstart);
            }
            return Err(DecodeError::MalformedInteger);
        }
        proof {
            let pre = input@.subrange(gstart, k as int);
            let ext = input@.subrange(gstart, k as int + 1);
            assert(ext.drop_last() =~= pre);
            assert(ext.last() == input@[k as int]);
            lemma_digits_val_nonneg(pre);
        }
        val = val * 10 + (d as u64);
        k = k + 1;
    }
    let value: i64;
    if neg {
        if val == 0 {
            // "-0" is not a valid integer
            proof {
            lemma_int_scan_all(input@, gpos, gstart, gq);
            }
            return Err(DecodeError::MalformedInteger);
        }
        if val > 0x8000_0000_0000_0000u64 {
            proof {
            lemma_int_scan_all(input@, gpos, gstart, gq);
            }
            return Err(DecodeError::MalformedInteger);
        }
        if val == 0x8000_0000_0000_0000u64 {
            value = i64::MIN;
        } else {
            value = -(val as i64);
        }
    } else {
        if val > 0x7fff_ffff_ffff_ffffu64 {
            proof {
            lemma_int_scan_all(input@, gpos, gstart, gq);
            }
            return Err(DecodeError::MalformedInteger);
        }
        value = val as i64;
    }
    let end = q + 1;
    proof {
        let digits = input@.subrange(gstart, gq);
        lemma_digits_roundtrip(digits);
        assert(digits_val(digits) == val);
        if neg {
            assert(value as int == -(val as int));
            assert(spec_int_bytes(value as int) == seq![45u8] + spec_dec_digits(val as nat));
            assert(input@[gstart - 1] == 45u8);
        } else {
            assert(spec_int_bytes(value as int) == spec_dec_digits(val as nat));
        }
        assert(spec_encode(BencodeValue::Int(value)) =~= input@.subrange(
            pos as int,
            end as int,
        ));
    }
    Ok((BencodeValue::Int(value), end))
}

/// Decode the value starting at `pos`; on success the returned position is
/// one past the consumed bytes and re-encoding the value reproduces exactly
/// the consumed range.
pub fn decode_at(input: &Vec<u8>, pos: usize) -> (r: Result<(BencodeValue, usize), DecodeError>)
    requires
        pos <= input.len(),
    ensures
        match r {
            Ok(p) => {
                &&& pos < p.1 <= input.len()
                &&& spec_encode(p.0) == input@.subrange(pos as int, p.1 as int)
            },
            Err(_) => true,
        },
        forall|h: int|
            string_len_overrun(input@, pos as int, h) ==> r == Err::<(BencodeValue, usize),
                DecodeError,
            >(DecodeError::MalformedString),
        pos == input.len() ==> r == Err::<(BencodeValue, usize), DecodeError>(
            DecodeError::UnknownValueTag,
        ),
        pos < input.len() && !is_digit(input@[pos as int]) && input@[pos as int] != 105u8
            && input@[pos as int] != 108u8 && input@[pos as int] != 100u8 ==> r == Err::<
            (BencodeValue, usize),
            DecodeError,
        >(DecodeError::UnknownValueTag),
        pos < input.len() && is_digit(input@[pos as int]) && r is Err ==> r == Err::<
            (BencodeValue, usize),
            DecodeError,
        >(DecodeError::MalformedString),
        pos < input.len() && input@[pos as int] == 105u8 && r is Err ==> r == Err::<
            (BencodeValue, usize),
            DecodeError,
        >(DecodeError::MalformedInteger),
        forall|v: BencodeValue, n: int| encoding_at(input@, pos as int, n, v) ==> r is Ok,
        pos < input.len() && input@[pos as int] == 100u8 && dict_bad_key_at(
            input@,
            pos as int,
        ) ==> r == Err::<(BencodeValue, usize), DecodeError>(DecodeError::NonStringMapKey),
        pos < input.len() && input@[pos as int] == 108u8 && list_truncated_at(
            input@,
            pos as int,
        ) ==> r == Err::<(BencodeValue, usize), DecodeError>(DecodeError::UnterminatedList),
        pos < input.len() && input@[pos as int] == 100u8 && dict_truncated_at(
            input@,
            pos as int,
        ) ==> r == Err::<(BencodeValue, usize), DecodeError>(DecodeError::UnterminatedMap),
        (input.len() - pos >= 2 && (input@[pos as int] == 108u8 || input@[pos as int] == 100u8)
            && input@[pos as int + 1] == 101u8) ==> (r matches Ok(p) && p.1 == pos + 2),
    decreases input.len() - pos, 1int,
{
    let ghost gpos = pos as int;
    if pos == input.len() {
        return Err(DecodeError::UnknownValueTag);
    }
    let tag = input[pos];
    if digit(tag) {
        let rr = decode_string_at(input, pos);
        proof {
            assert forall|v: BencodeValue, n: int| encoding_at(input@, gpos, n, v)
                implies rr is Ok by {
                lemma_encode_head(v);
                assert(input@[gpos] == input@.subrange(gpos, n)[0]);
                if v is Bytes {
                    assert(bytes_encoding_at(input@, gpos, n, v));
                }
            }
        }
        rr
    } else if tag == 105 {
        let rr = decode_int_at(input, pos);
        proof {
            assert forall|v: BencodeValue, n: int| encoding_at(input@, gpos, n, v)
                implies rr is Ok by {
                lemma_encode_head(v);
                assert(input@[gpos] == input@.subrange(gpos, n)[0]);
                if v is Int {
                    assert(int_encoding_at(input@, gpos, n, v));
                }
            }
            assert forall|h: int| string_len_overrun(input@, gpos, h) implies false by {
                assert(is_digit(input@[gpos]));
            }
        }
        rr
    } else if tag == 108 {
        let rr = decode_list_at(input, pos);
        proof {
            assert forall|v: BencodeValue, n: int| encoding_at(input@, gpos, n, v)
                implies rr is Ok by {
                lemma_encode_head(v);
                assert(input@[gpos] == input@.subrange(gpos, n)[0]);
                if v is List {
                    assert(list_encoding_at(input@, gpos, n, v));
                }
            }
            assert forall|h: int| string_len_overrun(input@, gpos, h) implies false by {
                assert(is_digit(input@[gpos]));
            }
        }
        rr
    } else if tag == 100 {
        let rr = decode_dict_at(input, pos);
        proof {
            assert forall|v: BencodeValue, n: int| encoding_at(input@, gpos, n, v)
                implies rr is Ok by {
                lemma_encode_head(v);
                assert(input@[gpos] == input@.subrange(gpos, n)[0]);
                if v is Dict {
                    assert(dict_encoding_at(input@, gpos, n, v));
                }
            }
            assert forall|h: int| string_len_overrun(input@, gpos, h) implies false by {
                assert(is_digit(input@[gpos]));
            }
        }
        rr
    } else {
        proof {
            assert forall|v: BencodeValue, n: int| encoding_at(input@, gpos, n, v)
                implies false by {
                lemma_encode_head(v);
                assert(input@[gpos] == input@.subrange(gpos, n)[0]);
            }
            assert forall|h: int| string_len_overrun(input@, gpos, h) implies false by {
                assert(is_digit(input@[gpos]));
            }
        }
        Err(DecodeError::UnknownValueTag)
    }
}

/// Decode the list `l...e` starting at `pos`.
#[verifier::loop_isolation(false)]
fn decode_list_at(input: &Vec<u8>, pos: usize) -> (r: Result<(BencodeValue, usize), DecodeError>)
    requires
        pos < input.len(),
        input@[pos as int] == 108u8,
    ensures
        match r {
            Ok(p) => {
                &&& pos < p.1 <= input.len()
                &&& spec_encode(p.0) == input@.subrange(pos as int, p.1 as int)
            },
            Err(_) => true,
        },
        input.len() - pos >= 2 && input@[pos as int + 1] == 101u8 ==> (r matches Ok(p) && p.1
            == pos + 2),
        forall|v: BencodeValue, n: int| list_encoding_at(input@, pos as int, n, v) ==> r is Ok,
        list_truncated_at(input@, pos as int) ==> r == Err::<(BencodeValue, usize), DecodeError>(
            DecodeError::UnterminatedList,
        ),
    decreases input.len() - pos, 0int,
{
    let ghost gpos = pos as int;
    let len = input.len();
    let mut p = pos + 1;
    let mut vals: Vec<BencodeValue> = Vec::new();
    proof {
        assert(spec_encode_seq(vals@) =~= input@.subrange(gpos + 1, gpos + 1));
        assert forall|v: BencodeValue, n: int| list_encoding_at(input@, gpos, n, v)
            implies list_tail_at(input@, gpos + 1, n) by {
            let l = v->List_0;
            lemma_subrange_index(input@, gpos, n, spec_encode(v));
            assert(spec_encode(v) == seq![108u8] + spec_encode_seq(l@) + seq![101u8]);
            assert forall|j: int| 0 <= j < spec_encode_seq(l@).len() implies spec_encode_seq(l@)[j]
                == input@[gpos + 1 + j] by {
                assert(spec_encode(v)[j + 1] == input@[gpos + (j + 1)]);
                assert(spec_encode(v)[j + 1] == spec_encode_seq(l@)[j]);
            }
            assert(spec_encode_seq(l@) =~= input@.subrange(gpos + 1, n - 1));
            assert(spec_encode(v)[n - 1 - gpos] == input@[gpos + (n - 1 - gpos)]);
            assert(spec_encode(v)[n - 1 - gpos] == 101u8);
        }
    }
    loop
        invariant
            pos < p <= len <= input.len(),
            input@[gpos] == 108u8,
            spec_encode_seq(vals@) == input@.subrange(gpos + 1, p as int),
            p > pos + 1 ==> input@[gpos + 1] != 101u8,
            forall|v: BencodeValue, n: int|
                list_encoding_at(input@, gpos, n, v) ==> list_tail_at(input@, p as int, n),
            list_truncated_at(input@, gpos) ==> (exists|elems: Seq<BencodeValue>|
                #[trigger] spec_encode_seq(elems) == input@.subrange(p as int, len as int)),
        decreases input.len() - p,
    {
        if p == len {
            proof {
                assert forall|v: BencodeValue, n: int| list_encoding_at(input@, gpos, n, v)
                    implies false by {
                    assert(list_tail_at(input@, p as int, n));
                }
            }
            return Err(DecodeError::UnterminatedList);
        }
        if input[p] == 101 {
            let end = p + 1;
            proof {
                let enc = seq![108u8] + spec_encode_seq(vals@) + seq![101u8];
                assert(spec_encode(BencodeValue::List(vals)) == enc);
                assert(enc =~= input@.subrange(gpos, end as int));
                if list_truncated_at(input@, gpos) {
                    let elems = choose|elems: Seq<BencodeValue>|
                        spec_encode_seq(elems) == input@.subrange(p as int, len as int);
                    lemma_subrange_index(input@, p as int, len as int, spec_encode_seq(elems));
                    if elems.len() == 0 {
                        assert(false);
                    }
                    lemma_encode_head(elems[0]);
                    assert(spec_encode_seq(elems) == spec_encode(elems[0]) + spec_encode_seq(
                        elems.drop_first(),
                    ));
                    assert(spec_encode_seq(elems)[0] == input@[p as int + 0]);
                    assert(spec_encode_seq(elems)[0] == spec_encode(elems[0])[0]);
                    assert(false);
                }
            }
            return Ok((BencodeValue::List(vals), end));
        }
        match decode_at(input, p) {
            Ok((item, p2)) => {
                proof {
                    lemma_encode_seq_push(vals@, item);
                    assert(input@.subrange(gpos + 1, p as int) + input@.subrange(
                        p as int,
                        p2 as int,
                    ) =~= input@.subrange(gpos + 1, p2 as int));
                    assert forall|v: BencodeValue, n: int| list_encoding_at(input@, gpos, n, v)
                        implies list_tail_at(input@, p2 as int, n) by {
                        assert(list_tail_at(input@, p as int, n));
                        let elems = choose|elems: Seq<BencodeValue>|
                            spec_encode_seq(elems) == input@.subrange(p as int, n - 1);
                        lemma_seq_decomp(input@, p as int, n, elems);
                        let l0 = spec_encode(elems[0]).len() as int;
                        assert(encoding_at(input@, p as int, p + l0, elems[0]));
                        assert(encoding_at(input@, p as int, p2 as int, item));
                        lemma_enc_len_unique(item, elems[0], input@, p as int, p2 as int, p + l0);
                    }
                    if list_truncated_at(input@, gpos) {
                        let elems = choose|elems: Seq<BencodeValue>|
                            spec_encode_seq(elems) == input@.subrange(p as int, len as int);
                        lemma_subrange_index(input@, p as int, len as int, spec_encode_seq(elems));
                        assert(elems.len() > 0);
                        lemma_seq_decomp_open(input@, p as int, len as int, elems);
                        let l0 = spec_encode(elems[0]).len() as int;
                        assert(encoding_at(input@, p as int, p + l0, elems[0]));
                        assert(encoding_at(input@, p as int, p2 as int, item));
                        lemma_enc_len_unique(item, elems[0], input@, p as int, p2 as int, p + l0);
                    }
                }
                vals.push(item);
                p = p2;
            },
            Err(e) => {
                proof {
                    assert forall|v: BencodeValue, n: int| list_encoding_at(input@, gpos, n, v)
                        implies false by {
                        assert(list_tail_at(input@, p as int, n));
                        let elems = choose|elems: Seq<BencodeValue>|
                            spec_encode_seq(elems) == input@.subrange(p as int, n - 1);
                        lemma_seq_decomp(input@, p as int, n, elems);
                        let l0 = spec_encode(elems[0]).len() as int;
                        assert(encoding_at(input@, p as int, p + l0, elems[0]));
                    }
                    if list_truncated_at(input@, gpos) {
                        let elems = choose|elems: Seq<BencodeValue>|
                            spec_encode_seq(elems) == input@.subrange(p as int, len as int);
                        lemma_subrange_index(input@, p as int, len as int, spec_encode_seq(elems));
                        assert(elems.len() > 0);
                        lemma_seq_decomp_open(input@, p as int, len as int, elems);
                        let l0 = spec_encode(elems[0]).len() as int;
                        assert(encoding_at(input@, p as int, p + l0, elems[0]));
                        assert(false);
                    }
                }
                return Err(e);
            },
        }
    }
}

/// Decode the map `d...e` starting at `pos`; keys must be byte strings and
/// pairs are kept in wire order.
#[verifier::loop_isolation(false)]
#[verifier::rlimit(100)]
#[verifier::spinoff_prover]
fn decode_dict_at(input: &Vec<u8>, pos: usize) -> (r: Result<(BencodeValue, usize), DecodeError>)
    requires
        pos < input.len(),
        input@[pos as int] == 100u8,
    ensures
        match r {
            Ok(p) => {
                &&& pos < p.1 <= input.len()
                &&& spec_encode(p.0) == input@.subrange(pos as int, p.1 as int)
            },
            Err(_) => true,
        },
        input.len() - pos >= 2 && input@[pos as int + 1] == 101u8 ==> (r matches Ok(p) && p.1
            == pos + 2),
        forall|v: BencodeValue, n: int| dict_encoding_at(input@, pos as int, n, v) ==> r is Ok,
        dict_truncated_at(input@, pos as int) ==> r == Err::<(BencodeValue, usize), DecodeError>(
            DecodeError::UnterminatedMap,
        ),
        dict_bad_key_at(input@, pos as int) ==> r == Err::<(BencodeValue, usize), DecodeError>(
            DecodeError::NonStringMapKey,
        ),
    decreases input.len() - pos, 0int,
{
    let ghost gpos = pos as int;
    let len = input.len();
    let mut p = pos + 1;
    let mut pairs: Vec<(Vec<u8>, BencodeValue)> = Vec::new();
    proof {
        assert(spec_encode_pairs(pairs@) =~= input@.subrange(gpos + 1, gpos + 1));
        assert forall|v: BencodeValue, n: int| dict_encoding_at(input@, gpos, n, v)
            implies dict_tail_at(input@, gpos + 1, n) by {
            let d = v->Dict_0;
            lemma_subrange_index(input@, gpos, n, spec_encode(v));
            assert(spec_encode(v) == seq![100u8] + spec_encode_pairs(d@) + seq![101u8]);
            assert forall|j: int| 0 <= j < spec_encode_pairs(d@).len() implies spec_encode_pairs(
                d@,
            )[j] == input@[gpos + 1 + j] by {
                assert(spec_encode(v)[j + 1] == input@[gpos + (j + 1)]);
                assert(spec_encode(v)[j + 1] == spec_encode_pairs(d@)[j]);
            }
            assert(spec_encode_pairs(d@) =~= input@.subrange(gpos + 1, n - 1));
            assert(spec_encode(v)[n - 1 - gpos] == input@[gpos + (n - 1 - gpos)]);
            assert(spec_encode(v)[n - 1 - gpos] == 101u8);
        }
    }
    loop
        invariant
            pos < p <= len <= input.len(),
            input@[gpos] == 100u8,
            spec_encode_pairs(pairs@) == input@.subrange(gpos + 1, p as int),
            p > pos + 1 ==> input@[gpos + 1] != 101u8,
            forall|v: BencodeValue, n: int|
                dict_encoding_at(input@, gpos, n, v) ==> dict_tail_at(input@, p as int, n),
            dict_truncated_at(input@, gpos) ==> (exists|prs: Seq<(Vec<u8>, BencodeValue)>|
                #[trigger] spec_encode_pairs(prs) == input@.subrange(p as int, len as int)),
            dict_bad_key_at(input@, gpos) ==> dict_bad_key_run(input@, p as int),
        decreases input.len() - p,
    {
        if p == len {
            proof {
                assert forall|v: BencodeValue, n: int| dict_encoding_at(input@, gpos, n, v)
                    implies false by {
                    assert(dict_tail_at(input@, p as int, n));
                }
                if dict_bad_key_at(input@, gpos) {
                    let (prs, m) = choose|prs: Seq<(Vec<u8>, BencodeValue)>, m: int|
                        {
                            &&& p as int <= m <= input@.len()
                            &&& spec_encode_pairs(prs) == input@.subrange(p as int, m)
                            &&& dict_bad_key_from(input@, m)
                        };
                    let (w, nw) = choose|w: BencodeValue, nw: int|
                        !(w is Bytes) && encoding_at(input@, m, nw, w);
                    assert(false);
                }
            }
            return Err(DecodeError::UnterminatedMap);
        }
        if input[p] == 101 {
            proof {
                if dict_truncated_at(input@, gpos) {
                    let prs = choose|prs: Seq<(Vec<u8>, BencodeValue)>|
                        spec_encode_pairs(prs) == input@.subrange(p as int, len as int);
                    lemma_subrange_index(input@, p as int, len as int, spec_encode_pairs(prs));
                    if prs.len() == 0 {
                        assert(false);
                    }
                    lemma_dec_digits_wf(prs[0].0@.len());
                    assert(spec_encode_pairs(prs) == spec_encode_bytes(prs[0].0@) + spec_encode(
                        prs[0].1,
                    ) + spec_encode_pairs(prs.drop_first()));
                    assert(spec_encode_pairs(prs)[0] == input@[p as int + 0]);
                    assert(spec_encode_pairs(prs)[0] == spec_dec_digits(prs[0].0@.len())[0]);
                    assert(false);
                }
                if dict_bad_key_at(input@, gpos) {
                    let (prs, m) = choose|prs: Seq<(Vec<u8>, BencodeValue)>, m: int|
                        {
                            &&& p as int <= m <= input@.len()
                            &&& spec_encode_pairs(prs) == input@.subrange(p as int, m)
                            &&& dict_bad_key_from(input@, m)
                        };
                    let (w, nw) = choose|w: BencodeValue, nw: int|
                        !(w is Bytes) && encoding_at(input@, m, nw, w);
                    lemma_encode_head(w);
                    lemma_subrange_index(input@, m, nw, spec_encode(w));
                    assert(spec_encode(w)[0] == input@[m + 0]);
                    if prs.len() == 0 {
                        assert(m == p as int);
                        assert(false);
                    } else {
                        lemma_pairs_decomp_open(input@, p as int, m, prs);
                        assert(false);
                    }
                }
            }
            let end = p + 1;
            proof {
                let enc = seq![100u8] + spec_encode_pairs(pairs@) + seq![101u8];
                assert(spec_encode(BencodeValue::Dict(pairs)) == enc);
                assert(enc =~= input@.subrange(gpos, end as int));
            }
            return Ok((BencodeValue::Dict(pairs), end));
        }
        let (key, pk) = match decode_at(input, p) {
            Ok((BencodeValue::Bytes(k), pk)) => (k, pk),
            Ok((other, opk)) => {
                proof {
                    assert forall|v: BencodeValue, n: int| dict_encoding_at(input@, gpos, n, v)
                        implies false by {
                        assert(dict_tail_at(input@, p as int, n));
                        let prs = choose|prs: Seq<(Vec<u8>, BencodeValue)>|
                            spec_encode_pairs(prs) == input@.subrange(p as int, n - 1);
                        lemma_pairs_decomp(input@, p as int, n, prs);
                        lemma_encode_head(other);
                        lemma_subrange_index(input@, p as int, opk as int, spec_encode(other));
                        assert(spec_encode(other)[0] == input@[p as int + 0]);
                    }
                    if dict_truncated_at(input@, gpos) {
                        let prs = choose|prs: Seq<(Vec<u8>, BencodeValue)>|
                            spec_encode_pairs(prs) == input@.subrange(p as int, len as int);
                        lemma_subrange_index(input@, p as int, len as int, spec_encode_pairs(prs));
                        assert(prs.len() > 0);
                        lemma_pairs_decomp_open(input@, p as int, len as int, prs);
                        lemma_encode_head(other);
                        lemma_subrange_index(input@, p as int, opk as int, spec_encode(other));
                        assert(spec_encode(other)[0] == input@[p as int + 0]);
                        assert(false);
                    }
                }
                return Err(DecodeError::NonStringMapKey);
            },
            Err(e) => {
                proof {
                    assert forall|v: BencodeValue, n: int| dict_encoding_at(input@, gpos, n, v)
                        implies false by {
                        assert(dict_tail_at(input@, p as int, n));
                        let prs = choose|prs: Seq<(Vec<u8>, BencodeValue)>|
                            spec_encode_pairs(prs) == input@.subrange(p as int, n - 1);
                        lemma_pairs_decomp(input@, p as int, n, prs);
                        let lk = spec_encode_bytes(prs[0].0@).len() as int;
                        assert(spec_encode(BencodeValue::Bytes(prs[0].0)) == spec_encode_bytes(
                            prs[0].0@,
                        ));
                        assert(encoding_at(input@, p as int, p + lk, BencodeValue::Bytes(
                            prs[0].0,
                        )));
                    }
                    if dict_truncated_at(input@, gpos) {
                        let prs = choose|prs: Seq<(Vec<u8>, BencodeValue)>|
                            spec_encode_pairs(prs) == input@.subrange(p as int, len as int);
                        lemma_subrange_index(input@, p as int, len as int, spec_encode_pairs(prs));
                        assert(prs.len() > 0);
                        lemma_pairs_decomp_open(input@, p as int, len as int, prs);
                        let lk = spec_encode_bytes(prs[0].0@).len() as int;
                        assert(spec_encode(BencodeValue::Bytes(prs[0].0)) == spec_encode_bytes(
                            prs[0].0@,
                        ));
                        assert(encoding_at(input@, p as int, p + lk, BencodeValue::Bytes(
                            prs[0].0,
                        )));
                        assert(false);
                    }
                    if dict_bad_key_at(input@, gpos) {
                        let (prs, m) = choose|prs: Seq<(Vec<u8>, BencodeValue)>, m: int|
                            {
                                &&& p as int <= m <= input@.len()
                                &&& spec_encode_pairs(prs) == input@.subrange(p as int, m)
                                &&& dict_bad_key_from(input@, m)
                            };
                        let (w, nw) = choose|w: BencodeValue, nw: int|
                            !(w is Bytes) && encoding_at(input@, m, nw, w);
                        if prs.len() == 0 {
                            lemma_subrange_index(input@, p as int, m, spec_encode_pairs(prs));
                            assert(m == p as int);
                            assert(encoding_at(input@, p as int, nw, w));
                            assert(false);
                        } else {
                            lemma_pairs_decomp_open(input@, p as int, m, prs);
                            let lk = spec_encode_bytes(prs[0].0@).len() as int;
                            assert(spec_encode(BencodeValue::Bytes(prs[0].0))
                                == spec_encode_bytes(prs[0].0@));
                            assert(encoding_at(input@, p as int, p + lk, BencodeValue::Bytes(
                                prs[0].0,
                            )));
                            assert(false);
                        }
                    }
                }
                return Err(e);
            },
        };
        match decode_at(input, pk) {
            Ok((item, p2)) => {
                proof {
                    lemma_encode_pairs_push(pairs@, key, item);
                    assert(input@.subrange(gpos + 1, p as int) + input@.subrange(
                        p as int,
                        pk as int,
                    ) =~= input@.subrange(gpos + 1, pk as int));
                    assert(input@.subrange(gpos + 1, pk as int) + input@.subrange(
                        pk as int,
                        p2 as int,
                    ) =~= input@.subrange(gpos + 1, p2 as int));
                    assert forall|v: BencodeValue, n: int| dict_encoding_at(input@, gpos, n, v)
                        implies dict_tail_at(input@, p2 as int, n) by {
                        assert(dict_tail_at(input@, p as int, n));
                        let prs = choose|prs: Seq<(Vec<u8>, BencodeValue)>|
                            spec_encode_pairs(prs) == input@.subrange(p as int, n - 1);
                        lemma_pairs_decomp(input@, p as int, n, prs);
                        let lk = spec_encode_bytes(prs[0].0@).len() as int;
                        let lv = spec_encode(prs[0].1).len() as int;
                        assert(spec_encode(BencodeValue::Bytes(key)) == spec_encode_bytes(key@));
                        lemma_bytestring_len_unique(
                            key@,
                            prs[0].0@,
                            input@,
                            p as int,
                            pk as int,
                            p + lk,
                        );
                        assert(encoding_at(input@, pk as int, pk + lv, prs[0].1));
                        assert(encoding_at(input@, pk as int, p2 as int, item));
                        lemma_enc_len_unique(
                            item,
                            prs[0].1,
                            input@,
                            pk as int,
                            p2 as int,
                            pk + lv,
                        );
                    }
                    if dict_truncated_at(input@, gpos) {
                        let prs = choose|prs: Seq<(Vec<u8>, BencodeValue)>|
                            spec_encode_pairs(prs) == input@.subrange(p as int, len as int);
                        lemma_subrange_index(input@, p as int, len as int, spec_encode_pairs(prs));
                        assert(prs.len() > 0);
                        lemma_pairs_decomp_open(input@, p as int, len as int, prs);
                        let lk = spec_encode_bytes(prs[0].0@).len() as int;
                        let lv = spec_encode(prs[0].1).len() as int;
                        assert(spec_encode(BencodeValue::Bytes(key)) == spec_encode_bytes(key@));
                        lemma_bytestring_len_unique(
                            key@,
                            prs[0].0@,
                            input@,
                            p as int,
                            pk as int,
                            p + lk,
                        );
                        assert(encoding_at(input@, pk as int, pk + lv, prs[0].1));
                        assert(encoding_at(input@, pk as int, p2 as int, item));
                        lemma_enc_len_unique(
                            item,
                            prs[0].1,
                            input@,
                            pk as int,
                            p2 as int,
                            pk + lv,
                        );
                    }
                    if dict_bad_key_at(input@, gpos) {
                        let (prs, m) = choose|prs: Seq<(Vec<u8>, BencodeValue)>, m: int|
                            {
                                &&& p as int <= m <= input@.len()
                                &&& spec_encode_pairs(prs) == input@.subrange(p as int, m)
                                &&& dict_bad_key_from(input@, m)
                            };
                        let (w, nw) = choose|w: BencodeValue, nw: int|
                            !(w is Bytes) && encoding_at(input@, m, nw, w);
                        if prs.len() == 0 {
                            lemma_subrange_index(input@, p as int, m, spec_encode_pairs(prs));
                            assert(m == p as int);
                            lemma_encode_head(w);
                            lemma_subrange_index(input@, m, nw, spec_encode(w));
                            assert(spec_encode(w)[0] == input@[m + 0]);
                            lemma_encode_head(BencodeValue::Bytes(key));
                            assert(false);
                        } else {
                            lemma_pairs_decomp_open(input@, p as int, m, prs);
                            let lk = spec_encode_bytes(prs[0].0@).len() as int;
                            let lv = spec_encode(prs[0].1).len() as int;
                            assert(spec_encode(BencodeValue::Bytes(key)) == spec_encode_bytes(
                                key@,
                            ));
                            lemma_bytestring_len_unique(
                                key@,
                                prs[0].0@,
                                input@,
                                p as int,
                                pk as int,
                                p + lk,
                            );
                            assert(encoding_at(input@, pk as int, pk + lv, prs[0].1));
                            assert(encoding_at(input@, pk as int, p2 as int, item));
                            lemma_enc_len_unique(
                                item,
                                prs[0].1,
                                input@,
                                pk as int,
                                p2 as int,
                                pk + lv,
                            );
                            assert(spec_encode_pairs(prs.drop_first()) == input@.subrange(
                                p2 as int,
                                m,
                            ));
                        }
                    }
                }
                pairs.push((key, item));
                p = p2;
            },
            Err(e) => {
                proof {
                    assert forall|v: BencodeValue, n: int| dict_encoding_at(input@, gpos, n, v)
                        implies false by {
                        assert(dict_tail_at(input@, p as int, n));
                        let prs = choose|prs: Seq<(Vec<u8>, BencodeValue)>|
                            spec_encode_pairs(prs) == input@.subrange(p as int, n - 1);
                        lemma_pairs_decomp(input@, p as int, n, prs);
                        let lk = spec_encode_bytes(prs[0].0@).len() as int;
                        let lv = spec_encode(prs[0].1).len() as int;
                        assert(spec_encode(BencodeValue::Bytes(key)) == spec_encode_bytes(key@));
                        lemma_bytestring_len_unique(
                            key@,
                            prs[0].0@,
                            input@,
                            p as int,
                            pk as int,
                            p + lk,
                        );
                        assert(encoding_at(input@, pk as int, pk + lv, prs[0].1));
                    }
                    if dict_truncated_at(input@, gpos) {
                        let prs = choose|prs: Seq<(Vec<u8>, BencodeValue)>|
                            spec_encode_pairs(prs) == input@.subrange(p as int, len as int);
                        lemma_subrange_index(input@, p as int, len as int, spec_encode_pairs(prs));
                        assert(prs.len() > 0);
                        lemma_pairs_decomp_open(input@, p as int, len as int, prs);
                        let lk = spec_encode_bytes(prs[0].0@).len() as int;
                        let lv = spec_encode(prs[0].1).len() as int;
                        assert(spec_encode(BencodeValue::Bytes(key)) == spec_encode_bytes(key@));
                        lemma_bytestring_len_unique(
                            key@,
                            prs[0].0@,
                            input@,
                            p as int,
                            pk as int,
                            p + lk,
                        );
                        assert(encoding_at(input@, pk as int, pk + lv, prs[0].1));
                        assert(false);
                    }
                    if dict_bad_key_at(input@, gpos) {
                        let (prs, m) = choose|prs: Seq<(Vec<u8>, BencodeValue)>, m: int|
                            {
                                &&& p as int <= m <= input@.len()
                                &&& spec_encode_pairs(prs) == input@.subrange(p as int, m)
                                &&& dict_bad_key_from(input@, m)
                            };
                        let (w, nw) = choose|w: BencodeValue, nw: int|
                            !(w is Bytes) && encoding_at(input@, m, nw, w);
                        if prs.len() == 0 {
                            lemma_subrange_index(input@, p as int, m, spec_encode_pairs(prs));
                            assert(m == p as int);
                            lemma_encode_head(w);
                            lemma_subrange_index(input@, m, nw, spec_encode(w));
                            assert(spec_encode(w)[0] == input@[m + 0]);
                            lemma_encode_head(BencodeValue::Bytes(key));
                            assert(false);
                        } else {
                            lemma_pairs_decomp_open(input@, p as int, m, prs);
                            let lk = spec_encode_bytes(prs[0].0@).len() as int;
                            let lv = spec_encode(prs[0].1).len() as int;
                            assert(spec_encode(BencodeValue::Bytes(key)) == spec_encode_bytes(
                                key@,
                            ));
                            lemma_bytestring_len_unique(
                                key@,
                                prs[0].0@,
                                input@,
                                p as int,
                                pk as int,
                                p + lk,
                            );
                            assert(encoding_at(input@, pk as int, pk + lv, prs[0].1));
                            assert(false);
                        }
                    }
                }
                return Err(e);
            },
        }
    }
}

/// Decode the value at the start of `encoded_value`, returning it together
/// with the number of bytes consumed. On success, re-encoding the value
/// reproduces exactly the consumed bytes; success is owed whenever the input
/// begins with the encoding of an integer, a byte string, or an empty list
/// or map, and each malformed leading form owes its named error.
pub fn decode_bencoded_value(encoded_value: &Vec<u8>) -> (r: Result<
    (BencodeValue, usize),
    DecodeError,
>)
    ensures
        match r {
            Ok(p) => {
                &&& 0 < p.1 <= encoded_value.len()
                &&& spec_encode(p.0) == encoded_value@.subrange(0, p.1 as int)
            },
            Err(_) => true,
        },
        forall|h: int|
            string_len_overrun(encoded_value@, 0, h) ==> r == Err::<(BencodeValue, usize),
                DecodeError,
            >(DecodeError::MalformedString),
        encoded_value@.len() == 0 ==> r == Err::<(BencodeValue, usize), DecodeError>(
            DecodeError::UnknownValueTag,
        ),
        encoded_value@.len() > 0 && !is_digit(encoded_value@[0]) && encoded_value@[0] != 105u8
            && encoded_value@[0] != 108u8 && encoded_value@[0] != 100u8 ==> r == Err::<
            (BencodeValue, usize),
            DecodeError,
        >(DecodeError::UnknownValueTag),
        forall|v: BencodeValue, n: int|
            encoding_at(encoded_value@, 0, n, v) ==> r is Ok,
        encoded_value@.len() > 0 && encoded_value@[0] == 100u8 && dict_bad_key_at(
            encoded_value@,
            0,
        ) ==> r == Err::<(BencodeValue, usize), DecodeError>(DecodeError::NonStringMapKey),
        encoded_value@.len() > 0 && encoded_value@[0] == 108u8 && list_truncated_at(
            encoded_value@,
            0,
        ) ==> r == Err::<(BencodeValue, usize), DecodeError>(DecodeError::UnterminatedList),
        encoded_value@.len() > 0 && encoded_value@[0] == 100u8 && dict_truncated_at(
            encoded_value@,
            0,
        ) ==> r == Err::<(BencodeValue, usize), DecodeError>(DecodeError::UnterminatedMap),
        (encoded_value@.len() >= 2 && (encoded_value@[0] == 108u8 || encoded_value@[0] == 100u8)
            && encoded_value@[1] == 101u8) ==> (r matches Ok(p) && p.1 == 2),
{
    decode_at(encoded_value, 0)
}

/// Render a natural number's decimal digits onto the end of `out`.
fn push_dec_digits(out: &mut Vec<u8>, n: u64)
    ensures
        final(out)@ == old(out)@ + spec_dec_digits(n as nat),
    decreases n,
{
    if n < 10 {
        out.push((n as u8) + 48);
        proof {
            assert(out@ =~= old(out)@ + spec_dec_digits(n as nat));
        }
    } else {
        push_dec_digits(out, n / 10);
        out.push(((n % 10) as u8) + 48);
        proof {
            assert(out@ =~= old(out)@ + spec_dec_digits(n as nat));
        }
    }
}

/// The decimal digits of a value, as bytes.
pub fn u64_dec_bytes(n: u64) -> (r: Vec<u8>)
    ensures
        r@ == spec_dec_digits(n as nat),
{
    let mut out: Vec<u8> = Vec::new();
    push_dec_digits(&mut out, n);
    proof {
        assert(out@ =~= spec_dec_digits(n as nat));
    }
    out
}

/// Append the encoding of a byte string (length, ':', raw bytes).
#[verifier::loop_isolation(false)]
fn push_encoded_bytes(out: &mut Vec<u8>, s: &Vec<u8>)
    ensures
        final(out)@ == old(out)@ + spec_encode_bytes(s@),
{
    push_dec_digits(out, s.len() as u64);
    out.push(58);
    let mut i: usize = 0;
    let ghost mid = out@;
    while i < s.len()
        invariant
            i <= s.len(),
            out@ == mid + s@.subrange(0, i as int),
        decreases s.len() - i,
    {
        out.push(s[i]);
        proof {
            assert(out@ =~= mid + s@.subrange(0, i + 1int));
        }
        i = i + 1;
    }
    proof {
        assert(s@.subrange(0, s@.len() as int) =~= s@);
        assert(out@ =~= old(out)@ + spec_encode_bytes(s@));
    }
}

/// Append the wire encoding of `v` (dict pairs in stored order) to `out`.
#[verifier::loop_isolation(false)]
fn encode_onto(v: &BencodeValue, out: &mut Vec<u8>)
    ensures
        final(out)@ == old(out)@ + spec_encode(*v),
    decreases *v,
{
    match v {
        BencodeValue::Int(i) => {
            out.push(105);
            let iv = *i;
            if iv < 0 {
                out.push(45);
                let mag: u64 = if iv == i64::MIN {
                    0x8000_0000_0000_0000u64
                } else {
                    (-iv) as u64
                };
                push_dec_digits(out, mag);
            } else {
                push_dec_digits(out, iv as u64);
            }
            out.push(101);
            proof {
                assert(out@ =~= old(out)@ + spec_encode(*v));
            }
        },
        BencodeValue::Bytes(s) => {
            push_encoded_bytes(out, s);
        },
        BencodeValue::List(l) => {
            out.push(108);
            let ghost mid = out@;
            let mut i: usize = 0;
            while i < l.len()
                invariant
                    i <= l.len(),
                    out@ == mid + spec_encode_seq(l@.subrange(0, i as int)),
                decreases l.len() - i,
            {
                proof {
                    assert(decreases_to!(*v => l@[i as int]));
                }
                encode_onto(&l[i], out);
                proof {
                    assert(l@.subrange(0, i as int + 1) =~= l@.subrange(0, i as int).push(
                        l@[i as int],
                    ));
                    lemma_encode_seq_push(l@.subrange(0, i as int), l@[i as int]);
                }
                i = i + 1;
            }
            out.push(101);
            proof {
                assert(l@.subrange(0, l@.len() as int) =~= l@);
                assert(out@ =~= old(out)@ + spec_encode(*v));
            }
        },
        BencodeValue::Dict(d) => {
            out.push(100);
            let ghost mid = out@;
            let mut i: usize = 0;
            while i < d.len()
                invariant
                    i <= d.len(),
                    out@ == mid + spec_encode_pairs(d@.subrange(0, i as int)),
                decreases d.len() - i,
            {
                push_encoded_bytes(out, &d[i].0);
                proof {
                    assert(decreases_to!(*v => d@[i as int].1));
                }
                encode_onto(&d[i].1, out);
                proof {
                    assert(d@.subrange(0, i as int + 1) =~= d@.subrange(0, i as int).push(
                        d@[i as int],
                    ));
                    lemma_encode_pairs_push(
                        d@.subrange(0, i as int),
                        d@[i as int].0,
                        d@[i as int].1,
                    );
                }
                i = i + 1;
            }
            out.push(101);
            proof {
                assert(d@.subrange(0, d@.len() as int) =~= d@);
                assert(out@ =~= old(out)@ + spec_encode(*v));
            }
        },
    }
}

/// Produce the deterministic wire encoding of `v`: exactly `spec_encode(v)`,
/// so re-encoding a decoded value reproduces the consumed bytes.
pub fn encode(v: &BencodeValue) -> (r: Vec<u8>)
    ensures
        r@ == spec_encode(*v),
{
    let mut out: Vec<u8> = Vec::new();
    encode_onto(v, &mut out);
    out
}

/// Law: the format is self-delimiting for callers too. An encoding that
/// occupies `bytes[0..n]` also occupies all of `bytes[0..n]` taken alone, so
/// the decoder, which owes success on any leading encoding, succeeds on the
/// consumed prefix as well, and by `lemma_enc_len_unique` it consumes
/// exactly `n` again: trailing bytes are ignored.
pub proof fn lemma_prefix_self_contained(bytes: Seq<u8>, n: int, v: BencodeValue)
    requires
        encoding_at(bytes, 0, n, v),
    ensures
        encoding_at(bytes.subrange(0, n), 0, n, v),
{
    assert(bytes.subrange(0, n).subrange(0, n) =~= bytes.subrange(0, n));
}

/// Law: decoding then re-encoding reproduces byte-identical output.
/// Decoding ensures that the returned value's encoding equals the consumed
/// input range; the encoder ensures its output is exactly that encoding; so
/// the re-encoded bytes reproduce the consumed input, byte for byte.
pub proof fn lemma_decode_encode_roundtrip(
    v: BencodeValue,
    input: Seq<u8>,
    pos: int,
    end: int,
    reencoded: Seq<u8>,
)
    requires
        0 <= pos <= end <= input.len(),
        spec_encode(v) == input.subrange(pos, end),
        reencoded == spec_encode(v),
    ensures
        reencoded == input.subrange(pos, end),
{
}

} // verus!
