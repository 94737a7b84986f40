//! The encoded polyline text format: each coordinate is a pair of
//! zig-zag, base-32 varints (latitude, then longitude) holding the change from
//! the previous coordinate, one printable ASCII character per five-bit chunk.
use crate::models::GeographicCoordinate;
use vstd::prelude::*;
use vstd::utf8::is_ascii_chars;

verus! {

/// The most chunks a single varint may use: twelve chunks carry sixty bits.
pub const MAX_CHUNKS: u64 = 12;

/// Why an encoded polyline could not be decoded.
#[derive(Clone, Copy, Debug, PartialEq, Eq, Structural)]
pub enum CodecError {
    /// A character outside `'?'..='~'`, a varint cut off by the end of the text or
    /// longer than twelve chunks, a latitude without its longitude, or a running
    /// total that leaves the `i64` range.
    Malformed,
}

impl CodecError {
    /// A human-readable description of the error.
    pub fn message(&self) -> (r: String)
        ensures
            r@ == "malformed encoded polyline"@,
    {
        String::from_str("malformed encoded polyline")
    }
}

pub open spec fn pow32(n: nat) -> int
    decreases n,
{
    if n == 0 {
        1
    } else {
        32 * pow32((n - 1) as nat)
    }
}

/// A character that may stand in an encoded polyline.
pub open spec fn is_symbol(c: char) -> bool {
    63 <= c as int <= 126
}

/// The six bits that a symbol carries: a continuation flag (32) and five value bits.
pub open spec fn chunk_of(c: char) -> int {
    c as int - 63
}

/// The varint that starts at `i`, given that `count` chunks precede it: its value
/// and the position just after it, or `None` where it is malformed.
pub open spec fn varint_at(s: Seq<char>, i: int, count: nat) -> Option<(int, int)>
    decreases MAX_CHUNKS - count,
{
    if count >= MAX_CHUNKS || i < 0 || i >= s.len() || !is_symbol(s[i]) {
        None
    } else if chunk_of(s[i]) < 32 {
        Some((chunk_of(s[i]), i + 1))
    } else {
        match varint_at(s, i + 1, count + 1) {
            Some((v, next)) => Some((chunk_of(s[i]) - 32 + 32 * v, next)),
            None => None,
        }
    }
}

/// The signed change that a zig-zag encoded value stands for.
pub open spec fn unzigzag(v: int) -> int {
    if v % 2 == 1 {
        -(v / 2) - 1
    } else {
        v / 2
    }
}

pub open spec fn fits_i64(v: int) -> bool {
    i64::MIN <= v <= i64::MAX
}

/// The coordinates encoded from position `i` on, relative to the running totals
/// `lat` and `lng`, or `None` where the text is malformed.
pub open spec fn decode_from(s: Seq<char>, i: int, lat: int, lng: int, precision: u32) -> Option<
    Seq<GeographicCoordinate>,
>
    decreases s.len() - i,
    via decode_from_decreases
{
    if i < 0 || i >= s.len() {
        Some(Seq::empty())
    } else {
        match varint_at(s, i, 0) {
            None => None,
            Some((a, j)) => match varint_at(s, j, 0) {
                None => None,
                Some((b, k)) => {
                    let nlat = lat + unzigzag(a);
                    let nlng = lng + unzigzag(b);
                    if !fits_i64(nlat) || !fits_i64(nlng) {
                        None
                    } else {
                        match decode_from(s, k, nlat, nlng, precision) {
                            None => None,
                            Some(rest) => Some(
                                seq![
                                    GeographicCoordinate {
                                        lat: nlat as i64,
                                        lng: nlng as i64,
                                        precision,
                                    },
                                ] + rest,
                            ),
                        }
                    }
                },
            },
        }
    }
}

#[via_fn]
proof fn decode_from_decreases(s: Seq<char>, i: int, lat: int, lng: int, precision: u32) {
    if 0 <= i < s.len() {
        if let Some((a, j)) = varint_at(s, i, 0) {
            lemma_varint_bounds(s, i, 0);
            if let Some((b, k)) = varint_at(s, j, 0) {
                lemma_varint_bounds(s, j, 0);
            }
        }
    }
}

/// The coordinates that `s` encodes at `precision`, or `None` where it is malformed.
pub open spec fn decoded(s: Seq<char>, precision: u32) -> Option<Seq<GeographicCoordinate>> {
    decode_from(s, 0, 0, 0, precision)
}

/// A varint ends after its start, within the text, and holds fewer bits than its
/// chunks can carry.
pub proof fn lemma_varint_bounds(s: Seq<char>, i: int, count: nat)
    requires
        varint_at(s, i, count) is Some,
    ensures
        i < varint_at(s, i, count)->Some_0.1 <= s.len(),
        0 <= varint_at(s, i, count)->Some_0.0 < pow32((MAX_CHUNKS - count) as nat),
        count <= MAX_CHUNKS,
    decreases MAX_CHUNKS - count,
{
    reveal_with_fuel(pow32, 2);
    if chunk_of(s[i]) >= 32 {
        lemma_varint_bounds(s, i + 1, count + 1);
        let v = varint_at(s, i + 1, count + 1)->Some_0.0;
        let p = pow32((MAX_CHUNKS - count - 1) as nat);
        assert(pow32((MAX_CHUNKS - count) as nat) == 32 * p);
        assert(chunk_of(s[i]) - 32 + 32 * v < 32 * p) by (nonlinear_arith)
            requires
                0 <= chunk_of(s[i]) - 32 < 32,
                0 <= v < p,
        ;
    } else {
        assert(pow32((MAX_CHUNKS - count) as nat) >= 32) by {
            lemma_pow32_grows((MAX_CHUNKS - count) as nat);
        }
    }
}

proof fn lemma_pow32_grows(n: nat)
    requires
        n >= 1,
    ensures
        pow32(n) >= 32,
    decreases n,
{
    lemma_pow32_pos((n - 1) as nat);
    assert(pow32(n) == 32 * pow32((n - 1) as nat));
}

/// `bytes` holds the characters of `s`, each of them ASCII.
pub open spec fn bytes_match(bytes: Seq<u8>, s: Seq<char>) -> bool {
    &&& bytes.len() == s.len()
    &&& forall|k: int| 0 <= k < s.len() ==> bytes[k] as int == s[k] as int
}

fn read_varint(bytes: &[u8], start: usize, Ghost(s): Ghost<Seq<char>>) -> (r: Option<(u64, usize)>)
    requires
        bytes_match(bytes@, s),
    ensures
        match varint_at(s, start as int, 0) {
            Some((v, next)) => r == Some((v as u64, next as usize)),
            None => r is None,
        },
{
    let mut i: usize = start;
    let mut count: u64 = 0;
    let mut acc: u64 = 0;
    let mut mult: u64 = 1;
    loop
        invariant
            bytes_match(bytes@, s),
            count <= MAX_CHUNKS,
            i == start + count,
            mult == pow32(count as nat),
            acc < mult,
            varint_at(s, start as int, 0) == match varint_at(s, i as int, count as nat) {
                Some((v, next)) => Some((acc + mult * v, next)),
                None => None,
            },
        decreases MAX_CHUNKS - count,
    {
        if count >= MAX_CHUNKS || i >= bytes.len() {
            return None;
        }
        let b = bytes[i];
        if b < 63 || b > 126 {
            return None;
        }
        let d = (b - 63) as u64;
        proof {
            lemma_pow32_le(count as nat);
        }
        if d < 32 {
            assert(acc + mult * d < pow32(12)) by (nonlinear_arith)
                requires
                    acc < mult,
                    d < 32,
                    mult <= pow32(11),
                    pow32(12) == 32 * pow32(11),
            ;
            proof {
                lemma_varint_bounds(s, start as int, 0);
            }
            return Some((acc + mult * d, i + 1));
        }
        assert(acc + mult * (d - 32) < mult * 32) by (nonlinear_arith)
            requires
                acc < mult,
                d - 32 < 32,
        ;
        assert(mult * 32 <= pow32(12)) by (nonlinear_arith)
            requires
                mult <= pow32(11),
                pow32(12) == 32 * pow32(11),
        ;
        let ghost old_acc = acc;
        let ghost old_mult = mult;
        acc = acc + mult * (d - 32);
        mult = mult * 32;
        proof {
            assert(old_acc + old_mult * (d - 32) < old_mult * 32) by (nonlinear_arith)
                requires
                    old_acc < old_mult,
                    d - 32 < 32,
            ;
            if let Some((v, next)) = varint_at(s, i + 1, (count + 1) as nat) {
                lemma_shift_chunk(old_acc as int, old_mult as int, d - 32, v);
            }
        }
        i = i + 1;
        count = count + 1;
    }
}

proof fn lemma_shift_chunk(acc: int, mult: int, low: int, v: int)
    ensures
        acc + mult * (low + 32 * v) == (acc + mult * low) + (mult * 32) * v,
{
    assert(acc + mult * (low + 32 * v) == (acc + mult * low) + (mult * 32) * v) by (nonlinear_arith);
}

proof fn lemma_pow32_le(n: nat)
    requires
        n <= MAX_CHUNKS,
    ensures
        pow32(n) <= pow32(11) || n == MAX_CHUNKS,
        pow32(12) == 32 * pow32(11),
        pow32(11) == 0x80000000000000,
{
    reveal_with_fuel(pow32, 13);
    if n < MAX_CHUNKS {
        lemma_pow32_mono(n, 11);
    }
}

proof fn lemma_pow32_mono(a: nat, b: nat)
    requires
        a <= b,
    ensures
        pow32(a) <= pow32(b),
    decreases b,
{
    if a < b {
        lemma_pow32_mono(a, (b - 1) as nat);
        assert(pow32((b - 1) as nat) >= 0) by {
            lemma_pow32_pos((b - 1) as nat);
        }
    }
}

proof fn lemma_pow32_pos(n: nat)
    ensures
        pow32(n) >= 1,
    decreases n,
{
    if n > 0 {
        lemma_pow32_pos((n - 1) as nat);
    }
}

fn unzigzag_exec(v: u64) -> (r: i64)
    requires
        v < pow32(12),
    ensures
        r as int == unzigzag(v as int),
{
    proof {
        reveal_with_fuel(pow32, 13);
    }
    if v % 2 == 1 {
        -((v / 2) as i64) - 1
    } else {
        (v / 2) as i64
    }
}

/// Decodes an encoded polyline into its coordinates at `precision`: each coordinate
/// holds the running totals of the decoded changes, to be read as multiples of
/// `10^-precision` degrees.
pub fn decode_polyline(encoded: &str, precision: u32) -> (r: Result<
    Vec<GeographicCoordinate>,
    CodecError,
>)
    ensures
        match decoded(encoded@, precision) {
            Some(points) => r is Ok && r->Ok_0@ == points,
            None => r is Err,
        },
{
    let ghost s = encoded@;
    if !encoded.is_ascii() {
        proof {
            if decoded(s, precision) is Some {
                lemma_decoded_symbols(s, 0, 0, 0, precision);
                assert(is_ascii_chars(s));
            }
        }
        return Err(CodecError::Malformed);
    }
    let bytes = encoded.as_bytes();
    proof {
        broadcast use vstd::string::is_ascii_spec_bytes;

        assert(bytes_match(bytes@, s));
    }
    let mut out: Vec<GeographicCoordinate> = Vec::new();
    let mut i: usize = 0;
    let mut lat: i64 = 0;
    let mut lng: i64 = 0;
    while i < bytes.len()
        invariant
            s == encoded@,
            bytes_match(bytes@, s),
            i <= s.len(),
            decoded(s, precision) == match decode_from(s, i as int, lat as int, lng as int, precision) {
                Some(rest) => Some(out@ + rest),
                None => None,
            },
        decreases s.len() - i,
    {
        proof {
            reveal_with_fuel(decode_from, 1);
        }
        let first = read_varint(bytes, i, Ghost(s));
        let (a, j) = match first {
            Some(p) => p,
            None => {
                return Err(CodecError::Malformed);
            },
        };
        proof {
            lemma_varint_bounds(s, i as int, 0);
            lemma_pow32_le(0);
            assert(varint_at(s, i as int, 0) == Some((a as int, j as int)));
        }
        let second = read_varint(bytes, j, Ghost(s));
        let (b, k) = match second {
            Some(p) => p,
            None => {
                return Err(CodecError::Malformed);
            },
        };
        proof {
            lemma_varint_bounds(s, j as int, 0);
            assert(varint_at(s, j as int, 0) == Some((b as int, k as int)));
        }
        let da = unzigzag_exec(a);
        let db = unzigzag_exec(b);
        let nlat = lat as i128 + da as i128;
        let nlng = lng as i128 + db as i128;
        if nlat < i64::MIN as i128 || nlat > i64::MAX as i128 || nlng < i64::MIN as i128 || nlng
            > i64::MAX as i128 {
            return Err(CodecError::Malformed);
        }
        lat = nlat as i64;
        lng = nlng as i64;
        let ghost before = out@;
        out.push(GeographicCoordinate { lat, lng, precision });
        proof {
            let c = GeographicCoordinate { lat, lng, precision };
            assert(out@ == before + seq![c]);
            if let Some(rest) = decode_from(s, k as int, lat as int, lng as int, precision) {
                assert(before + (seq![c] + rest) == out@ + rest);
            }
        }
        i = k;
    }
    proof {
        assert(out@ + Seq::empty() == out@);
    }
    Ok(out)
}

/// Where decoding from `i` succeeds, every character from `i` on is a symbol.
proof fn lemma_decoded_symbols(s: Seq<char>, i: int, lat: int, lng: int, precision: u32)
    requires
        0 <= i,
        decode_from(s, i, lat, lng, precision) is Some,
    ensures
        forall|k: int| i <= k < s.len() ==> is_symbol(#[trigger] s[k]),
    decreases s.len() - i,
{
    if i < s.len() {
        let (a, j) = varint_at(s, i, 0)->Some_0;
        let (b, k) = varint_at(s, j, 0)->Some_0;
        lemma_varint_symbols(s, i, 0);
        lemma_varint_symbols(s, j, 0);
        lemma_varint_bounds(s, i, 0);
        lemma_varint_bounds(s, j, 0);
        lemma_decoded_symbols(s, k, lat + unzigzag(a), lng + unzigzag(b), precision);
    }
}

proof fn lemma_varint_symbols(s: Seq<char>, i: int, count: nat)
    requires
        varint_at(s, i, count) is Some,
    ensures
        forall|k: int| i <= k < varint_at(s, i, count)->Some_0.1 ==> is_symbol(#[trigger] s[k]),
    decreases MAX_CHUNKS - count,
{
    if chunk_of(s[i]) >= 32 {
        lemma_varint_symbols(s, i + 1, count + 1);
    }
}

proof fn lemma_varint_ends_clean(s: Seq<char>, i: int, count: nat)
    requires
        varint_at(s, i, count) is Some,
    ensures
        chunk_of(s[varint_at(s, i, count)->Some_0.1 - 1]) < 32,
    decreases MAX_CHUNKS - count,
{
    if chunk_of(s[i]) >= 32 {
        lemma_varint_ends_clean(s, i + 1, count + 1);
    }
}

proof fn lemma_decode_from_ends_clean(s: Seq<char>, i: int, lat: int, lng: int, precision: u32)
    requires
        0 <= i < s.len(),
        decode_from(s, i, lat, lng, precision) is Some,
    ensures
        chunk_of(s.last()) < 32,
    decreases s.len() - i,
{
    let (a, j) = varint_at(s, i, 0)->Some_0;
    let (b, k) = varint_at(s, j, 0)->Some_0;
    lemma_varint_bounds(s, i, 0);
    lemma_varint_bounds(s, j, 0);
    if k < s.len() {
        lemma_decode_from_ends_clean(s, k, lat + unzigzag(a), lng + unzigzag(b), precision);
    } else {
        lemma_varint_ends_clean(s, j, 0);
    }
}

/// Truncated text is malformed: text whose last character still announces a
/// following chunk does not decode.
pub proof fn lemma_truncated_is_malformed(s: Seq<char>, precision: u32)
    requires
        s.len() > 0,
        chunk_of(s.last()) >= 32,
    ensures
        decoded(s, precision) is None,
{
    if decoded(s, precision) is Some {
        lemma_decode_from_ends_clean(s, 0, 0, 0, precision);
    }
}

/// The zig-zag form of a signed change: `0, -1, 1, -2, ...` become `0, 1, 2, 3, ...`.
pub open spec fn zigzag(d: int) -> int {
    if d < 0 {
        -2 * d - 1
    } else {
        2 * d
    }
}

/// The character that carries a six-bit chunk.
pub open spec fn symbol(chunk: int) -> char {
    ((chunk + 63) as u8) as char
}

/// The text of a varint: five-bit chunks, low first, all but the last flagged.
pub open spec fn varint_text(v: nat) -> Seq<char>
    decreases v,
{
    if v < 32 {
        seq![symbol(v as int)]
    } else {
        seq![symbol((v % 32 + 32) as int)] + varint_text(v / 32)
    }
}

/// A change that fits in the twelve chunks of a varint.
pub open spec fn fits_varint(d: int) -> bool {
    zigzag(d) < pow32(MAX_CHUNKS as nat)
}

/// The text for `points`, each relative to the one before (the first relative to
/// `lat`, `lng`), or `None` where a change does not fit in a varint.
pub open spec fn encode_from(points: Seq<GeographicCoordinate>, lat: int, lng: int) -> Option<Seq<char>>
    decreases points.len(),
{
    if points.len() == 0 {
        Some(Seq::empty())
    } else {
        let dlat = points[0].lat - lat;
        let dlng = points[0].lng - lng;
        if !fits_varint(dlat) || !fits_varint(dlng) {
            None
        } else {
            match encode_from(points.drop_first(), points[0].lat as int, points[0].lng as int) {
                Some(rest) => Some(varint_text(zigzag(dlat) as nat) + varint_text(zigzag(dlng) as nat) + rest),
                None => None,
            }
        }
    }
}

/// The encoded polyline of `points`, or `None` where two neighbours lie too far apart.
pub open spec fn encoded(points: Seq<GeographicCoordinate>) -> Option<Seq<char>> {
    encode_from(points, 0, 0)
}

/// Relies on `String::push`: it appends the character.
#[verifier::external_body]
fn push_char(s: &mut String, c: char)
    ensures
        final(s)@ == old(s)@.push(c),
{
    s.push(c);
}

fn push_varint(out: &mut String, v: u64)
    ensures
        final(out)@ == old(out)@ + varint_text(v as nat),
{
    let mut rest: u64 = v;
    let ghost start = out@;
    assert(start + varint_text(v as nat) == out@ + varint_text(rest as nat));
    while rest >= 32
        invariant
            start + varint_text(v as nat) == out@ + varint_text(rest as nat),
        decreases rest,
    {
        let ghost before = out@;
        let chunk = (rest % 32 + 32 + 63) as u8;
        push_char(out, chunk as char);
        assert(varint_text(rest as nat) == seq![symbol((rest % 32 + 32) as int)] + varint_text((rest / 32) as nat));
        assert(before + varint_text(rest as nat) =~= out@ + varint_text((rest / 32) as nat));
        rest = rest / 32;
    }
    push_char(out, ((rest + 63) as u8) as char);
    assert(varint_text(rest as nat) == seq![symbol(rest as int)]);
}

fn zigzag_exec(d: i128) -> (r: u64)
    requires
        fits_varint(d as int),
    ensures
        r as int == zigzag(d as int),
{
    proof {
        reveal_with_fuel(pow32, 13);
    }
    if d < 0 {
        (-2 * d - 1) as u64
    } else {
        (2 * d) as u64
    }
}

/// Encodes coordinates as a polyline, each as the change from the one before;
/// `None` where two neighbours lie too far apart for a varint. The precision of the
/// coordinates is not written: the reader supplies it.
pub fn encode_polyline(points: &Vec<GeographicCoordinate>) -> (r: Option<String>)
    ensures
        match encoded(points@) {
            Some(text) => r is Some && r->Some_0@ == text,
            None => r is None,
        },
{
    let mut out = String::new();
    let mut lat: i64 = 0;
    let mut lng: i64 = 0;
    let mut i: usize = 0;
    assert(points@.subrange(0, points@.len() as int) == points@);
    while i < points.len()
        invariant
            i <= points@.len(),
            encoded(points@) == match encode_from(points@.subrange(i as int, points@.len() as int), lat as int, lng as int) {
                Some(rest) => Some(out@ + rest),
                None => None,
            },
        decreases points.len() - i,
    {
        let ghost tail = points@.subrange(i as int, points@.len() as int);
        assert(tail.drop_first() == points@.subrange(i + 1, points@.len() as int));
        assert(tail[0] == points@[i as int]);
        let p = points[i];
        let dlat = p.lat as i128 - lat as i128;
        let dlng = p.lng as i128 - lng as i128;
        proof {
            reveal_with_fuel(pow32, 13);
        }
        if !(-0x800000000000000 <= dlat && dlat < 0x800000000000000 && -0x800000000000000 <= dlng && dlng < 0x800000000000000) {
            return None;
        }
        let ghost before = out@;
        push_varint(&mut out, zigzag_exec(dlat));
        push_varint(&mut out, zigzag_exec(dlng));
        proof {
            if let Some(rest) = encode_from(tail.drop_first(), p.lat as int, p.lng as int) {
                assert(before + (varint_text(zigzag(dlat as int) as nat) + varint_text(zigzag(dlng as int) as nat) + rest) =~= out@ + rest);
            }
        }
        lat = p.lat;
        lng = p.lng;
        i = i + 1;
    }
    assert(out@ + Seq::<char>::empty() == out@);
    Some(out)
}

proof fn lemma_symbol_chunk(chunk: int)
    requires
        0 <= chunk < 64,
    ensures
        is_symbol(symbol(chunk)),
        chunk_of(symbol(chunk)) == chunk,
{
}

proof fn lemma_varint_text_len(v: nat)
    ensures
        varint_text(v).len() >= 1,
    decreases v,
{
    if v >= 32 {
        lemma_varint_text_len(v / 32);
    }
}

/// A varint's text reads back as its value.
proof fn lemma_varint_reads_back(s: Seq<char>, i: int, v: nat, count: nat)
    requires
        count < MAX_CHUNKS,
        v < pow32((MAX_CHUNKS - count) as nat),
        0 <= i,
        i + varint_text(v).len() <= s.len(),
        s.subrange(i, i + varint_text(v).len()) == varint_text(v),
    ensures
        varint_at(s, i, count) == Some((v as int, i + varint_text(v).len())),
    decreases v,
{
    let t = varint_text(v);
    assert(s[i] == t[0]) by {
        assert(s.subrange(i, i + t.len())[0] == s[i]);
    }
    if v < 32 {
        lemma_symbol_chunk(v as int);
    } else {
        lemma_symbol_chunk((v % 32 + 32) as int);
        let rest = varint_text(v / 32);
        lemma_varint_text_len(v / 32);
        assert(pow32((MAX_CHUNKS - count) as nat) == 32 * pow32((MAX_CHUNKS - count - 1) as nat));
        assert(v / 32 < pow32((MAX_CHUNKS - count - 1) as nat));
        if count + 1 >= MAX_CHUNKS {
            assert(pow32(0) == 1);
            assert(false);
        }
        assert(s.subrange(i + 1, i + 1 + rest.len()) =~= rest) by {
            assert forall|k: int| 0 <= k < rest.len() implies s.subrange(i + 1, i + 1 + rest.len())[k] == rest[k] by {
                assert(t[k + 1] == rest[k]);
                assert(s.subrange(i, i + t.len())[k + 1] == s[i + 1 + k]);
            }
        }
        lemma_varint_reads_back(s, i + 1, v / 32, count + 1);
        assert(v % 32 + 32 - 32 + 32 * (v / 32) == v);
    }
}

proof fn lemma_unzigzag_zigzag(d: int)
    ensures
        unzigzag(zigzag(d)) == d,
{
}

proof fn lemma_decode_encoded_from(s: Seq<char>, i: int, points: Seq<GeographicCoordinate>, lat: int, lng: int, precision: u32)
    requires
        0 <= i <= s.len(),
        encode_from(points, lat, lng) == Some(s.subrange(i, s.len() as int)),
        forall|k: int| 0 <= k < points.len() ==> (#[trigger] points[k]).precision == precision,
    ensures
        decode_from(s, i, lat, lng, precision) == Some(points),
    decreases points.len(),
{
    if points.len() == 0 {
        assert(s.subrange(i, s.len() as int).len() == 0);
    } else {
        let p = points[0];
        let a = zigzag(p.lat - lat) as nat;
        let b = zigzag(p.lng - lng) as nat;
        let ta = varint_text(a);
        let tb = varint_text(b);
        let rest = encode_from(points.drop_first(), p.lat as int, p.lng as int)->Some_0;
        let tail = s.subrange(i, s.len() as int);
        assert(tail == ta + tb + rest);
        lemma_varint_text_len(a);
        lemma_varint_text_len(b);
        assert(s.subrange(i, i + ta.len()) =~= ta) by {
            assert forall|k: int| 0 <= k < ta.len() implies s.subrange(i, i + ta.len())[k] == ta[k] by {
                assert(tail[k] == (ta + tb + rest)[k]);
            }
        }
        let j = i + ta.len();
        assert(s.subrange(j, j + tb.len()) =~= tb) by {
            assert forall|k: int| 0 <= k < tb.len() implies s.subrange(j, j + tb.len())[k] == tb[k] by {
                assert(tail[ta.len() + k] == (ta + tb + rest)[ta.len() + k]);
            }
        }
        lemma_varint_reads_back(s, i, a, 0);
        lemma_varint_reads_back(s, j, b, 0);
        let k = j + tb.len();
        lemma_unzigzag_zigzag(p.lat - lat);
        lemma_unzigzag_zigzag(p.lng - lng);
        assert(s.subrange(k, s.len() as int) =~= rest) by {
            assert forall|m: int| 0 <= m < rest.len() implies s.subrange(k, s.len() as int)[m] == rest[m] by {
                assert(tail[ta.len() + tb.len() + m] == (ta + tb + rest)[ta.len() + tb.len() + m]);
            }
        }
        assert forall|m: int| 0 <= m < points.drop_first().len() implies (#[trigger] points.drop_first()[m]).precision == precision by {
            assert(points.drop_first()[m] == points[m + 1]);
        }
        lemma_decode_encoded_from(s, k, points.drop_first(), p.lat as int, p.lng as int, precision);
        assert(GeographicCoordinate { lat: p.lat, lng: p.lng, precision } == p);
        assert(seq![p] + points.drop_first() =~= points);
    }
}

/// Decoding undoes encoding: where `points` encode, at one precision, reading the
/// text back at that precision gives the same points.
pub proof fn lemma_round_trip(points: Seq<GeographicCoordinate>, precision: u32)
    requires
        encoded(points) is Some,
        forall|k: int| 0 <= k < points.len() ==> (#[trigger] points[k]).precision == precision,
    ensures
        decoded(encoded(points)->Some_0, precision) == Some(points),
{
    let s = encoded(points)->Some_0;
    assert(s.subrange(0, s.len() as int) =~= s);
    lemma_decode_encoded_from(s, 0, points, 0, 0, precision);
}

} // verus!
