//! The wire format: a bare sequence of records
//! `key_len(8) key_bytes tag(1) payload`, all integers big-endian, lengths as
//! 64-bit unsigned integers.
use crate::datatype::{tag_of, DataType, Value};
use vstd::prelude::*;
use vstd::utf8::{decode_utf8, encode_utf8, valid_utf8};

verus! {

/// `256` to the power `w`.
pub open spec fn pow256(w: nat) -> nat
    decreases w,
{
    if w == 0 {
        1
    } else {
        256 * pow256((w - 1) as nat)
    }
}

/// The `w` low-order bytes of `n`, most significant first.
pub open spec fn be_bytes(n: nat, w: nat) -> Seq<u8>
    decreases w,
{
    if w == 0 {
        seq![]
    } else {
        be_bytes(n / 256, (w - 1) as nat).push((n % 256) as u8)
    }
}

/// The unsigned number that a big-endian byte sequence spells.
pub open spec fn be_value(s: Seq<u8>) -> nat
    decreases s.len(),
{
    if s.len() == 0 {
        0
    } else {
        be_value(s.drop_last()) * 256 + s.last() as nat
    }
}

/// The `w`-byte two's complement code of `x`.
pub open spec fn twos(x: int, w: nat) -> nat {
    if x < 0 {
        (x + pow256(w)) as nat
    } else {
        x as nat
    }
}

/// The signed number whose `w`-byte two's complement code is `n`.
pub open spec fn signed_of(n: nat, w: nat) -> int {
    if 2 * n >= pow256(w) {
        n - pow256(w)
    } else {
        n as int
    }
}

/// A length-prefixed byte string.
pub open spec fn sized(b: Seq<u8>) -> Seq<u8> {
    be_bytes(b.len(), 8) + b
}

/// The payload that follows the tag of a value.
pub open spec fn payload(v: Value) -> Seq<u8> {
    match v {
        Value::Bool(b) => seq![if b { 1u8 } else { 0u8 }],
        Value::Int8(x) => be_bytes(twos(x as int, 1), 1),
        Value::Int16(x) => be_bytes(twos(x as int, 2), 2),
        Value::Int32(x) => be_bytes(twos(x as int, 4), 4),
        Value::Int64(x) => be_bytes(twos(x as int, 8), 8),
        Value::Float32(x) => be_bytes(x as nat, 4),
        Value::Float64(x) => be_bytes(x as nat, 8),
        Value::Text(s) => sized(encode_utf8(s)),
        Value::Bytes(b) => sized(b),
    }
}

/// The bytes of one record.
pub open spec fn encode_record(k: Seq<char>, v: Value) -> Seq<u8> {
    sized(encode_utf8(k)) + seq![tag_of(v)] + payload(v)
}

/// The bytes of a sequence of records, in order.
pub open spec fn encode_records(rs: Seq<(Seq<char>, Value)>) -> Seq<u8>
    decreases rs.len(),
{
    if rs.len() == 0 {
        seq![]
    } else {
        encode_record(rs[0].0, rs[0].1) + encode_records(rs.drop_first())
    }
}

/// The length that a text or byte value writes fits in 64 bits.
pub open spec fn value_fits(v: Value) -> bool {
    &&& (v matches Value::Text(s) ==> encode_utf8(s).len() < pow256(8))
    &&& (v matches Value::Bytes(b) ==> b.len() < pow256(8))
}

/// Every length that the records write fits in 64 bits.
pub open spec fn representable(rs: Seq<(Seq<char>, Value)>) -> bool {
    forall|i: int|
        0 <= i < rs.len() ==> encode_utf8(#[trigger] rs[i].0).len() < pow256(8) && value_fits(
            rs[i].1,
        )
}

/// The map that a sequence of records builds: a later record for a key
/// replaces an earlier one.
pub open spec fn map_of(rs: Seq<(Seq<char>, Value)>) -> Map<Seq<char>, Value>
    decreases rs.len(),
{
    if rs.len() == 0 {
        Map::empty()
    } else {
        map_of(rs.drop_last()).insert(rs.last().0, rs.last().1)
    }
}

/// Reads a fixed-width big-endian number from the front of `b`.
pub open spec fn parse_fixed(b: Seq<u8>, w: nat) -> Option<nat> {
    if b.len() < w {
        None
    } else {
        Some(be_value(b.take(w as int)))
    }
}

/// Reads a length-prefixed byte string from the front of `b`, with the number
/// of bytes it takes.
pub open spec fn parse_sized(b: Seq<u8>) -> Option<(Seq<u8>, nat)> {
    match parse_fixed(b, 8) {
        Some(n) => if n <= b.len() - 8 {
            Some((b.subrange(8, (8 + n) as int), (8 + n) as nat))
        } else {
            None
        },
        None => None,
    }
}

/// Reads the payload of a value with tag `tag` from the front of `b`, with
/// the number of bytes it takes.
pub open spec fn parse_payload(tag: u8, b: Seq<u8>) -> Option<(Value, nat)> {
    if tag == 0 {
        if b.len() < 1 {
            None
        } else {
            Some((Value::Bool(b[0] != 0), 1))
        }
    } else if 1 <= tag <= 6 {
        let w: nat = if tag == 1 {
            1
        } else if tag == 2 {
            2
        } else if tag == 3 || tag == 5 {
            4
        } else {
            8
        };
        match parse_fixed(b, w) {
            Some(n) => {
                let v = if tag == 1 {
                    Value::Int8(signed_of(n, 1) as i8)
                } else if tag == 2 {
                    Value::Int16(signed_of(n, 2) as i16)
                } else if tag == 3 {
                    Value::Int32(signed_of(n, 4) as i32)
                } else if tag == 4 {
                    Value::Int64(signed_of(n, 8) as i64)
                } else if tag == 5 {
                    Value::Float32(n as u32)
                } else {
                    Value::Float64(n as u64)
                };
                Some((v, w))
            },
            None => None,
        }
    } else if tag == 7 {
        match parse_sized(b) {
            Some((s, n)) => if valid_utf8(s) {
                Some((Value::Text(decode_utf8(s)), n))
            } else {
                None
            },
            None => None,
        }
    } else if tag == 8 {
        match parse_sized(b) {
            Some((s, n)) => Some((Value::Bytes(s), n)),
            None => None,
        }
    } else {
        None
    }
}

/// Reads one record from the front of `b`, with the number of bytes it takes.
pub open spec fn parse_record(b: Seq<u8>) -> Option<(Seq<char>, Value, nat)> {
    match parse_sized(b) {
        Some((kb, n)) => if valid_utf8(kb) && n < b.len() {
            match parse_payload(b[n as int], b.skip(n + 1 as int)) {
                Some((v, m)) => Some((decode_utf8(kb), v, n + 1 + m)),
                None => None,
            }
        } else {
            None
        },
        None => None,
    }
}

/// The records of a buffer, front to back, or `None` where any is malformed.
pub open spec fn decode_records(b: Seq<u8>) -> Option<Seq<(Seq<char>, Value)>>
    decreases b.len(),
{
    if b.len() == 0 {
        Some(seq![])
    } else {
        match parse_record(b) {
            Some((k, v, n)) => if 0 < n <= b.len() {
                match decode_records(b.skip(n as int)) {
                    Some(rs) => Some(seq![(k, v)] + rs),
                    None => None,
                }
            } else {
                None
            },
            None => None,
        }
    }
}

/// The store that a buffer decodes to, or `None` where it is malformed.
pub open spec fn decode_store(b: Seq<u8>) -> Option<Map<Seq<char>, Value>> {
    match decode_records(b) {
        Some(rs) => Some(map_of(rs)),
        None => None,
    }
}

/// The powers of 256 that the fixed widths use.
pub proof fn lemma_pow256_values()
    ensures
        pow256(0) == 1,
        pow256(1) == 256,
        pow256(2) == 0x1_0000,
        pow256(3) == 0x100_0000,
        pow256(4) == 0x1_0000_0000,
        pow256(5) == 0x100_0000_0000,
        pow256(6) == 0x1_0000_0000_0000,
        pow256(7) == 0x100_0000_0000_0000,
        pow256(8) == 0x1_0000_0000_0000_0000,
{
    reveal_with_fuel(pow256, 9);
}

/// `be_bytes(n, w)` has `w` bytes.
pub proof fn lemma_be_bytes_len(n: nat, w: nat)
    ensures
        be_bytes(n, w).len() == w,
    decreases w,
{
    if w > 0 {
        lemma_be_bytes_len(n / 256, (w - 1) as nat);
    }
}

/// A big-endian number of `k` bytes is below `256^k`.
pub proof fn lemma_be_value_bound(s: Seq<u8>)
    ensures
        be_value(s) < pow256(s.len()),
    decreases s.len(),
{
    if s.len() > 0 {
        let p = pow256((s.len() - 1) as nat);
        let h = be_value(s.drop_last());
        lemma_be_value_bound(s.drop_last());
        assert(h * 256 + s.last() < 256 * p) by (nonlinear_arith)
            requires
                h < p,
                s.last() < 256,
        ;
    }
}

/// Writing `n` in `w` big-endian bytes and reading them back gives `n`.
pub proof fn lemma_be_round_trip(n: nat, w: nat)
    requires
        n < pow256(w),
    ensures
        be_value(be_bytes(n, w)) == n,
        be_bytes(n, w).len() == w,
    decreases w,
{
    lemma_be_bytes_len(n, w);
    if w > 0 {
        let p = pow256((w - 1) as nat);
        assert(n / 256 < p) by (nonlinear_arith)
            requires
                n < 256 * p,
        ;
        lemma_be_round_trip(n / 256, (w - 1) as nat);
        let s = be_bytes(n, w);
        assert(s.drop_last() =~= be_bytes(n / 256, (w - 1) as nat));
        assert((n / 256) * 256 + n % 256 == n) by (nonlinear_arith);
    } else {
        assert(n == 0) by {
            lemma_pow256_values();
        }
    }
}

proof fn lemma_pow256_le8(w: nat)
    requires
        w <= 8,
    ensures
        pow256(w) <= pow256(8),
        pow256(8) == 0x1_0000_0000_0000_0000,
{
    lemma_pow256_values();
}

/// Appends the `w` low-order bytes of `n`, most significant first.
pub(crate) fn write_be(out: &mut Vec<u8>, n: u64, w: usize)
    requires
        w <= 8,
        n < pow256(w as nat),
    ensures
        final(out)@ == old(out)@ + be_bytes(n as nat, w as nat),
    decreases w,
{
    if w > 0 {
        let ghost p = pow256((w - 1) as nat);
        assert(n / 256 < p) by (nonlinear_arith)
            requires
                n < 256 * p,
        ;
        write_be(out, n / 256, w - 1);
        out.push((n % 256) as u8);
        assert(out@ =~= old(out)@ + be_bytes(n as nat, w as nat));
    } else {
        assert(out@ =~= old(out)@ + be_bytes(n as nat, w as nat));
    }
}

/// Reads the big-endian number held in `b[pos..pos + w]`.
pub(crate) fn read_be(b: &[u8], pos: usize, w: usize) -> (r: u64)
    requires
        w <= 8,
        pos + w <= b@.len(),
    ensures
        r == be_value(b@.subrange(pos as int, pos + w)),
    decreases w,
{
    if w == 0 {
        0
    } else {
        let len = b.len();
        let hi = read_be(b, pos, w - 1);
        let ghost s = b@.subrange(pos as int, pos + w);
        proof {
            assert(s.drop_last() =~= b@.subrange(pos as int, pos + w - 1));
            lemma_be_value_bound(s.drop_last());
            lemma_pow256_le8(w as nat);
            let p = pow256((w - 1) as nat);
            assert(hi * 256 + 255 < 256 * p) by (nonlinear_arith)
                requires
                    hi < p,
            ;
        }
        hi * 256 + b[pos + w - 1] as u64
    }
}

/// Appends the bytes of `b`.
pub(crate) fn append_bytes(out: &mut Vec<u8>, b: &[u8])
    ensures
        final(out)@ == old(out)@ + b@,
{
    let mut i: usize = 0;
    while i < b.len()
        invariant
            i <= b@.len(),
            out@ == old(out)@ + b@.subrange(0, i as int),
        decreases b@.len() - i,
    {
        out.push(b[i]);
        i = i + 1;
        assert(out@ =~= old(out)@ + b@.subrange(0, i as int));
    }
    assert(b@.subrange(0, i as int) =~= b@);
}

/// Appends the length of `b` as a 64-bit big-endian number, then `b`.
pub(crate) fn write_sized(out: &mut Vec<u8>, b: &[u8])
    ensures
        final(out)@ == old(out)@ + sized(b@),
        b@.len() < pow256(8),
{
    proof {
        lemma_pow256_values();
    }
    write_be(out, b.len() as u64, 8);
    append_bytes(out, b);
    assert(out@ =~= old(out)@ + sized(b@));
}

/// Appends the tag and the payload of `v`.
pub(crate) fn write_value(out: &mut Vec<u8>, v: &DataType)
    ensures
        final(out)@ == old(out)@ + seq![tag_of(v@)] + payload(v@),
        value_fits(v@),
{
    proof {
        lemma_pow256_values();
    }
    out.push(v.id());
    let ghost mid = out@;
    match v {
        DataType::BOOL(x) => {
            out.push(if *x { 1u8 } else { 0u8 });
        },
        DataType::INT8(x) => {
            let n: u64 = if *x < 0 { (*x as i64 + 256) as u64 } else { *x as u64 };
            write_be(out, n, 1);
        },
        DataType::INT16(x) => {
            let n: u64 = if *x < 0 { (*x as i64 + 0x1_0000) as u64 } else { *x as u64 };
            write_be(out, n, 2);
        },
        DataType::INT32(x) => {
            let n: u64 = if *x < 0 { (*x as i64 + 0x1_0000_0000) as u64 } else { *x as u64 };
            write_be(out, n, 4);
        },
        DataType::INT64(x) => {
            let n: u64 = if *x < 0 {
                ((*x + 1 + i64::MAX) as u64) + 0x8000_0000_0000_0000
            } else {
                *x as u64
            };
            write_be(out, n, 8);
        },
        DataType::FLOAT32(x) => {
            write_be(out, *x as u64, 4);
        },
        DataType::FLOAT64(x) => {
            write_be(out, *x, 8);
        },
        DataType::STRING(s) => {
            write_sized(out, s.as_str().as_bytes());
        },
        DataType::BYTES(b) => {
            write_sized(out, b.as_slice());
        },
    }
    assert(out@ =~= old(out)@ + seq![tag_of(v@)] + payload(v@));
}

/// Relies on `String::from_utf8`: it accepts exactly the valid UTF-8 byte
/// strings and returns the characters that they encode.
#[verifier::external_body]
fn string_from_utf8(b: Vec<u8>) -> (r: Option<String>)
    ensures
        match r {
            Some(s) => valid_utf8(b@) && s@ == decode_utf8(b@),
            None => !valid_utf8(b@),
        },
{
    String::from_utf8(b).ok()
}

/// Copies `b[start..end]` into a new vector.
fn copy_range(b: &[u8], start: usize, end: usize) -> (r: Vec<u8>)
    requires
        start <= end <= b@.len(),
    ensures
        r@ == b@.subrange(start as int, end as int),
{
    let mut out: Vec<u8> = Vec::new();
    let mut i: usize = start;
    while i < end
        invariant
            start <= i <= end <= b@.len(),
            out@ == b@.subrange(start as int, i as int),
        decreases end - i,
    {
        out.push(b[i]);
        i = i + 1;
        assert(out@ =~= b@.subrange(start as int, i as int));
    }
    out
}

/// Reads a fixed-width number at `pos`, as `parse_fixed` does on the rest of
/// `b`.
fn parse_fixed_at(b: &[u8], pos: usize, w: usize) -> (r: Option<u64>)
    requires
        pos <= b@.len(),
        w <= 8,
    ensures
        match parse_fixed(b@.skip(pos as int), w as nat) {
            Some(n) => r matches Some(x) && x as nat == n && n < pow256(w as nat),
            None => r is None,
        },
{
    if b.len() - pos < w {
        None
    } else {
        let n = read_be(b, pos, w);
        assert(b@.skip(pos as int).take(w as int) =~= b@.subrange(pos as int, pos + w));
        proof {
            lemma_be_value_bound(b@.skip(pos as int).take(w as int));
            lemma_pow256_le8(w as nat);
        }
        Some(n)
    }
}

/// Reads a length-prefixed byte string at `pos`, as `parse_sized` does on the
/// rest of `b`.
fn parse_sized_at(b: &[u8], pos: usize) -> (r: Option<(Vec<u8>, usize)>)
    requires
        pos <= b@.len(),
    ensures
        match parse_sized(b@.skip(pos as int)) {
            Some((s, n)) => r matches Some(t) && t.0@ == s && t.1 == n,
            None => r is None,
        },
        r matches Some(t) ==> 8 <= t.1 <= b@.len() - pos,
{
    match parse_fixed_at(b, pos, 8) {
        Some(n) => {
            let rest = b.len() - pos - 8;
            if n <= rest as u64 {
                let start = pos + 8;
                let end = start + n as usize;
                let data = copy_range(b, start, end);
                assert(data@ =~= b@.skip(pos as int).subrange(8, 8 + n));
                Some((data, 8 + n as usize))
            } else {
                None
            }
        },
        None => None,
    }
}

/// Reads the payload of a value with tag `tag` at `pos`, as `parse_payload`
/// does on the rest of `b`.
fn parse_payload_at(b: &[u8], pos: usize, tag: u8) -> (r: Option<(DataType, usize)>)
    requires
        pos <= b@.len(),
    ensures
        match parse_payload(tag, b@.skip(pos as int)) {
            Some((v, n)) => r matches Some(t) && t.0@ == v && t.1 == n,
            None => r is None,
        },
        r matches Some(t) ==> t.1 <= b@.len() - pos,
{
    proof {
        lemma_pow256_values();
    }
    let ghost rest = b@.skip(pos as int);
    if tag == 0 {
        if pos < b.len() {
            Some((DataType::BOOL(b[pos] != 0), 1))
        } else {
            None
        }
    } else if tag == 1 {
        match parse_fixed_at(b, pos, 1) {
            Some(n) => {
                proof {
                    lemma_be_value_bound(rest.take(1));
                }
                let x: i8 = if n >= 0x80 { (n as i64 - 0x100) as i8 } else { n as i8 };
                Some((DataType::INT8(x), 1))
            },
            None => None,
        }
    } else if tag == 2 {
        match parse_fixed_at(b, pos, 2) {
            Some(n) => {
                proof {
                    lemma_be_value_bound(rest.take(2));
                }
                let x: i16 = if n >= 0x8000 { (n as i64 - 0x1_0000) as i16 } else { n as i16 };
                Some((DataType::INT16(x), 2))
            },
            None => None,
        }
    } else if tag == 3 {
        match parse_fixed_at(b, pos, 4) {
            Some(n) => {
                proof {
                    lemma_be_value_bound(rest.take(4));
                }
                let x: i32 = if n >= 0x8000_0000 {
                    (n as i64 - 0x1_0000_0000) as i32
                } else {
                    n as i32
                };
                Some((DataType::INT32(x), 4))
            },
            None => None,
        }
    } else if tag == 4 {
        match parse_fixed_at(b, pos, 8) {
            Some(n) => {
                let x: i64 = if n >= 0x8000_0000_0000_0000 {
                    -((0xFFFF_FFFF_FFFF_FFFFu64 - n) as i64) - 1
                } else {
                    n as i64
                };
                Some((DataType::INT64(x), 8))
            },
            None => None,
        }
    } else if tag == 5 {
        match parse_fixed_at(b, pos, 4) {
            Some(n) => {
                proof {
                    lemma_be_value_bound(rest.take(4));
                }
                Some((DataType::FLOAT32(n as u32), 4))
            },
            None => None,
        }
    } else if tag == 6 {
        match parse_fixed_at(b, pos, 8) {
            Some(n) => Some((DataType::FLOAT64(n), 8)),
            None => None,
        }
    } else if tag == 7 {
        match parse_sized_at(b, pos) {
            Some((data, n)) => match string_from_utf8(data) {
                Some(s) => Some((DataType::STRING(s), n)),
                None => None,
            },
            None => None,
        }
    } else if tag == 8 {
        match parse_sized_at(b, pos) {
            Some((data, n)) => Some((DataType::BYTES(data), n)),
            None => None,
        }
    } else {
        None
    }
}

/// Reads one record at `pos`, as `parse_record` does on the rest of `b`.
pub(crate) fn parse_record_at(b: &[u8], pos: usize) -> (r: Option<(String, DataType, usize)>)
    requires
        pos <= b@.len(),
    ensures
        match parse_record(b@.skip(pos as int)) {
            Some((k, v, n)) => r matches Some(t) && t.0@ == k && t.1@ == v && t.2 == n,
            None => r is None,
        },
        r matches Some(t) ==> 0 < t.2 <= b@.len() - pos,
{
    let ghost rest = b@.skip(pos as int);
    match parse_sized_at(b, pos) {
        Some((kb, n)) => {
            match string_from_utf8(kb) {
                Some(key) => {
                    if n < b.len() - pos {
                        let tag = b[pos + n];
                        assert(b@.skip(pos + n + 1) =~= rest.skip(n + 1));
                        match parse_payload_at(b, pos + n + 1, tag) {
                            Some((v, m)) => Some((key, v, n + 1 + m)),
                            None => None,
                        }
                    } else {
                        None
                    }
                },
                None => None,
            }
        },
        None => None,
    }
}

proof fn lemma_parse_sized(s: Seq<u8>, rest: Seq<u8>)
    requires
        s.len() < pow256(8),
    ensures
        parse_sized(sized(s) + rest) == Some((s, sized(s).len())),
        sized(s).len() == 8 + s.len(),
{
    let b = sized(s) + rest;
    lemma_be_round_trip(s.len(), 8);
    assert(b.take(8) =~= be_bytes(s.len(), 8));
    assert(b.subrange(8, 8 + s.len() as int) =~= s);
}

proof fn lemma_parse_payload(v: Value, rest: Seq<u8>)
    requires
        value_fits(v),
    ensures
        parse_payload(tag_of(v), payload(v) + rest) == Some((v, payload(v).len())),
{
    lemma_pow256_values();
    let p = payload(v);
    let b = p + rest;
    match v {
        Value::Bool(x) => {},
        Value::Int8(x) => {
            lemma_be_round_trip(twos(x as int, 1), 1);
            assert(b.take(1) =~= p);
        },
        Value::Int16(x) => {
            lemma_be_round_trip(twos(x as int, 2), 2);
            assert(b.take(2) =~= p);
        },
        Value::Int32(x) => {
            lemma_be_round_trip(twos(x as int, 4), 4);
            assert(b.take(4) =~= p);
        },
        Value::Int64(x) => {
            lemma_be_round_trip(twos(x as int, 8), 8);
            assert(b.take(8) =~= p);
        },
        Value::Float32(x) => {
            lemma_be_round_trip(x as nat, 4);
            assert(b.take(4) =~= p);
        },
        Value::Float64(x) => {
            lemma_be_round_trip(x as nat, 8);
            assert(b.take(8) =~= p);
        },
        Value::Text(t) => {
            broadcast use vstd::utf8::encode_utf8_valid_utf8, vstd::utf8::encode_utf8_decode_utf8;

            lemma_parse_sized(encode_utf8(t), rest);
        },
        Value::Bytes(d) => {
            lemma_parse_sized(d, rest);
        },
    }
}

proof fn lemma_parse_record(k: Seq<char>, v: Value, rest: Seq<u8>)
    requires
        encode_utf8(k).len() < pow256(8),
        value_fits(v),
    ensures
        parse_record(encode_record(k, v) + rest) == Some((k, v, encode_record(k, v).len())),
{
    broadcast use vstd::utf8::encode_utf8_valid_utf8, vstd::utf8::encode_utf8_decode_utf8;

    let kb = encode_utf8(k);
    let e = encode_record(k, v);
    let b = e + rest;
    let n = sized(kb).len();
    let tail = seq![tag_of(v)] + payload(v) + rest;
    assert(b =~= sized(kb) + tail);
    lemma_parse_sized(kb, tail);
    assert(b[n as int] == tag_of(v));
    assert(b.skip(n + 1 as int) =~= payload(v) + rest);
    lemma_parse_payload(v, rest);
}

/// Decoding the bytes of a sequence of records followed by `t` gives back
/// those records followed by what `t` decodes to.
pub proof fn lemma_decode_encode(rs: Seq<(Seq<char>, Value)>, t: Seq<u8>)
    requires
        representable(rs),
    ensures
        decode_records(encode_records(rs) + t) == prepend_records(rs, decode_records(t)),
    decreases rs.len(),
{
    if rs.len() == 0 {
        assert(encode_records(rs) + t =~= t);
        match decode_records(t) {
            Some(u) => {
                assert(rs + u =~= u);
            },
            None => {},
        }
    } else {
        let e = encode_record(rs[0].0, rs[0].1);
        let tail = encode_records(rs.drop_first());
        assert(encode_utf8(rs[0].0).len() < pow256(8) && value_fits(rs[0].1));
        assert(encode_records(rs) + t =~= e + (tail + t));
        lemma_parse_record(rs[0].0, rs[0].1, tail + t);
        assert((e + (tail + t)).skip(e.len() as int) =~= tail + t);
        assert(representable(rs.drop_first())) by {
            assert forall|i: int| 0 <= i < rs.drop_first().len() implies encode_utf8(
                #[trigger] rs.drop_first()[i].0,
            ).len() < pow256(8) && value_fits(rs.drop_first()[i].1) by {
                assert(rs.drop_first()[i] == rs[i + 1]);
            }
        }
        lemma_decode_encode(rs.drop_first(), t);
        match decode_records(t) {
            Some(u) => {
                assert(seq![rs[0]] + (rs.drop_first() + u) =~= rs + u);
            },
            None => {},
        }
    }
}

/// `rs` followed by the records `rest`, or `None` where `rest` is `None`.
pub open spec fn prepend_records(
    rs: Seq<(Seq<char>, Value)>,
    rest: Option<Seq<(Seq<char>, Value)>>,
) -> Option<Seq<(Seq<char>, Value)>> {
    match rest {
        Some(t) => Some(rs + t),
        None => None,
    }
}

proof fn lemma_encode_records_concat(a: Seq<(Seq<char>, Value)>, b: Seq<(Seq<char>, Value)>)
    ensures
        encode_records(a + b) == encode_records(a) + encode_records(b),
    decreases a.len(),
{
    if a.len() == 0 {
        assert(a + b =~= b);
        assert(encode_records(a) + encode_records(b) =~= encode_records(b));
    } else {
        assert((a + b).drop_first() =~= a.drop_first() + b);
        assert((a + b)[0] == a[0]);
        lemma_encode_records_concat(a.drop_first(), b);
        assert(encode_records(a + b) =~= encode_records(a) + encode_records(b));
    }
}

proof fn lemma_parse_sized_cut(s: Seq<u8>, j: int)
    requires
        s.len() < pow256(8),
        0 <= j < sized(s).len(),
    ensures
        parse_sized(sized(s).take(j)) is None,
{
    let q = sized(s).take(j);
    lemma_be_round_trip(s.len(), 8);
    if j >= 8 {
        assert(q.take(8) =~= be_bytes(s.len(), 8));
    }
}

proof fn lemma_parse_payload_cut(v: Value, j: int)
    requires
        value_fits(v),
        0 <= j < payload(v).len(),
    ensures
        parse_payload(tag_of(v), payload(v).take(j)) is None,
{
    lemma_pow256_values();
    match v {
        Value::Int8(x) => lemma_be_bytes_len(twos(x as int, 1), 1),
        Value::Int16(x) => lemma_be_bytes_len(twos(x as int, 2), 2),
        Value::Int32(x) => lemma_be_bytes_len(twos(x as int, 4), 4),
        Value::Int64(x) => lemma_be_bytes_len(twos(x as int, 8), 8),
        Value::Float32(x) => lemma_be_bytes_len(x as nat, 4),
        Value::Float64(x) => lemma_be_bytes_len(x as nat, 8),
        Value::Text(t) => lemma_parse_sized_cut(encode_utf8(t), j),
        Value::Bytes(d) => lemma_parse_sized_cut(d, j),
        Value::Bool(_) => {},
    }
}

proof fn lemma_parse_record_cut(k: Seq<char>, v: Value, j: int)
    requires
        encode_utf8(k).len() < pow256(8),
        value_fits(v),
        0 < j < encode_record(k, v).len(),
    ensures
        parse_record(encode_record(k, v).take(j)) is None,
{
    broadcast use vstd::utf8::encode_utf8_valid_utf8, vstd::utf8::encode_utf8_decode_utf8;

    let kb = encode_utf8(k);
    let e = encode_record(k, v);
    let p = e.take(j);
    let n = sized(kb).len() as int;
    lemma_parse_sized(kb, seq![]);
    if j < n {
        assert(p =~= sized(kb).take(j));
        lemma_parse_sized_cut(kb, j);
    } else {
        let tail = (seq![tag_of(v)] + payload(v)).take(j - n);
        assert(p =~= sized(kb) + tail);
        lemma_parse_sized(kb, tail);
        if j > n {
            assert(p[n] == tag_of(v));
            assert(p.skip(n + 1) =~= payload(v).take(j - n - 1));
            lemma_parse_payload_cut(v, j - n - 1);
        }
    }
}

/// Cutting the bytes of a sequence of records inside one of its records
/// leaves bytes that do not decode.
pub proof fn lemma_truncated_fails(rs: Seq<(Seq<char>, Value)>, i: int, cut: int)
    requires
        representable(rs),
        0 <= i < rs.len(),
        encode_records(rs.take(i)).len() < cut < encode_records(rs.take(i + 1)).len(),
    ensures
        decode_store(encode_records(rs).take(cut)) is None,
{
    let head = rs.take(i);
    let x = rs[i];
    let e = encode_record(x.0, x.1);
    let eh = encode_records(head);
    assert(rs =~= head + (seq![x] + rs.skip(i + 1)));
    assert(rs.take(i + 1) =~= head + seq![x]);
    lemma_encode_records_concat(head, seq![x] + rs.skip(i + 1));
    lemma_encode_records_concat(head, seq![x]);
    assert(seq![x].drop_first() =~= Seq::<(Seq<char>, Value)>::empty());
    assert(encode_records(seq![x].drop_first()) == Seq::<u8>::empty());
    assert(seq![x][0] == x);
    assert(encode_records(seq![x]) =~= e);
    assert(encode_records(seq![x] + rs.skip(i + 1)) =~= e + encode_records(rs.skip(i + 1))) by {
        assert((seq![x] + rs.skip(i + 1)).drop_first() =~= rs.skip(i + 1));
    }
    let j = cut - eh.len();
    assert(encode_records(rs).take(cut) =~= eh + e.take(j));
    assert(representable(head)) by {
        assert forall|a: int| 0 <= a < head.len() implies encode_utf8(#[trigger] head[a].0).len()
            < pow256(8) && value_fits(head[a].1) by {
            assert(head[a] == rs[a]);
        }
    }
    assert(encode_utf8(rs[i].0).len() < pow256(8) && value_fits(rs[i].1));
    lemma_parse_record_cut(x.0, x.1, j);
    lemma_decode_encode(head, e.take(j));
}

/// Encoding a store and decoding the bytes gives back the same key-to-value
/// map, whatever order the records were written in.
pub proof fn lemma_round_trip(rs: Seq<(Seq<char>, Value)>)
    requires
        representable(rs),
    ensures
        decode_store(encode_records(rs)) == Some(map_of(rs)),
{
    lemma_decode_encode(rs, seq![]);
    assert(encode_records(rs) + seq![] =~= encode_records(rs));
    assert(rs + seq![] =~= rs);
}

} // verus!
