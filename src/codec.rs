use vstd::prelude::*;
use bincode::config;
use bincode::error::DecodeError;
use vstd::slice::{slice_subrange, slice_to_vec};
use vstd::utf8::{decode_utf8, decode_utf8_encode_utf8, encode_utf8, encode_utf8_decode_utf8, encode_utf8_valid_utf8, valid_utf8};
use crate::error::ChainError;

verus! {

#[verifier::external_type_specification]
#[verifier::external_body]
pub struct ExDecodeError(DecodeError);

/// `256` raised to the power `k`.
pub open spec fn pow256(k: nat) -> nat
    decreases k,
{
    if k == 0 {
        1
    } else {
        256 * pow256((k - 1) as nat)
    }
}

/// The lowest `k` bytes of `n`, least significant first.
pub open spec fn le_bytes(n: nat, k: nat) -> Seq<u8>
    decreases k,
{
    if k == 0 {
        Seq::empty()
    } else {
        seq![(n % 256) as u8] + le_bytes(n / 256, (k - 1) as nat)
    }
}

/// The number that bytes spell, least significant first.
pub open spec fn le_value(s: Seq<u8>) -> nat
    decreases s.len(),
{
    if s.len() == 0 {
        0
    } else {
        s[0] as nat + 256 * le_value(s.subrange(1, s.len() as int))
    }
}

/// The variable-length integer encoding: values up to 250 take one byte;
/// larger ones a marker byte (251, 252, 253) and then two, four or eight
/// little-endian bytes.
pub open spec fn varint(n: nat) -> Seq<u8> {
    if n <= 250 {
        seq![n as u8]
    } else if n < 0x1_0000 {
        seq![251u8] + le_bytes(n, 2)
    } else if n < 0x1_0000_0000 {
        seq![252u8] + le_bytes(n, 4)
    } else {
        seq![253u8] + le_bytes(n, 8)
    }
}

/// What a reader of a 64-bit variable-length integer makes of the front of
/// `s`: the value and the number of bytes it took, or nothing.
pub open spec fn read_varint(s: Seq<u8>) -> Option<(nat, nat)> {
    if s.len() == 0 {
        None
    } else if s[0] <= 250 {
        Some((s[0] as nat, 1))
    } else if s[0] == 251 {
        if s.len() >= 3 { Some((le_value(s.subrange(1, 3)), 3)) } else { None }
    } else if s[0] == 252 {
        if s.len() >= 5 { Some((le_value(s.subrange(1, 5)), 5)) } else { None }
    } else if s[0] == 253 {
        if s.len() >= 9 { Some((le_value(s.subrange(1, 9)), 9)) } else { None }
    } else {
        None
    }
}

/// The zigzag map of a signed 32-bit integer to an unsigned one.
pub open spec fn zigzag(n: i32) -> nat {
    if n < 0 {
        (-2 * n - 1) as nat
    } else {
        (2 * n) as nat
    }
}

/// A byte string: its length, then its bytes.
pub open spec fn enc_bytes(b: Seq<u8>) -> Seq<u8> {
    varint(b.len() as nat) + b
}

/// An optional byte string: a tag byte 0 for none, 1 and the bytes for some.
pub open spec fn enc_opt_bytes(b: Option<Seq<u8>>) -> Seq<u8> {
    match b {
        None => seq![0u8],
        Some(x) => seq![1u8] + enc_bytes(x),
    }
}

/// Relies on bincode::encode_to_vec with the standard configuration, on a
/// `u64`: its variable-length little-endian integer encoding.
#[verifier::external_body]
pub(crate) fn encode_varint(n: u64) -> (r: Vec<u8>)
    ensures
        r@ == varint(n as nat),
{
    bincode::encode_to_vec(n, config::standard()).unwrap()
}

/// Relies on bincode::encode_to_vec with the standard configuration, on an
/// `i32`: the zigzag map, then the variable-length integer encoding.
#[verifier::external_body]
pub(crate) fn encode_zigzag(n: i32) -> (r: Vec<u8>)
    ensures
        r@ == varint(zigzag(n)),
{
    bincode::encode_to_vec(n, config::standard()).unwrap()
}

/// Relies on bincode::decode_from_slice with the standard configuration, as
/// a `u64`: the value read from the front of the bytes and how many bytes it
/// took, or an error where the bytes end early or start with no valid marker.
#[verifier::external_body]
pub(crate) fn decode_varint(bytes: &[u8]) -> (r: Result<(u64, usize), DecodeError>)
    ensures
        match r {
            Ok((v, k)) => read_varint(bytes@) == Some((v as nat, k as nat)),
            Err(_) => read_varint(bytes@) is None,
        },
{
    bincode::decode_from_slice::<u64, _>(bytes, config::standard())
}

/// Appends the bytes of `b` to `out`.
pub fn push_all(out: &mut Vec<u8>, b: &[u8])
    ensures
        final(out)@ == old(out)@ + b@,
{
    let mut i: usize = 0;
    while i < b.len()
        invariant
            i <= b@.len(),
            out@ == old(out)@ + b@.subrange(0, i as int),
        decreases b@.len() - i,
    {
        out.push(b[i]);
        i = i + 1;
        proof {
            assert(b@.subrange(0, i as int) == b@.subrange(0, i - 1) + seq![b@[i - 1]]);
        }
    }
    proof {
        assert(b@.subrange(0, b@.len() as int) == b@);
    }
}

/// Appends the encoding of an unsigned integer to `out`.
pub fn push_varint(out: &mut Vec<u8>, n: u64)
    ensures
        final(out)@ == old(out)@ + varint(n as nat),
{
    let mut e = encode_varint(n);
    out.append(&mut e);
}

/// Appends the encoding of a byte string to `out`.
pub fn push_bytes(out: &mut Vec<u8>, b: &[u8])
    ensures
        final(out)@ == old(out)@ + enc_bytes(b@),
{
    push_varint(out, b.len() as u64);
    push_all(out, b);
    proof {
        assert(old(out)@ + varint(b@.len() as nat) + b@ == old(out)@ + enc_bytes(b@));
    }
}

/// Appends the encoding of an optional byte string to `out`.
pub fn push_opt_bytes(out: &mut Vec<u8>, b: &Option<Vec<u8>>)
    ensures
        final(out)@ == old(out)@ + enc_opt_bytes(match b {
            None => None,
            Some(x) => Some(x@),
        }),
{
    match b {
        None => {
            out.push(0u8);
        },
        Some(x) => {
            out.push(1u8);
            push_bytes(out, x.as_slice());
            proof {
                assert(old(out)@ + seq![1u8] + enc_bytes(x@) == old(out)@ + (seq![1u8] + enc_bytes(x@)));
            }
        },
    }
}


/// Appends the encoding of a signed integer to `out`.
pub fn push_zigzag(out: &mut Vec<u8>, n: i32)
    ensures
        final(out)@ == old(out)@ + varint(zigzag(n)),
{
    let mut e = encode_zigzag(n);
    out.append(&mut e);
}


/// Whether the bytes of `a` from `pos` on begin with all of `b`.
fn starts_with_at(a: &[u8], pos: usize, b: &[u8]) -> (r: bool)
    requires
        pos <= a@.len(),
    ensures
        r == (pos + b@.len() <= a@.len() && a@.subrange(pos as int, pos + b@.len()) == b@),
{
    if b.len() > a.len() - pos {
        return false;
    }
    let n = a.len();
    let mut i: usize = 0;
    while i < b.len()
        invariant
            n == a@.len(),
            pos + b@.len() <= a@.len(),
            i <= b@.len(),
            forall|j: int| 0 <= j < i ==> a@[pos + j] == b@[j],
        decreases b@.len() - i,
    {
        if a[pos + i] != b[i] {
            proof {
                assert(a@.subrange(pos as int, pos + b@.len())[i as int] != b@[i as int]);
            }
            return false;
        }
        i = i + 1;
    }
    proof {
        assert(a@.subrange(pos as int, pos + b@.len()) =~= b@);
    }
    true
}

/// The bytes of `s` from `pos` on begin with `t`.
pub open spec fn begins_at(s: Seq<u8>, pos: int, t: Seq<u8>) -> bool {
    0 <= pos && pos + t.len() <= s.len() && s.subrange(pos, pos + t.len()) == t
}

/// Where two pieces begin at a place, the first begins there and the second
/// right after it.
pub proof fn lemma_begins_split(s: Seq<u8>, pos: int, a: Seq<u8>, b: Seq<u8>)
    requires
        begins_at(s, pos, a + b),
    ensures
        begins_at(s, pos, a),
        begins_at(s, pos + a.len(), b),
{
    let w = s.subrange(pos, pos + (a + b).len());
    assert(w == a + b);
    assert(s.subrange(pos, pos + a.len()) =~= w.subrange(0, a.len() as int));
    assert(w.subrange(0, a.len() as int) =~= a);
    assert(s.subrange(pos + a.len(), pos + a.len() + b.len()) =~= w.subrange(a.len() as int, w.len() as int));
    assert(w.subrange(a.len() as int, w.len() as int) =~= b);
}

/// Reads an unsigned integer in its shortest encoding from `bytes` at `pos`:
/// the value and the position after it. Where the encoding of a value
/// stands there, that value is read.
pub fn read_u64(bytes: &[u8], pos: usize) -> (r: Result<(u64, usize), ChainError>)
    requires
        pos <= bytes@.len(),
    ensures
        match r {
            Ok((v, next)) => pos < next <= bytes@.len() && bytes@.subrange(pos as int, next as int)
                == varint(v as nat),
            Err(e) => e == ChainError::Codec,
        },
        forall|n: nat|
            n <= u64::MAX && #[trigger] begins_at(bytes@, pos as int, varint(n)) ==> r == Ok::<
                (u64, usize),
                ChainError,
            >((n as u64, (pos + varint(n).len()) as usize)),
{
    let tail = slice_subrange(bytes, pos, bytes.len());
    let d = decode_varint(tail);
    proof {
        assert forall|n: nat| n <= u64::MAX && #[trigger] begins_at(bytes@, pos as int, varint(n)) implies d is Ok
            && d->Ok_0.0 == n by {
            let rest = bytes@.subrange(pos + varint(n).len(), bytes@.len() as int);
            assert(tail@ =~= varint(n) + rest);
            lemma_read_varint(n, rest);
        }
    }
    match d {
        Ok((v, _)) => {
            let e = encode_varint(v);
            if e.len() > 0 && starts_with_at(bytes, pos, e.as_slice()) {
                Ok((v, pos + e.len()))
            } else {
                Err(ChainError::Codec)
            }
        },
        Err(_) => Err(ChainError::Codec),
    }
}

/// Reads a byte string (its length, then its bytes) from `bytes` at `pos`.
/// Where the encoding of a byte string stands there, that string is read.
pub fn read_bytes(bytes: &[u8], pos: usize) -> (r: Result<(Vec<u8>, usize), ChainError>)
    requires
        pos <= bytes@.len(),
    ensures
        match r {
            Ok((v, next)) => pos < next <= bytes@.len() && bytes@.subrange(pos as int, next as int)
                == enc_bytes(v@),
            Err(e) => e == ChainError::Codec,
        },
        forall|b: Seq<u8>|
            b.len() <= u64::MAX && #[trigger] begins_at(bytes@, pos as int, enc_bytes(b)) ==> r is Ok
                && r->Ok_0.0@ == b && r->Ok_0.1 == pos + enc_bytes(b).len(),
{
    let r0 = read_u64(bytes, pos);
    proof {
        assert forall|b: Seq<u8>| b.len() <= u64::MAX && #[trigger] begins_at(bytes@, pos as int, enc_bytes(b)) implies begins_at(
            bytes@,
            pos as int,
            varint(b.len() as nat),
        ) && begins_at(bytes@, pos + varint(b.len() as nat).len(), b) by {
            lemma_begins_split(bytes@, pos as int, varint(b.len() as nat), b);
        }
    }
    match r0 {
        Err(e) => Err(e),
        Ok((n, start)) => {
            if n > (bytes.len() - start) as u64 {
                return Err(ChainError::Codec);
            }
            let end = start + n as usize;
            let v = slice_to_vec(slice_subrange(bytes, start, end));
            proof {
                assert(bytes@.subrange(pos as int, end as int) =~= bytes@.subrange(pos as int, start as int)
                    + bytes@.subrange(start as int, end as int));
            }
            Ok((v, end))
        },
    }
}

/// The view of an optional byte string.
pub open spec fn opt_view(o: Option<Vec<u8>>) -> Option<Seq<u8>> {
    match o {
        None => None,
        Some(x) => Some(x@),
    }
}

/// Reads an optional byte string from `bytes` at `pos`. Where the encoding
/// of one stands there, it is read.
pub fn read_opt_bytes(bytes: &[u8], pos: usize) -> (r: Result<(Option<Vec<u8>>, usize), ChainError>)
    requires
        pos <= bytes@.len(),
    ensures
        match r {
            Ok((v, next)) => pos < next <= bytes@.len() && bytes@.subrange(pos as int, next as int)
                == enc_opt_bytes(opt_view(v)),
            Err(e) => e == ChainError::Codec,
        },
        forall|b: Option<Seq<u8>>|
            (b is Some ==> b->0.len() <= u64::MAX) && #[trigger] begins_at(bytes@, pos as int, enc_opt_bytes(b))
                ==> r is Ok && opt_view(r->Ok_0.0) == b && r->Ok_0.1 == pos + enc_opt_bytes(b).len(),
{
    if pos >= bytes.len() {
        return Err(ChainError::Codec);
    }
    if bytes[pos] == 0 {
        proof {
            assert(bytes@.subrange(pos as int, pos + 1) =~= seq![0u8]);
            assert forall|b: Option<Seq<u8>>| #[trigger] begins_at(bytes@, pos as int, enc_opt_bytes(b)) implies b is None by {
                if b is Some {
                    assert(bytes@.subrange(pos as int, pos + enc_opt_bytes(b).len())[0] == 1u8);
                }
            }
        }
        Ok((None, pos + 1))
    } else if bytes[pos] == 1 {
        let r1 = read_bytes(bytes, pos + 1);
        proof {
            assert forall|b: Option<Seq<u8>>|
                (b is Some ==> b->0.len() <= u64::MAX) && #[trigger] begins_at(bytes@, pos as int, enc_opt_bytes(b))
                implies b is Some && begins_at(bytes@, pos + 1, enc_bytes(b->0)) by {
                if b is None {
                    assert(bytes@.subrange(pos as int, pos + 1)[0] == 0u8);
                } else {
                    lemma_begins_split(bytes@, pos as int, seq![1u8], enc_bytes(b->0));
                }
            }
        }
        match r1 {
            Err(e) => Err(e),
            Ok((x, next)) => {
                proof {
                    assert(bytes@.subrange(pos as int, next as int) =~= seq![1u8] + bytes@.subrange(
                        pos + 1,
                        next as int,
                    ));
                }
                Ok((Some(x), next))
            },
        }
    } else {
        proof {
            assert forall|b: Option<Seq<u8>>| #[trigger] begins_at(bytes@, pos as int, enc_opt_bytes(b)) implies false by {
                assert(bytes@.subrange(pos as int, pos + enc_opt_bytes(b).len())[0] == bytes@[pos as int]);
            }
        }
        Err(ChainError::Codec)
    }
}


/// Adjacent pieces of a sequence join into the piece that spans both.
pub proof fn lemma_subrange_join(s: Seq<u8>, a: int, b: int, c: int)
    requires
        0 <= a <= b <= c <= s.len(),
    ensures
        s.subrange(a, c) == s.subrange(a, b) + s.subrange(b, c),
{
    assert(s.subrange(a, c) =~= s.subrange(a, b) + s.subrange(b, c));
}


/// The low `k` bytes of a number below `256^k` spell it back.
pub proof fn lemma_le_round_trip(n: nat, k: nat)
    requires
        n < pow256(k),
    ensures
        le_bytes(n, k).len() == k,
        le_value(le_bytes(n, k)) == n,
    decreases k,
{
    if k > 0 {
        let p = pow256((k - 1) as nat);
        assert(n / 256 < p) by (nonlinear_arith)
            requires
                n < 256 * p,
        ;
        lemma_le_round_trip(n / 256, (k - 1) as nat);
        let s = le_bytes(n, k);
        assert(s.subrange(1, s.len() as int) =~= le_bytes(n / 256, (k - 1) as nat));
        assert(n == n % 256 + 256 * (n / 256)) by (nonlinear_arith);
    }
}

/// A reader of variable-length integers gets back every 64-bit value from
/// its encoding, whatever follows it.
pub proof fn lemma_read_varint(n: nat, rest: Seq<u8>)
    requires
        n <= u64::MAX,
    ensures
        read_varint(varint(n) + rest) == Some((n, varint(n).len())),
{
    reveal_with_fuel(pow256, 9);
    let s = varint(n) + rest;
    if n <= 250 {
    } else if n < 0x1_0000 {
        lemma_le_round_trip(n, 2);
        assert(s.subrange(1, 3) =~= le_bytes(n, 2));
    } else if n < 0x1_0000_0000 {
        lemma_le_round_trip(n, 4);
        assert(s.subrange(1, 5) =~= le_bytes(n, 4));
    } else {
        lemma_le_round_trip(n, 8);
        assert(s.subrange(1, 9) =~= le_bytes(n, 8));
    }
}

/// Distinct 64-bit values have distinct encodings.
pub proof fn lemma_varint_injective(a: nat, b: nat)
    requires
        a <= u64::MAX,
        b <= u64::MAX,
        varint(a) == varint(b),
    ensures
        a == b,
{
    lemma_read_varint(a, Seq::empty());
    lemma_read_varint(b, Seq::empty());
}


/// A string: the length of its UTF-8 bytes, then those bytes.
pub open spec fn enc_str(s: Seq<char>) -> Seq<u8> {
    enc_bytes(encode_utf8(s))
}

/// An optional string: a tag byte 0 for none, 1 and the string for some.
pub open spec fn enc_opt_str(s: Option<Seq<char>>) -> Seq<u8> {
    match s {
        None => seq![0u8],
        Some(x) => seq![1u8] + enc_str(x),
    }
}

/// Relies on std's String::from_utf8: it accepts exactly the valid UTF-8
/// byte sequences, and the string it returns is the text they encode.
#[verifier::external_body]
fn string_from_utf8(b: Vec<u8>) -> (r: Option<String>)
    ensures
        r is Some <==> valid_utf8(b@),
        r is Some ==> r->0@ == decode_utf8(b@),
{
    String::from_utf8(b).ok()
}

/// Reads a string from `bytes` at `pos`. Where the encoding of a string
/// stands there, that string is read.
pub fn read_str(bytes: &[u8], pos: usize) -> (r: Result<(String, usize), ChainError>)
    requires
        pos <= bytes@.len(),
    ensures
        match r {
            Ok((v, next)) => pos < next <= bytes@.len() && bytes@.subrange(pos as int, next as int)
                == enc_str(v@),
            Err(e) => e == ChainError::Codec,
        },
        forall|c: Seq<char>|
            encode_utf8(c).len() <= u64::MAX && #[trigger] begins_at(bytes@, pos as int, enc_str(c)) ==> r is Ok
                && r->Ok_0.0@ == c && r->Ok_0.1 == pos + enc_str(c).len(),
{
    let (b, next) = read_bytes(bytes, pos)?;
    let ghost bv = b@;
    proof {
        assert forall|c: Seq<char>| encode_utf8(c).len() <= u64::MAX && #[trigger] begins_at(bytes@, pos as int, enc_str(c)) implies bv == encode_utf8(c) && valid_utf8(bv) && decode_utf8(bv) == c by {
            encode_utf8_valid_utf8(c);
            encode_utf8_decode_utf8(c);
        }
    }
    match string_from_utf8(b) {
        None => Err(ChainError::Codec),
        Some(s) => {
            proof {
                decode_utf8_encode_utf8(bv);
            }
            Ok((s, next))
        },
    }
}

/// Reads an optional string from `bytes` at `pos`. Where the encoding of one
/// stands there, it is read.
pub fn read_opt_str(bytes: &[u8], pos: usize) -> (r: Result<(Option<String>, usize), ChainError>)
    requires
        pos <= bytes@.len(),
    ensures
        match r {
            Ok((v, next)) => pos < next <= bytes@.len() && bytes@.subrange(pos as int, next as int)
                == enc_opt_str(opt_str_view(v)),
            Err(e) => e == ChainError::Codec,
        },
        forall|c: Option<Seq<char>>|
            (c is Some ==> encode_utf8(c->0).len() <= u64::MAX) && #[trigger] begins_at(bytes@, pos as int, enc_opt_str(c))
                ==> r is Ok && opt_str_view(r->Ok_0.0) == c && r->Ok_0.1 == pos + enc_opt_str(c).len(),
{
    if pos >= bytes.len() {
        return Err(ChainError::Codec);
    }
    if bytes[pos] == 0 {
        proof {
            assert(bytes@.subrange(pos as int, pos + 1) =~= seq![0u8]);
            assert forall|c: Option<Seq<char>>| #[trigger] begins_at(bytes@, pos as int, enc_opt_str(c)) implies c is None by {
                if c is Some {
                    assert(bytes@.subrange(pos as int, pos + enc_opt_str(c).len())[0] == 1u8);
                }
            }
        }
        Ok((None, pos + 1))
    } else if bytes[pos] == 1 {
        let r1 = read_str(bytes, pos + 1);
        proof {
            assert forall|c: Option<Seq<char>>|
                (c is Some ==> encode_utf8(c->0).len() <= u64::MAX) && #[trigger] begins_at(bytes@, pos as int, enc_opt_str(c))
                implies c is Some && begins_at(bytes@, pos + 1, enc_str(c->0)) by {
                if c is None {
                    assert(bytes@.subrange(pos as int, pos + 1)[0] == 0u8);
                } else {
                    lemma_begins_split(bytes@, pos as int, seq![1u8], enc_str(c->0));
                }
            }
        }
        match r1 {
            Err(e) => Err(e),
            Ok((x, next)) => {
                proof {
                    assert(bytes@.subrange(pos as int, next as int) =~= seq![1u8] + bytes@.subrange(
                        pos + 1,
                        next as int,
                    ));
                }
                Ok((Some(x), next))
            },
        }
    } else {
        proof {
            assert forall|c: Option<Seq<char>>| #[trigger] begins_at(bytes@, pos as int, enc_opt_str(c)) implies false by {
                assert(bytes@.subrange(pos as int, pos + enc_opt_str(c).len())[0] == bytes@[pos as int]);
            }
        }
        Err(ChainError::Codec)
    }
}

/// The view of an optional string.
pub open spec fn opt_str_view(o: Option<String>) -> Option<Seq<char>> {
    match o {
        None => None,
        Some(x) => Some(x@),
    }
}

/// Reads a signed 32-bit integer in its zigzag form from `bytes` at `pos`.
/// Where the encoding of one stands there, it is read.
pub fn read_zigzag(bytes: &[u8], pos: usize) -> (r: Result<(i32, usize), ChainError>)
    requires
        pos <= bytes@.len(),
    ensures
        match r {
            Ok((v, next)) => pos < next <= bytes@.len() && bytes@.subrange(pos as int, next as int)
                == varint(zigzag(v)),
            Err(e) => e == ChainError::Codec,
        },
        forall|n: i32| #[trigger] begins_at(bytes@, pos as int, varint(zigzag(n))) ==> r == Ok::<
            (i32, usize),
            ChainError,
        >((n, (pos + varint(zigzag(n)).len()) as usize)),
{
    let (z, next) = read_u64(bytes, pos)?;
    if z > u32::MAX as u64 {
        return Err(ChainError::Codec);
    }
    let half = (z / 2) as i64;
    let v: i64 = if z % 2 == 0 { half } else { -half - 1 };
    proof {
        assert(zigzag(v as i32) == z);
        assert forall|n: i32| #[trigger] begins_at(bytes@, pos as int, varint(zigzag(n))) implies n == v by {
            assert(zigzag(n) == z);
        }
    }
    Ok((v as i32, next))
}

} // verus!
