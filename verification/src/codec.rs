//! The binary wire codec for hstore values.
//!
//! A transported map value consists of a 4-byte big-endian signed entry
//! count followed by that many entries; each entry is a length-prefixed
//! UTF-8 key, then a length-prefixed UTF-8 value, where a negative value
//! length stands for SQL null and carries no value bytes. The spec
//! functions here define the format once; the decoder and encoder are
//! proved against them, including the round-trip law.

use vstd::prelude::*;
use vstd::slice::{slice_subrange, slice_to_vec};
use vstd::utf8::{
    decode_utf8, encode_utf8, encode_utf8_decode_utf8, encode_utf8_valid_utf8, valid_utf8,
};

use crate::map::{map_extended, seq_to_map, Hstore};
use crate::wire::{
    be_bytes, be_i32, lemma_be_bytes_round_trip, lemma_be_bytes_signed, push_be_u32, read_be_u32,
};

verus! {

/// Why a byte buffer failed to decode as an hstore value.
#[derive(Clone, Copy, Debug, PartialEq, Eq, Structural)]
pub enum DecodeError {
    /// The declared entry count is negative.
    InvalidEntryCount,
    /// A key-length prefix is negative.
    InvalidKeyLength,
    /// Fewer bytes remain than a length prefix promises.
    TruncatedBuffer,
    /// Key or value bytes are not valid UTF-8.
    InvalidUtf8,
    /// Bytes remain after the declared entries are consumed.
    InvalidBufferSize,
}

/// Decodes `n` wire entries from `b` into the accumulator `m`; the buffer
/// must be exactly exhausted afterwards. An entry whose value length is
/// negative denotes SQL null and is dropped; a later entry with the same
/// key as an earlier one overwrites it.
pub open spec fn spec_decode_entries(
    b: Seq<u8>,
    n: nat,
    m: Map<Seq<char>, Seq<char>>,
) -> Result<Map<Seq<char>, Seq<char>>, DecodeError>
    decreases n,
{
    if n == 0 {
        if b.len() == 0 {
            Ok(m)
        } else {
            Err(DecodeError::InvalidBufferSize)
        }
    } else if b.len() < 4 {
        Err(DecodeError::TruncatedBuffer)
    } else {
        let klen = be_i32(b.take(4));
        if klen < 0 {
            Err(DecodeError::InvalidKeyLength)
        } else if b.len() - 4 < klen {
            Err(DecodeError::TruncatedBuffer)
        } else {
            let kb = b.subrange(4, 4 + klen);
            if !valid_utf8(kb) {
                Err(DecodeError::InvalidUtf8)
            } else {
                let rest = b.skip(4 + klen);
                if rest.len() < 4 {
                    Err(DecodeError::TruncatedBuffer)
                } else {
                    let vlen = be_i32(rest.take(4));
                    if vlen < 0 {
                        spec_decode_entries(rest.skip(4), (n - 1) as nat, m)
                    } else if rest.len() - 4 < vlen {
                        Err(DecodeError::TruncatedBuffer)
                    } else {
                        let vb = rest.subrange(4, 4 + vlen);
                        if !valid_utf8(vb) {
                            Err(DecodeError::InvalidUtf8)
                        } else {
                            spec_decode_entries(
                                rest.skip(4 + vlen),
                                (n - 1) as nat,
                                m.insert(decode_utf8(kb), decode_utf8(vb)),
                            )
                        }
                    }
                }
            }
        }
    }
}

/// The map encoded by `b`, or the reason `b` is malformed.
pub open spec fn spec_decode(b: Seq<u8>) -> Result<Map<Seq<char>, Seq<char>>, DecodeError> {
    if b.len() < 4 {
        Err(DecodeError::TruncatedBuffer)
    } else if be_i32(b.take(4)) < 0 {
        Err(DecodeError::InvalidEntryCount)
    } else {
        spec_decode_entries(b.skip(4), be_i32(b.take(4)) as nat, Map::empty())
    }
}

/// The wire bytes of one entry: length-prefixed key, length-prefixed value.
pub open spec fn spec_encode_entry(e: (Seq<char>, Seq<char>)) -> Seq<u8> {
    be_bytes(encode_utf8(e.0).len() as u32) + encode_utf8(e.0) + be_bytes(
        encode_utf8(e.1).len() as u32,
    ) + encode_utf8(e.1)
}

/// The wire bytes of a run of entries, first to last.
pub open spec fn spec_encode_entries(s: Seq<(Seq<char>, Seq<char>)>) -> Seq<u8>
    decreases s.len(),
{
    if s.len() == 0 {
        Seq::empty()
    } else {
        spec_encode_entry(s[0]) + spec_encode_entries(s.drop_first())
    }
}

/// Both strings of the entry fit a non-negative 32-bit length prefix.
pub open spec fn entry_fits(e: (Seq<char>, Seq<char>)) -> bool {
    encode_utf8(e.0).len() <= 0x7fff_ffff && encode_utf8(e.1).len() <= 0x7fff_ffff
}

/// The entry count and every length of `s` fit their 32-bit prefixes.
pub open spec fn entries_fit(s: Seq<(Seq<char>, Seq<char>)>) -> bool {
    s.len() <= 0x7fff_ffff && forall|i: int| 0 <= i < s.len() ==> entry_fits(#[trigger] s[i])
}

/// The full wire image of a run of entries: count, then the entries.
pub open spec fn spec_encode(s: Seq<(Seq<char>, Seq<char>)>) -> Seq<u8> {
    be_bytes(s.len() as u32) + spec_encode_entries(s)
}

/// Appending one entry extends the encoded bytes at the end.
proof fn lemma_encode_entries_push(s: Seq<(Seq<char>, Seq<char>)>, e: (Seq<char>, Seq<char>))
    ensures
        spec_encode_entries(s.push(e)) == spec_encode_entries(s) + spec_encode_entry(e),
    decreases s.len(),
{
    let sp = s.push(e);
    if s.len() == 0 {
        assert(sp[0] == e);
        assert(sp.drop_first() =~= Seq::<(Seq<char>, Seq<char>)>::empty());
        assert(spec_encode_entries(sp.drop_first()) == Seq::<u8>::empty());
        assert(spec_encode_entries(sp) =~= spec_encode_entry(e));
        assert(spec_encode_entries(s) + spec_encode_entry(e) =~= spec_encode_entry(e));
    } else {
        assert(sp[0] == s[0]);
        assert(sp.drop_first() =~= s.drop_first().push(e));
        lemma_encode_entries_push(s.drop_first(), e);
        assert(spec_encode_entry(s[0]) + (spec_encode_entries(s.drop_first())
            + spec_encode_entry(e)) =~= (spec_encode_entry(s[0]) + spec_encode_entries(
            s.drop_first(),
        )) + spec_encode_entry(e));
    }
}

/// Round-trip law for entry runs: decoding what was encoded yields exactly
/// the encoded pairs, folded into the accumulator.
proof fn lemma_decode_encode_entries(s: Seq<(Seq<char>, Seq<char>)>, m: Map<Seq<char>, Seq<char>>)
    requires
        entries_fit(s),
    ensures
        spec_decode_entries(spec_encode_entries(s), s.len(), m) == Ok::<
            Map<Seq<char>, Seq<char>>,
            DecodeError,
        >(map_extended(m, s)),
    decreases s.len(),
{
    broadcast use encode_utf8_valid_utf8, encode_utf8_decode_utf8;

    if s.len() == 0 {
    } else {
        let e = s[0];
        let kb = encode_utf8(e.0);
        let vb = encode_utf8(e.1);
        let tail = spec_encode_entries(s.drop_first());
        let b = spec_encode_entries(s);
        assert(b == spec_encode_entry(e) + tail);
        lemma_be_bytes_round_trip(kb.len() as u32);
        lemma_be_bytes_round_trip(vb.len() as u32);
        lemma_be_bytes_signed(kb.len() as u32);
        lemma_be_bytes_signed(vb.len() as u32);
        assert(b.take(4) =~= be_bytes(kb.len() as u32));
        assert(be_i32(b.take(4)) == kb.len());
        assert(b.len() == 8 + kb.len() + vb.len() + tail.len());
        assert(b.subrange(4, 4 + kb.len() as int) =~= kb);
        let rest = b.skip(4 + kb.len() as int);
        assert(rest =~= be_bytes(vb.len() as u32) + vb + tail);
        assert(rest.take(4) =~= be_bytes(vb.len() as u32));
        assert(be_i32(rest.take(4)) == vb.len());
        assert(rest.subrange(4, 4 + vb.len() as int) =~= vb);
        assert(rest.skip(4 + vb.len() as int) =~= tail);
        let t = s.drop_first();
        assert(forall|i: int| 0 <= i < t.len() ==> t[i] == s[i + 1]);
        assert(entries_fit(t));
        lemma_decode_encode_entries(t, m.insert(e.0, e.1));
        assert(map_extended(m, s) == map_extended(m.insert(e.0, e.1), t));
    }
}

/// Round-trip law: the wire image of any run of pairs whose lengths fit
/// the format decodes to exactly the map those pairs describe.
pub proof fn lemma_decode_encode(s: Seq<(Seq<char>, Seq<char>)>)
    requires
        entries_fit(s),
    ensures
        spec_decode(spec_encode(s)) == Ok::<Map<Seq<char>, Seq<char>>, DecodeError>(seq_to_map(s)),
{
    let b = spec_encode(s);
    lemma_be_bytes_round_trip(s.len() as u32);
    lemma_be_bytes_signed(s.len() as u32);
    assert(b.take(4) =~= be_bytes(s.len() as u32));
    assert(be_i32(b.take(4)) == s.len());
    assert(b.skip(4) =~= spec_encode_entries(s));
    lemma_decode_encode_entries(s, Map::empty());
}

/// Relies on `String::from_utf8`: it returns the string decoded from the
/// bytes exactly when they are valid UTF-8, and fails otherwise.
#[verifier::external_body]
fn utf8_to_string(bytes: Vec<u8>) -> (r: Option<String>)
    ensures
        r is Some <==> valid_utf8(bytes@),
        r matches Some(s) ==> s@ == decode_utf8(bytes@),
{
    String::from_utf8(bytes).ok()
}

/// Decodes one wire buffer into a map.
///
/// Succeeds exactly on well-formed buffers; every malformed buffer is
/// rejected with the error kind that `spec_decode` assigns to it. Entries
/// whose value length is negative (SQL null) are dropped; a later entry
/// with a repeated key overwrites the earlier one.
pub fn decode(buf: &[u8]) -> (r: Result<Hstore, DecodeError>)
    ensures
        match r {
            Ok(h) => h.wf() && spec_decode(buf@) == Ok::<Map<Seq<char>, Seq<char>>, DecodeError>(
                h@,
            ),
            Err(e) => spec_decode(buf@) == Err::<Map<Seq<char>, Seq<char>>, DecodeError>(e),
        },
{
    let len = buf.len();
    if len < 4 {
        return Err(DecodeError::TruncatedBuffer);
    }
    let count = read_be_u32(buf, 0);
    proof {
        assert(buf@.take(4) =~= buf@.subrange(0, 4));
    }
    if count >= 0x8000_0000u32 {
        return Err(DecodeError::InvalidEntryCount);
    }
    let mut remaining: usize = count as usize;
    let mut pos: usize = 4;
    let mut h = Hstore::new();
    proof {
        assert(buf@.skip(4) =~= buf@.skip(pos as int));
    }
    while remaining > 0
        invariant
            h.wf(),
            4 <= pos <= len,
            len == buf@.len(),
            spec_decode(buf@) == spec_decode_entries(
                buf@.skip(pos as int),
                remaining as nat,
                h@,
            ),
        decreases remaining,
    {
        let ghost b = buf@.skip(pos as int);
        let ghost n = remaining as nat;
        let ghost m = h@;
        assert(b.len() == len - pos);
        if len - pos < 4 {
            return Err(DecodeError::TruncatedBuffer);
        }
        let kl = read_be_u32(buf, pos);
        proof {
            assert(b.take(4) =~= buf@.subrange(pos as int, pos as int + 4));
        }
        if kl >= 0x8000_0000u32 {
            return Err(DecodeError::InvalidKeyLength);
        }
        proof {
            assert(be_i32(b.take(4)) == kl);
        }
        let klen = kl as usize;
        if len - (pos + 4) < klen {
            return Err(DecodeError::TruncatedBuffer);
        }
        let kslice = slice_subrange(buf, pos + 4, pos + 4 + klen);
        proof {
            assert(kslice@ =~= b.subrange(4, 4 + klen as int));
        }
        let kvec = slice_to_vec(kslice);
        let k = match utf8_to_string(kvec) {
            Some(s) => s,
            None => {
                return Err(DecodeError::InvalidUtf8);
            },
        };
        let pos2 = pos + 4 + klen;
        let ghost rest = b.skip(4 + klen as int);
        proof {
            assert(rest =~= buf@.skip(pos2 as int));
        }
        if len - pos2 < 4 {
            return Err(DecodeError::TruncatedBuffer);
        }
        let vl = read_be_u32(buf, pos2);
        proof {
            assert(rest.take(4) =~= buf@.subrange(pos2 as int, pos2 as int + 4));
        }
        if vl >= 0x8000_0000u32 {
            // SQL null: the entry carries no value bytes and is dropped.
            pos = pos2 + 4;
            remaining = remaining - 1;
            proof {
                assert(rest.skip(4) =~= buf@.skip(pos as int));
            }
        } else {
            proof {
                assert(be_i32(rest.take(4)) == vl);
            }
            let vlen = vl as usize;
            if len - (pos2 + 4) < vlen {
                return Err(DecodeError::TruncatedBuffer);
            }
            let vslice = slice_subrange(buf, pos2 + 4, pos2 + 4 + vlen);
            proof {
                assert(vslice@ =~= rest.subrange(4, 4 + vlen as int));
            }
            let vvec = slice_to_vec(vslice);
            let v = match utf8_to_string(vvec) {
                Some(s) => s,
                None => {
                    return Err(DecodeError::InvalidUtf8);
                },
            };
            h.insert(k, v);
            pos = pos2 + 4 + vlen;
            remaining = remaining - 1;
            proof {
                assert(rest.skip(4 + vlen as int) =~= buf@.skip(pos as int));
            }
        }
    }
    if pos != len {
        proof {
            assert(buf@.skip(pos as int).len() != 0);
        }
        return Err(DecodeError::InvalidBufferSize);
    }
    proof {
        assert(buf@.skip(pos as int).len() == 0);
    }
    Ok(h)
}

/// Encodes the map into its wire image.
///
/// The entry count and every key and value length are proved to fit their
/// 32-bit prefixes by the precondition; the produced bytes decode back to
/// exactly this map.
pub fn encode(h: &Hstore) -> (r: Vec<u8>)
    requires
        h.wf(),
        entries_fit(h.kv_seq()),
    ensures
        r@ == spec_encode(h.kv_seq()),
        spec_decode(r@) == Ok::<Map<Seq<char>, Seq<char>>, DecodeError>(h@),
{
    let ghost kv = h.kv_seq();
    let items = h.iter();
    let n = items.len();
    proof {
        assert(n == kv.len());
    }
    let mut out: Vec<u8> = Vec::new();
    push_be_u32(&mut out, n as u32);
    let mut i: usize = 0;
    while i < n
        invariant
            n == items@.len(),
            i <= n,
            crate::map::pairs_view(items@) == kv,
            entries_fit(kv),
            out@ == be_bytes(kv.len() as u32) + spec_encode_entries(kv.take(i as int)),
        decreases n - i,
    {
        let kbytes: &[u8] = items[i].0.as_str().as_bytes();
        let klen = kbytes.len();
        proof {
            assert(kbytes@ == encode_utf8(kv[i as int].0));
            assert(entry_fits(kv[i as int]));
        }
        push_be_u32(&mut out, klen as u32);
        out.extend_from_slice(kbytes);
        let vbytes: &[u8] = items[i].1.as_str().as_bytes();
        let vlen = vbytes.len();
        proof {
            assert(vbytes@ == encode_utf8(kv[i as int].1));
        }
        push_be_u32(&mut out, vlen as u32);
        out.extend_from_slice(vbytes);
        proof {
            assert(kv.take(i as int).push(kv[i as int]) =~= kv.take(i as int + 1));
            lemma_encode_entries_push(kv.take(i as int), kv[i as int]);
            assert(out@ =~= be_bytes(kv.len() as u32) + spec_encode_entries(
                kv.take(i as int + 1),
            ));
        }
        i = i + 1;
    }
    proof {
        assert(kv.take(n as int) =~= kv);
        lemma_decode_encode(kv);
    }
    out
}

/// Encodes the map if every length fits the wire format, and reports the
/// oversized map otherwise instead of producing a malformed image.
pub fn encode_checked(h: &Hstore) -> (r: Option<Vec<u8>>)
    requires
        h.wf(),
    ensures
        entries_fit(h.kv_seq()) ==> (r matches Some(b) && b@ == spec_encode(h.kv_seq())
            && spec_decode(b@) == Ok::<Map<Seq<char>, Seq<char>>, DecodeError>(h@)),
        !entries_fit(h.kv_seq()) ==> r is None,
{
    let ghost kv = h.kv_seq();
    let items = h.iter();
    let n = items.len();
    proof {
        assert(kv.len() == items@.len());
    }
    if n > 0x7fff_ffff {
        return None;
    }
    let mut i: usize = 0;
    while i < n
        invariant
            n == items@.len(),
            i <= n,
            kv == h.kv_seq(),
            n <= 0x7fff_ffff,
            crate::map::pairs_view(items@) == kv,
            forall|j: int| 0 <= j < i ==> entry_fits(#[trigger] kv[j]),
        decreases n - i,
    {
        let kbytes: &[u8] = items[i].0.as_str().as_bytes();
        let vbytes: &[u8] = items[i].1.as_str().as_bytes();
        proof {
            assert(kbytes@ == encode_utf8(kv[i as int].0));
            assert(vbytes@ == encode_utf8(kv[i as int].1));
        }
        if kbytes.len() > 0x7fff_ffff || vbytes.len() > 0x7fff_ffff {
            proof {
                assert(!entry_fits(kv[i as int]));
            }
            return None;
        }
        proof {
            assert(entry_fits(kv[i as int]));
        }
        i = i + 1;
    }
    proof {
        assert(entries_fit(kv));
    }
    Some(encode(h))
}

} // verus!
