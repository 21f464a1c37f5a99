//! The persisted snapshot artifact: a fixed binary encoding of a snapshot
//! that round-trips byte-exactly.
//!
//! Layout: an eight-byte little-endian entry count, then per entry an
//! eight-byte little-endian name length, the name bytes, an eight-byte
//! little-endian value length, and the value bytes, with the entries in
//! the snapshot's strictly sorted name order.  Decoding rejects anything
//! else.

use vstd::prelude::*;
use vstd::bytes::lemma_auto_spec_u64_to_from_le_bytes;
use vstd::bytes::spec_u64_from_le_bytes;
use vstd::bytes::spec_u64_to_le_bytes;
use vstd::bytes::u64_from_le_bytes;
use vstd::bytes::u64_to_le_bytes;
use vstd::slice::slice_subrange;
use vstd::slice::slice_to_vec;
use crate::bytes::bytes_lt;
use crate::bytes::lemma_lex_lt_transitive;
use crate::bytes::lex_lt;
use crate::snapshot::entries_sorted;
use crate::snapshot::seq_model;
use crate::snapshot::EnvEntry;
use crate::snapshot::SavedEnvironment;
use crate::SerenvError;

verus! {

/// The bytes that encode one entry.
pub open spec fn encode_entry(e: (Seq<u8>, Seq<u8>)) -> Seq<u8> {
    spec_u64_to_le_bytes(e.0.len() as u64) + e.0 + spec_u64_to_le_bytes(e.1.len() as u64) + e.1
}

/// The bytes that encode an entry sequence, in order.
pub open spec fn encode_entries(s: Seq<(Seq<u8>, Seq<u8>)>) -> Seq<u8>
    decreases s.len(),
{
    if s.len() == 0 {
        Seq::empty()
    } else {
        encode_entry(s[0]) + encode_entries(s.skip(1))
    }
}

/// The whole artifact: the entry count, then the entries.
pub open spec fn encode_spec(s: Seq<(Seq<u8>, Seq<u8>)>) -> Seq<u8> {
    spec_u64_to_le_bytes(s.len() as u64) + encode_entries(s)
}

/// Parse exactly `n` entries, consuming all of `b`; `None` on any
/// mismatch.
pub open spec fn parse_entries(b: Seq<u8>, n: int) -> Option<Seq<(Seq<u8>, Seq<u8>)>>
    decreases n,
{
    if n <= 0 {
        if n == 0 && b.len() == 0 {
            Some(Seq::empty())
        } else {
            None
        }
    } else if b.len() < 8 {
        None
    } else {
        let klen = spec_u64_from_le_bytes(b.take(8)) as int;
        let r1 = b.skip(8);
        if r1.len() < klen {
            None
        } else {
            let key = r1.take(klen);
            let r2 = r1.skip(klen);
            if r2.len() < 8 {
                None
            } else {
                let vlen = spec_u64_from_le_bytes(r2.take(8)) as int;
                let r3 = r2.skip(8);
                if r3.len() < vlen {
                    None
                } else {
                    match parse_entries(r3.skip(vlen), n - 1) {
                        Some(tail) => Some(seq![(key, r3.take(vlen))] + tail),
                        None => None,
                    }
                }
            }
        }
    }
}

/// What an artifact decodes to: the parsed entries, provided they are
/// strictly sorted by name; `None` on any malformed input.
pub open spec fn decode_spec(b: Seq<u8>) -> Option<Seq<(Seq<u8>, Seq<u8>)>> {
    if b.len() < 8 {
        None
    } else {
        match parse_entries(b.skip(8), spec_u64_from_le_bytes(b.take(8)) as int) {
            Some(entries) => if entries_sorted(entries) {
                Some(entries)
            } else {
                None
            },
            None => None,
        }
    }
}

proof fn lemma_encode_entries_concat(a: Seq<(Seq<u8>, Seq<u8>)>, b: Seq<(Seq<u8>, Seq<u8>)>)
    ensures
        encode_entries(a + b) == encode_entries(a) + encode_entries(b),
    decreases a.len(),
{
    if a.len() == 0 {
        assert(a + b =~= b);
        assert(encode_entries(a) + encode_entries(b) =~= encode_entries(b));
    } else {
        assert((a + b)[0] == a[0]);
        assert((a + b).skip(1) =~= a.skip(1) + b);
        lemma_encode_entries_concat(a.skip(1), b);
        assert(encode_entries(a + b) =~= encode_entries(a) + encode_entries(b));
    }
}

/// Parsing inverts encoding, entry count and all.
proof fn lemma_parse_encode_entries(s: Seq<(Seq<u8>, Seq<u8>)>)
    requires
        forall|i: int|
            0 <= i < s.len() ==> (#[trigger] s[i]).0.len() < 0x1_0000_0000_0000_0000 && s[i].1.len()
                < 0x1_0000_0000_0000_0000,
    ensures
        parse_entries(encode_entries(s), s.len() as int) == Some(s),
    decreases s.len(),
{
    lemma_auto_spec_u64_to_from_le_bytes();
    if s.len() == 0 {
        assert(encode_entries(s).len() == 0);
    } else {
        let key = s[0].0;
        let value = s[0].1;
        let kb = spec_u64_to_le_bytes(key.len() as u64);
        let vb = spec_u64_to_le_bytes(value.len() as u64);
        let rest = encode_entries(s.skip(1));
        let b = encode_entries(s);
        assert(b =~= kb + key + vb + value + rest);
        assert(b.take(8) =~= kb);
        assert(spec_u64_from_le_bytes(kb) == key.len() as u64);
        let r1 = b.skip(8);
        assert(r1 =~= key + vb + value + rest);
        assert(r1.take(key.len() as int) =~= key);
        let r2 = r1.skip(key.len() as int);
        assert(r2 =~= vb + value + rest);
        assert(r2.take(8) =~= vb);
        assert(spec_u64_from_le_bytes(vb) == value.len() as u64);
        let r3 = r2.skip(8);
        assert(r3 =~= value + rest);
        assert(r3.take(value.len() as int) =~= value);
        assert(r3.skip(value.len() as int) =~= rest);
        assert forall|i: int| 0 <= i < s.skip(1).len() implies (#[trigger] s.skip(1)[i]).0.len()
            < 0x1_0000_0000_0000_0000 && s.skip(1)[i].1.len() < 0x1_0000_0000_0000_0000 by {
            assert(s.skip(1)[i] == s[i + 1]);
        }
        lemma_parse_encode_entries(s.skip(1));
        assert(seq![(key, value)] + s.skip(1) =~= s);
    }
}

/// Round-trip: a well-formed snapshot's artifact decodes to exactly the
/// snapshot's entries.
pub proof fn lemma_round_trip(s: SavedEnvironment)
    requires
        s.wf(),
        s.entries_view().len() < 0x1_0000_0000_0000_0000,
        forall|i: int|
            0 <= i < s.entries_view().len() ==> (#[trigger] s.entries_view()[i]).0.len()
                < 0x1_0000_0000_0000_0000 && s.entries_view()[i].1.len()
                < 0x1_0000_0000_0000_0000,
    ensures
        decode_spec(encode_spec(s.entries_view())) == Some(s.entries_view()),
{
    lemma_auto_spec_u64_to_from_le_bytes();
    let sv = s.entries_view();
    let b = encode_spec(sv);
    assert(b.take(8) =~= spec_u64_to_le_bytes(sv.len() as u64));
    assert(b.skip(8) =~= encode_entries(sv));
    lemma_parse_encode_entries(sv);
}

/// Strictly increasing adjacent names make the whole sequence sorted.
proof fn lemma_chain(s: Seq<(Seq<u8>, Seq<u8>)>, i: int, j: int)
    requires
        forall|q: int| 0 <= q < s.len() - 1 ==> lex_lt((#[trigger] s[q]).0, s[q + 1].0),
        0 <= i < j < s.len(),
    ensures
        lex_lt(s[i].0, s[j].0),
    decreases j - i,
{
    if j == i + 1 {
        assert(lex_lt(s[i].0, s[i + 1].0));
    } else {
        lemma_chain(s, i, j - 1);
        assert(lex_lt(s[j - 1].0, s[j - 1 + 1].0));
        lemma_lex_lt_transitive(s[i].0, s[j - 1].0, s[j].0);
    }
}

proof fn lemma_adjacent_sorted(s: Seq<(Seq<u8>, Seq<u8>)>)
    requires
        forall|q: int| 0 <= q < s.len() - 1 ==> lex_lt((#[trigger] s[q]).0, s[q + 1].0),
    ensures
        entries_sorted(s),
{
    assert forall|i: int, j: int| 0 <= i < j < s.len() implies lex_lt(s[i].0, s[j].0) by {
        lemma_chain(s, i, j);
    }
}

impl SavedEnvironment {
    /// Serialize this snapshot into its artifact bytes.
    pub fn encode(&self) -> (out: Vec<u8>)
        requires
            self.wf(),
        ensures
            out@ == encode_spec(self.entries_view()),
    {
        let ghost sv = self.entries_view();
        let n: usize = self.entries.len();
        let mut out: Vec<u8> = u64_to_le_bytes(n as u64);
        let mut i: usize = 0;
        proof {
            assert(sv.take(0) =~= Seq::<(Seq<u8>, Seq<u8>)>::empty());
            assert(out@ =~= spec_u64_to_le_bytes(n as u64) + encode_entries(sv.take(0)));
        }
        while i < n
            invariant
                n == self.entries.len(),
                sv == self.entries_view(),
                i <= n,
                out@ == spec_u64_to_le_bytes(n as u64) + encode_entries(sv.take(i as int)),
            decreases n - i,
        {
            let ghost before = out@;
            proof {
                assert(sv[i as int] == (self.entries@[i as int].name@,
                self.entries@[i as int].value@));
            }
            let kb = u64_to_le_bytes(self.entries[i].name.len() as u64);
            out.extend_from_slice(kb.as_slice());
            out.extend_from_slice(self.entries[i].name.as_slice());
            let vb = u64_to_le_bytes(self.entries[i].value.len() as u64);
            out.extend_from_slice(vb.as_slice());
            out.extend_from_slice(self.entries[i].value.as_slice());
            proof {
                assert(out@ =~= before + encode_entry(sv[i as int]));
                let single = seq![sv[i as int]];
                assert(single.skip(1) =~= Seq::<(Seq<u8>, Seq<u8>)>::empty());
                assert(encode_entries(Seq::<(Seq<u8>, Seq<u8>)>::empty()) =~= Seq::<u8>::empty());
                assert(encode_entries(single) =~= encode_entry(sv[i as int]));
                lemma_encode_entries_concat(sv.take(i as int), single);
                assert(sv.take(i + 1) =~= sv.take(i as int) + single);
                assert(out@ =~= spec_u64_to_le_bytes(n as u64) + encode_entries(sv.take(i + 1)));
            }
            i = i + 1;
        }
        proof {
            assert(sv.take(n as int) =~= sv);
        }
        out
    }

    /// Deserialize an artifact; `Ok` exactly when the bytes are a valid
    /// encoding of a well-formed snapshot.
    pub fn decode(bytes: &Vec<u8>) -> (r: Result<SavedEnvironment, SerenvError>)
        ensures
            match r {
                Ok(snap) => snap.wf() && decode_spec(bytes@) == Some(snap.entries_view()),
                Err(e) => e == SerenvError::DecodingError && decode_spec(bytes@) is None,
            },
    {
        if bytes.len() < 8 {
            return Err(SerenvError::DecodingError);
        }
        let count: u64 = u64_from_le_bytes(slice_subrange(bytes.as_slice(), 0, 8));
        proof {
            assert(bytes@.subrange(0, 8) =~= bytes@.take(8));
        }
        let mut entries: Vec<EnvEntry> = Vec::new();
        let mut pos: usize = 8;
        let mut i: u64 = 0;
        proof {
            assert(seq_model(entries@) =~= Seq::<(Seq<u8>, Seq<u8>)>::empty());
            assert(seq_model(entries@) + Seq::<(Seq<u8>, Seq<u8>)>::empty() =~= seq_model(
                entries@,
            ));
        }
        while i < count
            invariant
                bytes@.len() >= 8,
                count == spec_u64_from_le_bytes(bytes@.take(8)),
                8 <= pos <= bytes@.len(),
                i <= count,
                seq_model(entries@).len() == i as int,
                forall|q: int|
                    0 <= q < seq_model(entries@).len() - 1 ==> lex_lt(
                        (#[trigger] seq_model(entries@)[q]).0,
                        seq_model(entries@)[q + 1].0,
                    ),
                parse_entries(bytes@.skip(8), count as int) == (match parse_entries(
                    bytes@.skip(pos as int),
                    count - i,
                ) {
                    Some(rest) => Some(seq_model(entries@) + rest),
                    None => None,
                }),
            decreases count - i,
        {
            let ghost tail = bytes@.skip(pos as int);
            if bytes.len() - pos < 8 {
                return Err(SerenvError::DecodingError);
            }
            let klen64: u64 = u64_from_le_bytes(slice_subrange(bytes.as_slice(), pos, pos + 8));
            proof {
                assert(bytes@.subrange(pos as int, pos + 8) =~= tail.take(8));
            }
            let kstart: usize = pos + 8;
            if ((bytes.len() - kstart) as u64) < klen64 {
                proof {
                    assert(tail.skip(8).len() < spec_u64_from_le_bytes(tail.take(8)) as int);
                }
                return Err(SerenvError::DecodingError);
            }
            let klen: usize = klen64 as usize;
            let key: Vec<u8> = slice_to_vec(slice_subrange(bytes.as_slice(), kstart, kstart + klen));
            proof {
                assert(bytes@.subrange(kstart as int, kstart + klen) =~= tail.skip(8).take(
                    klen as int,
                ));
            }
            let vlenpos: usize = kstart + klen;
            let ghost r2 = tail.skip(8).skip(klen as int);
            proof {
                assert(r2 =~= bytes@.skip(vlenpos as int));
            }
            if bytes.len() - vlenpos < 8 {
                return Err(SerenvError::DecodingError);
            }
            let vlen64: u64 = u64_from_le_bytes(
                slice_subrange(bytes.as_slice(), vlenpos, vlenpos + 8),
            );
            proof {
                assert(bytes@.subrange(vlenpos as int, vlenpos + 8) =~= r2.take(8));
            }
            let vstart: usize = vlenpos + 8;
            if ((bytes.len() - vstart) as u64) < vlen64 {
                proof {
                    assert(r2.skip(8).len() < spec_u64_from_le_bytes(r2.take(8)) as int);
                }
                return Err(SerenvError::DecodingError);
            }
            let vlen: usize = vlen64 as usize;
            let value: Vec<u8> = slice_to_vec(
                slice_subrange(bytes.as_slice(), vstart, vstart + vlen),
            );
            proof {
                assert(bytes@.subrange(vstart as int, vstart + vlen) =~= r2.skip(8).take(
                    vlen as int,
                ));
                assert(r2.skip(8).skip(vlen as int) =~= bytes@.skip(vstart + vlen));
            }
            // One parse step: the tail parses to this entry plus whatever
            // the remainder parses to.
            proof {
                assert(parse_entries(tail, count - i) == (match parse_entries(
                    bytes@.skip(vstart + vlen),
                    count - i - 1,
                ) {
                    Some(t) => Some(seq![(key@, value@)] + t),
                    None => None,
                }));
            }
            if entries.len() > 0 && !bytes_lt(&entries[entries.len() - 1].name, &key) {
                // The entry order is broken, so the full parse, if it
                // succeeds at all, yields an unsorted sequence.
                proof {
                    let full = parse_entries(bytes@.skip(8), count as int);
                    if full is Some {
                        let es = full->Some_0;
                        let m = seq_model(entries@);
                        let t = parse_entries(bytes@.skip(vstart + vlen), count - i
                            - 1)->Some_0;
                        assert(es == m + (seq![(key@, value@)] + t));
                        assert(es[i as int] == (key@, value@));
                        assert(es[i - 1] == m[i - 1]);
                        assert(m[i - 1] == (entries@[i - 1].name@, entries@[i - 1].value@));
                        assert(!lex_lt(es[i - 1].0, es[i as int].0));
                        assert(!entries_sorted(es));
                    }
                }
                return Err(SerenvError::DecodingError);
            }
            let ghost old_entries = entries@;
            let ghost kv = (key@, value@);
            entries.push(EnvEntry { name: key, value });
            pos = vstart + vlen;
            proof {
                let m_old = seq_model(old_entries);
                let m_new = seq_model(entries@);
                assert(m_new =~= m_old + seq![kv]);
                let pr = parse_entries(bytes@.skip(pos as int), count - i - 1);
                if pr is Some {
                    assert(m_old + (seq![kv] + pr->Some_0) =~= m_new + pr->Some_0);
                }
            }
            i = i + 1;
        }
        if pos != bytes.len() {
            return Err(SerenvError::DecodingError);
        }
        proof {
            assert(bytes@.skip(pos as int).len() == 0);
            assert(parse_entries(bytes@.skip(pos as int), 0) == Some(
                Seq::<(Seq<u8>, Seq<u8>)>::empty(),
            ));
            assert(seq_model(entries@) + Seq::<(Seq<u8>, Seq<u8>)>::empty() =~= seq_model(
                entries@,
            ));
            lemma_adjacent_sorted(seq_model(entries@));
        }
        let snap = SavedEnvironment { entries };
        Ok(snap)
    }
}

} // verus!
