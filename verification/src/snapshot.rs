//! The persisted snapshot: codec and storage naming.
//!
//! Between runs, the previous reading set is kept in one file.  The format
//! is line-oriented ASCII with length-prefixed names, so that any byte
//! sequence decodes deterministically or is rejected:
//!
//! ```text
//! <timestamp>\n
//! <count>\n
//! <name-byte-length> <name-bytes> <value-bits>\n     (count times)
//! ```
//!
//! Values are the decimal of the reading's binary64 bit pattern, and names
//! are raw UTF-8 bytes.  Decoding tolerates nothing: a snapshot either
//! round-trips exactly or reads as "no previous snapshot".

use vstd::prelude::*;

use crate::name::{starts_with, str_starts_with};
use crate::numtext::{
    dec_i64_vec, dec_int, dec_nat, dec_u64_vec, is_digit_byte, lemma_dec_nat,
    lemma_parse_int_of_dec, lemma_parse_nat_of_dec, parse_i64, parse_int_spec, parse_nat_spec,
    parse_u64,
};
use crate::readings::{lemma_lookup_none_iff, Reading, ReadingSet};
use vstd::string::StrSliceExecFns;
use vstd::utf8::{decode_utf8, encode_utf8, encode_utf8_decode_utf8, encode_utf8_valid_utf8, valid_utf8};

verus! {

/// The name/value pairs a reading sequence denotes.
pub open spec fn entries_view(rs: Seq<Reading>) -> Seq<(Seq<char>, u64)> {
    rs.map_values(|r: Reading| (r.name@, r.value))
}

/// Pairwise distinct names.
pub open spec fn distinct_names(es: Seq<(Seq<char>, u64)>) -> bool {
    forall|i: int, j: int| 0 <= i < j < es.len() ==> es[i].0 != es[j].0
}

/// Every name's UTF-8 encoding fits the length field (a machine limit;
/// every name that fits in memory satisfies it).
pub open spec fn bounded_names(es: Seq<(Seq<char>, u64)>) -> bool {
    forall|i: int| 0 <= i < es.len() ==> encode_utf8(#[trigger] es[i].0).len() <= u64::MAX
}

/// The bytes of one snapshot entry.
pub open spec fn enc_entry(name: Seq<char>, value: u64) -> Seq<u8> {
    dec_nat(encode_utf8(name).len()) + seq![32u8] + encode_utf8(name) + seq![32u8] + dec_nat(
        value as nat,
    ) + seq![10u8]
}

/// The bytes of a sequence of snapshot entries.
pub open spec fn enc_entries(es: Seq<(Seq<char>, u64)>) -> Seq<u8>
    decreases es.len(),
{
    if es.len() == 0 {
        Seq::empty()
    } else {
        enc_entry(es[0].0, es[0].1) + enc_entries(es.drop_first())
    }
}

/// The bytes of a whole snapshot.
pub open spec fn encode_spec(ts: int, es: Seq<(Seq<char>, u64)>) -> Seq<u8> {
    dec_int(ts) + seq![10u8] + dec_nat(es.len()) + seq![10u8] + enc_entries(es)
}

/// Appending one entry appends its bytes.
pub proof fn lemma_enc_entries_push(es: Seq<(Seq<char>, u64)>, e: (Seq<char>, u64))
    ensures
        enc_entries(es.push(e)) == enc_entries(es) + enc_entry(e.0, e.1),
    decreases es.len(),
{
    if es.len() == 0 {
        assert(es.push(e)[0] == e);
        assert(es.push(e).drop_first() =~= Seq::<(Seq<char>, u64)>::empty());
        assert(enc_entries(Seq::<(Seq<char>, u64)>::empty()) =~= Seq::<u8>::empty());
        assert(enc_entries(es.push(e)) =~= enc_entry(e.0, e.1));
        assert(enc_entries(es) + enc_entry(e.0, e.1) =~= enc_entry(e.0, e.1));
    } else {
        lemma_enc_entries_push(es.drop_first(), e);
        assert(es.push(e)[0] == es[0]);
        assert(es.push(e).drop_first() =~= es.drop_first().push(e));
        assert(enc_entry(es[0].0, es[0].1) + (enc_entries(es.drop_first()) + enc_entry(e.0, e.1))
            =~= (enc_entry(es[0].0, es[0].1) + enc_entries(es.drop_first())) + enc_entry(
            e.0,
            e.1,
        ));
    }
}

/// Serializes a reading set.
pub fn encode_snapshot(rs: &ReadingSet) -> (out: Vec<u8>)
    ensures
        out@ == encode_spec(rs.timestamp as int, entries_view(rs.readings@)),
{
    let mut out = dec_i64_vec(rs.timestamp);
    out.push(10);
    let count = rs.readings.len();
    let mut cnt_text = dec_u64_vec(count as u64);
    out.append(&mut cnt_text);
    out.push(10);
    let ghost header = dec_int(rs.timestamp as int) + seq![10u8] + dec_nat(
        entries_view(rs.readings@).len(),
    ) + seq![10u8];
    proof {
        assert(entries_view(rs.readings@).len() == rs.readings@.len());
        assert(out@ =~= header);
        assert(entries_view(rs.readings@.subrange(0, 0)) =~= Seq::<(Seq<char>, u64)>::empty());
        assert(out@ =~= header + enc_entries(entries_view(rs.readings@.subrange(0, 0))));
    }
    let n = count;
    let mut i: usize = 0;
    while i < n
        invariant
            0 <= i <= n,
            n == rs.readings@.len(),
            out@ == header + enc_entries(entries_view(rs.readings@.subrange(0, i as int))),
        decreases n - i,
    {
        let entry = &rs.readings[i];
        let mut nb = entry.name.as_str().as_bytes_vec();
        let mut len_text = dec_u64_vec(nb.len() as u64);
        let ghost pair = (entry.name@, entry.value);
        let ghost built = entries_view(rs.readings@.subrange(0, i as int));
        proof {
            assert(nb@ == encode_utf8(entry.name@));
        }
        out.append(&mut len_text);
        out.push(32);
        out.append(&mut nb);
        out.push(32);
        let mut val_text = dec_u64_vec(entry.value);
        out.append(&mut val_text);
        out.push(10);
        proof {
            lemma_enc_entries_push(built, pair);
            assert(entries_view(rs.readings@.subrange(0, i + 1)) =~= built.push(pair));
            assert(out@ =~= header + (enc_entries(built) + enc_entry(pair.0, pair.1)));
            assert(header + (enc_entries(built) + enc_entry(pair.0, pair.1)) =~= header
                + enc_entries(built.push(pair)));
        }
        i = i + 1;
    }
    proof {
        assert(rs.readings@.subrange(0, n as int) =~= rs.readings@);
        assert(out@ =~= encode_spec(rs.timestamp as int, entries_view(rs.readings@)));
    }
    out
}

/// What decoding `k` entries at `pos` yields: the entries and the position
/// after them, or nothing when the bytes do not have the entry shape.
pub open spec fn decode_entries_spec(s: Seq<u8>, pos: int, k: nat) -> Option<
    (Seq<(Seq<char>, u64)>, int),
>
    decreases k,
{
    if k == 0 {
        Some((Seq::empty(), pos))
    } else {
        match parse_nat_spec(s, pos) {
            Option::None => None,
            Option::Some((nlen, a)) => {
                if a < s.len() && s[a] == 32 && a + 1 + nlen <= s.len() {
                    let nb = s.subrange(a + 1, a + 1 + nlen);
                    if valid_utf8(nb) {
                        let name = decode_utf8(nb);
                        let b = a + 1 + nlen;
                        if b < s.len() && s[b] == 32 {
                            match parse_nat_spec(s, b + 1) {
                                Option::None => None,
                                Option::Some((v, c)) => {
                                    if c < s.len() && s[c] == 10 {
                                        match decode_entries_spec(s, c + 1, (k - 1) as nat) {
                                            Option::None => None,
                                            Option::Some((rest, end)) => Some(
                                                (seq![(name, v as u64)] + rest, end),
                                            ),
                                        }
                                    } else {
                                        None
                                    }
                                },
                            }
                        } else {
                            None
                        }
                    } else {
                        None
                    }
                } else {
                    None
                }
            },
        }
    }
}

/// What decoding a whole snapshot yields: the timestamp and the entries,
/// or nothing when any part of the bytes is malformed, when bytes trail
/// the last entry, or when a name repeats.
pub open spec fn decode_spec(s: Seq<u8>) -> Option<(int, Seq<(Seq<char>, u64)>)> {
    match parse_int_spec(s, 0) {
        Option::None => None,
        Option::Some((ts, p)) => {
            if p < s.len() && s[p] == 10 {
                match parse_nat_spec(s, p + 1) {
                    Option::None => None,
                    Option::Some((cnt, q)) => {
                        if q < s.len() && s[q] == 10 {
                            match decode_entries_spec(s, q + 1, cnt as nat) {
                                Option::None => None,
                                Option::Some((es, end)) => {
                                    if end == s.len() && distinct_names(es) {
                                        Some((ts, es))
                                    } else {
                                        None
                                    }
                                },
                            }
                        } else {
                            None
                        }
                    },
                }
            } else {
                None
            }
        },
    }
}

/// Decoding inverts encoding, entry by entry.
#[verifier::rlimit(80)]
pub proof fn lemma_decode_entries_of_enc(s: Seq<u8>, pos: int, es: Seq<(Seq<char>, u64)>)
    requires
        0 <= pos <= s.len(),
        s.len() - pos == enc_entries(es).len(),
        s.subrange(pos, s.len() as int) == enc_entries(es),
        bounded_names(es),
    ensures
        decode_entries_spec(s, pos, es.len()) == Some((es, s.len() as int)),
    decreases es.len(),
{
    if es.len() == 0 {
    } else {
        let name = es[0].0;
        let value = es[0].1;
        let nb = encode_utf8(name);
        let la = dec_nat(nb.len()).len() as int;
        let lv = dec_nat(value as nat).len() as int;
        let e = enc_entry(name, value);
        let r = enc_entries(es.drop_first());
        assert(enc_entries(es) == e + r);
        assert(e.len() == la + 1 + nb.len() + 1 + lv + 1);
        lemma_dec_nat(nb.len());
        lemma_dec_nat(value as nat);
        assert forall|o: int| 0 <= o < e.len() implies s[pos + o] == e[o] by {
            assert(s.subrange(pos, s.len() as int)[o] == s[pos + o]);
            assert((e + r)[o] == e[o]);
        }
        // the name-length digits and the space after them
        assert(s.subrange(pos, pos + la) =~= dec_nat(nb.len())) by {
            assert forall|o: int| 0 <= o < la implies s.subrange(pos, pos + la)[o] == dec_nat(
                nb.len(),
            )[o] by {
                assert(s[pos + o] == e[o]);
                assert(e[o] == dec_nat(nb.len())[o]);
            }
        }
        let a = pos + la;
        assert(e[la] == 32);
        assert(s[a] == 32);
        assert(!is_digit_byte(32));
        lemma_parse_nat_of_dec(s, pos, nb.len());
        assert(parse_nat_spec(s, pos) == Some((nb.len() as int, a)));
        // the name bytes
        assert(a + 1 + nb.len() <= s.len());
        assert(s.subrange(a + 1, a + 1 + nb.len() as int) =~= nb) by {
            assert forall|o: int| 0 <= o < nb.len() implies s.subrange(
                a + 1,
                a + 1 + nb.len() as int,
            )[o] == nb[o] by {
                assert(s[pos + (la + 1 + o)] == e[la + 1 + o]);
                assert(e[la + 1 + o] == nb[o]);
            }
        }
        encode_utf8_valid_utf8(name);
        encode_utf8_decode_utf8(name);
        assert(valid_utf8(nb));
        assert(decode_utf8(nb) == name);
        // the space after the name, the value digits, the newline
        let b = a + 1 + nb.len();
        assert(e[la + 1 + nb.len()] == 32);
        assert(s[b] == 32);
        assert(s.subrange(b + 1, b + 1 + lv) =~= dec_nat(value as nat)) by {
            assert forall|o: int| 0 <= o < lv implies s.subrange(b + 1, b + 1 + lv)[o] == dec_nat(
                value as nat,
            )[o] by {
                assert(s[pos + (la + 1 + nb.len() + 1 + o)] == e[la + 1 + nb.len() + 1 + o]);
                assert(e[la + 1 + nb.len() + 1 + o] == dec_nat(value as nat)[o]);
            }
        }
        let c = b + 1 + lv;
        assert(e[la + 1 + nb.len() + 1 + lv] == 10);
        assert(s[c] == 10);
        assert(!is_digit_byte(10));
        lemma_parse_nat_of_dec(s, b + 1, value as nat);
        assert(parse_nat_spec(s, b + 1) == Some((value as int, c)));
        // the remaining entries
        assert(s.subrange(c + 1, s.len() as int) =~= r) by {
            assert forall|o: int| 0 <= o < r.len() implies s.subrange(c + 1, s.len() as int)[o]
                == r[o] by {
                assert(s.subrange(pos, s.len() as int)[e.len() + o] == s[pos + e.len() + o]);
                assert((e + r)[e.len() + o] == r[o]);
            }
        }
        assert(forall|i: int|
            0 <= i < es.drop_first().len() ==> #[trigger] es.drop_first()[i] == es[i + 1]);
        lemma_decode_entries_of_enc(s, c + 1, es.drop_first());
        assert(decode_entries_spec(s, c + 1, es.drop_first().len()) == Some(
            (es.drop_first(), s.len() as int),
        ));
        assert((name, value) == es[0]);
        assert(seq![es[0]] + es.drop_first() =~= es);
        assert(decode_entries_spec(s, pos, es.len()) == Some((es, s.len() as int)));
    }
}

/// Law: decoding a serialized snapshot gives back exactly the timestamp
/// and the name-to-value pairs that were written.
pub proof fn lemma_snapshot_round_trip(ts: i64, es: Seq<(Seq<char>, u64)>)
    requires
        distinct_names(es),
        bounded_names(es),
        es.len() <= u64::MAX,
    ensures
        decode_spec(encode_spec(ts as int, es)) == Some((ts as int, es)),
{
    let s = encode_spec(ts as int, es);
    let d = dec_int(ts as int);
    let c = dec_nat(es.len());
    let en = enc_entries(es);
    assert(s == d + seq![10u8] + c + seq![10u8] + en);
    assert(s.len() == d.len() + 1 + c.len() + 1 + en.len());
    if ts >= 0 {
        lemma_dec_nat(ts as nat);
    } else {
        lemma_dec_nat((-(ts as int)) as nat);
        assert(d == seq![45u8] + dec_nat((-(ts as int)) as nat));
    }
    lemma_dec_nat(es.len());
    assert(s.subrange(0, d.len() as int) =~= d) by {
        assert forall|o: int| 0 <= o < d.len() implies s.subrange(0, d.len() as int)[o] == d[o] by {
            assert(s[o] == d[o]);
        }
    }
    let p = d.len() as int;
    assert(s[p] == 10);
    assert(!is_digit_byte(10));
    lemma_parse_int_of_dec(s, 0, ts as int);
    assert(parse_int_spec(s, 0) == Some((ts as int, p)));
    assert(s.subrange(p + 1, p + 1 + c.len() as int) =~= c) by {
        assert forall|o: int| 0 <= o < c.len() implies s.subrange(p + 1, p + 1 + c.len() as int)[o]
            == c[o] by {
            assert(s[p + 1 + o] == c[o]);
        }
    }
    let q = p + 1 + c.len() as int;
    assert(s[q] == 10);
    lemma_parse_nat_of_dec(s, p + 1, es.len());
    assert(parse_nat_spec(s, p + 1) == Some((es.len() as int, q)));
    assert(s.subrange(q + 1, s.len() as int) =~= en) by {
        assert forall|o: int| 0 <= o < en.len() implies s.subrange(q + 1, s.len() as int)[o]
            == en[o] by {
            assert(s[q + 1 + o] == en[o]);
        }
    }
    lemma_decode_entries_of_enc(s, q + 1, es);
}

/// Relies on `String::from_utf8`: it fails exactly on byte sequences that
/// are not valid UTF-8, and otherwise returns the string whose UTF-8
/// encoding is the given bytes.
#[verifier::external_body]
fn string_from_utf8(bytes: Vec<u8>) -> (r: Option<String>)
    ensures
        r is Some <==> valid_utf8(bytes@),
        r matches Some(s) ==> encode_utf8(s@) == bytes@,
{
    String::from_utf8(bytes).ok()
}

/// Deserializes a snapshot.  The result is exactly what `decode_spec`
/// denotes: any malformed, truncated, trailing or name-repeating input
/// reads as `None`, which a loader treats as "no previous snapshot".
pub fn decode_snapshot(bytes: &Vec<u8>) -> (r: Option<ReadingSet>)
    ensures
        decode_spec(bytes@) is None ==> r is None,
        (decode_spec(bytes@) matches Some((ts, es)) ==> (r matches Some(rs) && rs.timestamp as int
            == ts && entries_view(rs.readings@) == es && rs.wf())),
{
    let n = bytes.len();
    let (ts, p) = match parse_i64(bytes, 0) {
        Option::Some(x) => x,
        Option::None => {
            return None;
        },
    };
    if !(p < n && bytes[p] == 10) {
        return None;
    }
    let (cnt, q) = match parse_u64(bytes, p + 1) {
        Option::Some(x) => x,
        Option::None => {
            return None;
        },
    };
    if !(q < n && bytes[q] == 10) {
        return None;
    }
    let mut rs = ReadingSet::new(ts);
    let mut pos: usize = q + 1;
    let mut k: u64 = 0;
    proof {
        let full = decode_entries_spec(bytes@, q as int + 1, cnt as nat);
        assert(entries_view(rs.readings@) =~= Seq::<(Seq<char>, u64)>::empty());
        if full is Some {
            let pair = full->0;
            assert((pair.0, pair.1) == pair);
            assert(entries_view(rs.readings@) + pair.0 =~= pair.0);
        }
    }
    while k < cnt
        invariant
            n == bytes@.len(),
            pos <= n,
            k <= cnt,
            rs.wf(),
            rs.timestamp == ts,
            p < n && bytes@[p as int] == 10,
            q < n && bytes@[q as int] == 10,
            parse_int_spec(bytes@, 0) == Some((ts as int, p as int)),
            parse_nat_spec(bytes@, p as int + 1) == Some((cnt as int, q as int)),
            decode_entries_spec(bytes@, q as int + 1, cnt as nat) == (match decode_entries_spec(
                bytes@,
                pos as int,
                (cnt - k) as nat,
            ) {
                Option::Some((rest, end)) => Option::Some(
                    (entries_view(rs.readings@) + rest, end),
                ),
                Option::None => Option::<(Seq<(Seq<char>, u64)>, int)>::None,
            }),
        decreases cnt - k,
    {
        let ghost remaining = (cnt - k) as nat;
        let (nlen64, a) = match parse_u64(bytes, pos) {
            Option::Some(x) => x,
            Option::None => {
                proof {
                    assert(decode_entries_spec(bytes@, pos as int, remaining) is None);
                }
                return None;
            },
        };
        if !(a < n && bytes[a] == 32) {
            proof {
                assert(decode_entries_spec(bytes@, pos as int, remaining) is None);
            }
            return None;
        }
        if nlen64 > (n - a - 1) as u64 {
            proof {
                assert(a as int + 1 + nlen64 as int > n);
                assert(decode_entries_spec(bytes@, pos as int, remaining) is None);
            }
            return None;
        }
        let nlen = nlen64 as usize;
        let nstart = a + 1;
        let nend = a + 1 + nlen;
        let mut nb: Vec<u8> = Vec::new();
        let mut t: usize = nstart;
        proof {
            assert(nb@ =~= bytes@.subrange(nstart as int, nstart as int));
        }
        while t < nend
            invariant
                nstart <= t <= nend <= n,
                n == bytes@.len(),
                nb@ == bytes@.subrange(nstart as int, t as int),
            decreases nend - t,
        {
            let byte = bytes[t];
            proof {
                assert(bytes@.subrange(nstart as int, t as int + 1) =~= bytes@.subrange(
                    nstart as int,
                    t as int,
                ).push(bytes@[t as int]));
            }
            nb.push(byte);
            t = t + 1;
        }
        let ghost nbv = bytes@.subrange(a as int + 1, a as int + 1 + nlen64 as int);
        proof {
            assert(nb@ == nbv);
        }
        let name = match string_from_utf8(nb) {
            Option::Some(s) => s,
            Option::None => {
                proof {
                    assert(!valid_utf8(nbv));
                    assert(decode_entries_spec(bytes@, pos as int, remaining) is None);
                }
                return None;
            },
        };
        let ghost namev = name@;
        proof {
            encode_utf8_decode_utf8(namev);
            assert(decode_utf8(nbv) == namev);
        }
        let b = nend;
        if !(b < n && bytes[b] == 32) {
            proof {
                assert(decode_entries_spec(bytes@, pos as int, remaining) is None);
            }
            return None;
        }
        let (v, c) = match parse_u64(bytes, b + 1) {
            Option::Some(x) => x,
            Option::None => {
                proof {
                    assert(decode_entries_spec(bytes@, pos as int, remaining) is None);
                }
                return None;
            },
        };
        if !(c < n && bytes[c] == 10) {
            proof {
                assert(decode_entries_spec(bytes@, pos as int, remaining) is None);
            }
            return None;
        }
        let ghost next = decode_entries_spec(bytes@, c as int + 1, (remaining - 1) as nat);
        proof {
            assert(decode_entries_spec(bytes@, pos as int, remaining) == (match next {
                Option::Some((rest, end)) => Option::Some(
                    (seq![(namev, v)] + rest, end),
                ),
                Option::None => Option::<(Seq<(Seq<char>, u64)>, int)>::None,
            }));
        }
        match rs.get(name.as_str()) {
            Option::Some(_) => {
                proof {
                    lemma_lookup_none_iff(rs.readings@, namev);
                    let w = choose|i: int|
                        0 <= i < rs.readings@.len() && rs.readings@[i].name@ == namev;
                    if next is Some {
                        let pair = next->0;
                        let built = entries_view(rs.readings@);
                        let es = built + (seq![(namev, v)] + pair.0);
                        assert(es[w].0 == namev);
                        assert(es[built.len() as int].0 == namev);
                        assert(!distinct_names(es));
                    }
                }
                return None;
            },
            Option::None => {},
        }
        let ghost old_built = entries_view(rs.readings@);
        rs.insert(name, v);
        proof {
            assert(entries_view(rs.readings@) =~= old_built.push((namev, v)));
            if next is Some {
                let pair = next->0;
                assert((pair.0, pair.1) == pair);
                assert(old_built + (seq![(namev, v)] + pair.0) =~= old_built.push((namev, v))
                    + pair.0);
            }
        }
        pos = c + 1;
        k = k + 1;
    }
    proof {
        assert(decode_entries_spec(bytes@, pos as int, 0) == Some(
            (Seq::<(Seq<char>, u64)>::empty(), pos as int),
        ));
        assert(entries_view(rs.readings@) + Seq::<(Seq<char>, u64)>::empty() =~= entries_view(
            rs.readings@,
        ));
    }
    if pos != n {
        return None;
    }
    proof {
        let es = entries_view(rs.readings@);
        assert forall|i: int, j: int| 0 <= i < j < es.len() implies es[i].0 != es[j].0 by {
            assert(es[i].0 == rs.readings@[i].name@);
            assert(es[j].0 == rs.readings@[j].name@);
        }
        assert(decode_spec(bytes@) == Some((ts as int, es)));
    }
    Some(rs)
}

/// The file name under which a plugin's snapshot lives.  A non-empty
/// identity prefix is always namespaced; otherwise the invoking program's
/// name is used, namespaced unless it already is.
pub open spec fn storage_name_spec(prefix: Seq<char>, program: Seq<char>) -> Seq<char> {
    if prefix.len() > 0 {
        "mackerel-plugin-"@ + prefix
    } else if starts_with(program, "mackerel-plugin-"@) {
        program
    } else {
        "mackerel-plugin-"@ + program
    }
}

/// Derives the snapshot file name from the identity prefix, or from the
/// invoking program's name when the prefix is empty.
pub fn storage_name(prefix: &str, program: &str) -> (r: String)
    ensures
        r@ == storage_name_spec(prefix@, program@),
{
    if prefix.unicode_len() > 0 {
        let mut s = String::from_str("mackerel-plugin-");
        s.append(prefix);
        s
    } else if str_starts_with(program, "mackerel-plugin-") {
        String::from_str(program)
    } else {
        let mut s = String::from_str("mackerel-plugin-");
        s.append(program);
        s
    }
}

} // verus!
