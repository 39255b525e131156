//! Packing named byte strings into one buffer, and unpacking them again.
//!
//! Each entry is stored as a record: the key's length as a little-endian `u32`,
//! the key's UTF-8 bytes, the value's length as a little-endian `u32`, the value.
use vstd::prelude::*;
use vstd::utf8::{decode_utf8, encode_utf8, encode_utf8_decode_utf8, valid_utf8};
use std::collections::HashMap;
use vstd::slice::{slice_subrange, slice_to_vec};
use crate::le::{le_u32, lemma_le_u32_value, push_le_u32, read_le_u32, u32_at};

verus! {

/// One record of the packed format.
pub open spec fn record(key: Seq<u8>, value: Seq<u8>) -> Seq<u8> {
    le_u32(key.len()) + key + le_u32(value.len()) + value
}

/// The records of `es`, one after the other.
pub open spec fn pack_records(es: Seq<(Seq<u8>, Seq<u8>)>) -> Seq<u8>
    decreases es.len(),
{
    if es.len() == 0 {
        Seq::empty()
    } else {
        pack_records(es.drop_last()) + record(es.last().0, es.last().1)
    }
}

/// The entries that `b` holds as whole records, or `None` where it ends inside a record.
pub open spec fn parse_records(b: Seq<u8>) -> Option<Seq<(Seq<u8>, Seq<u8>)>>
    decreases b.len(),
{
    if b.len() == 0 {
        Some(Seq::empty())
    } else if b.len() < 8 {
        None
    } else {
        let kl = u32_at(b, 0) as int;
        if 8 + kl > b.len() {
            None
        } else {
            let vl = u32_at(b, 4 + kl) as int;
            let n = 8 + kl + vl;
            if n > b.len() {
                None
            } else {
                match parse_records(b.subrange(n, b.len() as int)) {
                    Some(rest) => Some(
                        seq![(b.subrange(4, 4 + kl), b.subrange(8 + kl, n))] + rest,
                    ),
                    None => None,
                }
            }
        }
    }
}

/// What `String::from_utf8_lossy` makes of bytes that are not valid UTF-8.
pub uninterp spec fn utf8_lossy(b: Seq<u8>) -> Seq<char>;

/// The text that a key read back from the bytes `b` holds.
pub open spec fn key_text(b: Seq<u8>) -> Seq<char> {
    if valid_utf8(b) {
        decode_utf8(b)
    } else {
        utf8_lossy(b)
    }
}

/// Relies on `String::from_utf8_lossy`: valid UTF-8 is decoded as it is; other
/// bytes give a text that depends on the bytes alone.
#[verifier::external_body]
fn text_from_bytes(b: &[u8]) -> (r: String)
    ensures
        valid_utf8(b@) ==> r@ == decode_utf8(b@),
        !valid_utf8(b@) ==> r@ == utf8_lossy(b@),
{
    String::from_utf8_lossy(b).into_owned()
}

/// `es` lists the entries of `m`, each once, in some order.
pub open spec fn is_listing(m: Map<String, Vec<u8>>, es: Seq<(String, Vec<u8>)>) -> bool {
    &&& forall|i: int| 0 <= i < es.len() ==> #[trigger] m.contains_key(es[i].0) && m[es[i].0]
        == es[i].1
    &&& forall|i: int, j: int|
        0 <= i < es.len() && 0 <= j < es.len() && i != j ==> #[trigger] es[i].0@ != #[trigger] es[j].0@
    &&& forall|k: String| #[trigger] m.contains_key(k) ==> exists|i: int| 0 <= i < es.len() && es[i].0 == k
}

/// Relies on `HashMap`'s `IntoIterator`: it yields each entry of the map once,
/// in an order that is not specified; keys are unique by content.
#[verifier::external_body]
fn entries_of(m: HashMap<String, Vec<u8>>) -> (r: Vec<(String, Vec<u8>)>)
    ensures
        is_listing(m@, r@),
{
    Vec::from_iter(m)
}

/// The key bytes and the values of `es`.
pub open spec fn entry_bytes(es: Seq<(String, Vec<u8>)>) -> Seq<(Seq<u8>, Seq<u8>)> {
    es.map_values(|e: (String, Vec<u8>)| (encode_utf8(e.0@), e.1@))
}

/// Every key and value of `m` is short enough for a record's length field.
pub open spec fn fits_records(m: Map<String, Vec<u8>>) -> bool {
    forall|k: String|
        #[trigger] m.contains_key(k) ==> encode_utf8(k@).len() <= u32::MAX && m[k]@.len()
            <= u32::MAX
}

fn push_bytes(out: &mut Vec<u8>, b: &[u8])
    ensures
        final(out)@ == old(out)@ + b@,
{
    let mut i: usize = 0;
    while i < b.len()
        invariant
            i <= b@.len(),
            out@ == old(out)@ + b@.subrange(0, i as int),
        decreases b@.len() - i,
    {
        out.push(b[i]);
        i += 1;
        assert(out@ =~= old(out)@ + b@.subrange(0, i as int));
    }
    assert(b@.subrange(0, i as int) =~= b@);
}

/// Packs every entry of `input`, in the order in which the map yields them.
pub fn pack(input: HashMap<String, Vec<u8>>) -> (r: Vec<u8>)
    requires
        fits_records(input@),
    ensures
        exists|es: Seq<(String, Vec<u8>)>|
            is_listing(input@, es) && r@ == pack_records(#[trigger] entry_bytes(es)),
{
    let ghost m = input@;
    let entries = entries_of(input);
    let ghost es = entries@;
    let mut packed_data: Vec<u8> = Vec::new();
    let mut i: usize = 0;
    while i < entries.len()
        invariant
            i <= es.len(),
            es == entries@,
            is_listing(m, es),
            fits_records(m),
            packed_data@ == pack_records(entry_bytes(es.subrange(0, i as int))),
        decreases es.len() - i,
    {
        let key = entries[i].0.as_str().as_bytes();
        let value = entries[i].1.as_slice();
        assert(m.contains_key(es[i as int].0));
        let ghost before = packed_data@;
        push_le_u32(&mut packed_data, key.len() as u32);
        push_bytes(&mut packed_data, key);
        push_le_u32(&mut packed_data, value.len() as u32);
        push_bytes(&mut packed_data, value);
        proof {
            let prev = entry_bytes(es.subrange(0, i as int));
            let next = entry_bytes(es.subrange(0, i + 1));
            assert(next.drop_last() =~= prev);
            assert(next.last() == (key@, value@));
            assert(packed_data@ =~= before + record(key@, value@));
        }
        i += 1;
    }
    assert(es.subrange(0, i as int) =~= es);
    packed_data
}

/// Each entry with its key bytes read back as text.
pub open spec fn texts(rs: Seq<(Seq<u8>, Seq<u8>)>) -> Seq<(Seq<char>, Seq<u8>)> {
    rs.map_values(|e: (Seq<u8>, Seq<u8>)| (key_text(e.0), e.1))
}

/// The value of the last entry of `es` with key `k`.
pub open spec fn last_value(es: Seq<(Seq<char>, Seq<u8>)>, k: Seq<char>) -> Seq<u8>
    decreases es.len(),
{
    if es.len() == 0 {
        Seq::empty()
    } else if es.last().0 == k {
        es.last().1
    } else {
        last_value(es.drop_last(), k)
    }
}

/// `m` maps each key of `es`, and nothing else, to the value given last for it.
pub open spec fn holds_entries(m: Map<String, Vec<u8>>, es: Seq<(Seq<char>, Seq<u8>)>) -> bool {
    &&& forall|k: String| #[trigger]
        m.contains_key(k) <==> exists|i: int| 0 <= i < es.len() && (#[trigger] es[i]).0 == k@
    &&& forall|k: String| #[trigger] m.contains_key(k) ==> m[k]@ == last_value(es, k@)
}

/// The text and bytes that each entry of `es` holds.
pub open spec fn entry_views(es: Seq<(String, Vec<u8>)>) -> Seq<(Seq<char>, Seq<u8>)> {
    es.map_values(|e: (String, Vec<u8>)| (e.0@, e.1@))
}

/// Relies on `HashMap`'s `FromIterator`: it inserts the entries in order, so a
/// later entry replaces an earlier one with an equal key.
#[verifier::external_body]
fn map_from(es: Vec<(String, Vec<u8>)>) -> (r: HashMap<String, Vec<u8>>)
    ensures
        holds_entries(r@, entry_views(es@)),
{
    HashMap::from_iter(es)
}

/// `a` followed by what `o` holds, if it holds anything.
pub open spec fn prepend<T>(a: Seq<T>, o: Option<Seq<T>>) -> Option<Seq<T>> {
    match o {
        Some(r) => Some(a + r),
        None => None,
    }
}

proof fn lemma_prepend_push<T>(a: Seq<T>, e: T, o: Option<Seq<T>>)
    ensures
        prepend(a, prepend(seq![e], o)) == prepend(a.push(e), o),
{
    if let Some(r) = o {
        assert(a + (seq![e] + r) =~= a.push(e) + r);
    }
}

proof fn lemma_parse_step(b: Seq<u8>, index: int, kl: int, vl: int)
    requires
        0 <= index,
        0 <= kl,
        0 <= vl,
        index + 8 + kl + vl <= b.len(),
        kl == u32_at(b, index),
        vl == u32_at(b, index + 4 + kl),
    ensures
        parse_records(b.subrange(index, b.len() as int)) == prepend(
            seq![(b.subrange(index + 4, index + 4 + kl), b.subrange(index + 8 + kl, index + 8 + kl + vl))],
            parse_records(b.subrange(index + 8 + kl + vl, b.len() as int)),
        ),
{
    let rem = b.subrange(index, b.len() as int);
    let n = 8 + kl + vl;
    assert(u32_at(rem, 0) == u32_at(b, index));
    assert(u32_at(rem, 4 + kl) == u32_at(b, index + 4 + kl));
    assert(rem.subrange(4, 4 + kl) =~= b.subrange(index + 4, index + 4 + kl));
    assert(rem.subrange(8 + kl, n) =~= b.subrange(index + 8 + kl, index + n));
    assert(rem.subrange(n, rem.len() as int) =~= b.subrange(index + n, b.len() as int));
}

#[verifier::rlimit(30)]
#[verifier::spinoff_prover]
fn unpack_entries(input: &[u8]) -> (r: Option<Vec<(String, Vec<u8>)>>)
    ensures
        match r {
            None => parse_records(input@) is None,
            Some(es) => parse_records(input@) is Some && entry_views(es@) == texts(parse_records(input@)->Some_0),
        },
{
    let ghost b = input@;
    let len = input.len();
    let mut result: Vec<(String, Vec<u8>)> = Vec::new();
    let ghost mut done: Seq<(Seq<u8>, Seq<u8>)> = Seq::empty();
    let mut index: usize = 0;
    proof {
        assert(b.subrange(0, len as int) =~= b);
        if let Some(all) = parse_records(b) {
            assert(done + all =~= all);
        }
    }
    while index < len
        invariant
            b == input@,
            len == b.len(),
            index <= len,
            parse_records(b) == prepend(done, parse_records(b.subrange(index as int, len as int))),
            entry_views(result@) == texts(done),
        decreases len - index,
    {
        let ghost rem = b.subrange(index as int, len as int);
        let left = len - index;
        if left < 8 {
            return None;
        }
        let key_len = read_le_u32(input, index) as usize;
        assert(u32_at(rem, 0) == u32_at(b, index as int));
        if key_len > left - 8 {
            return None;
        }
        let value_len = read_le_u32(input, index + 4 + key_len) as usize;
        assert(u32_at(rem, 4 + key_len) == u32_at(b, index + 4 + key_len));
        if value_len > left - 8 - key_len {
            return None;
        }
        let n = 8 + key_len + value_len;
        let key_bytes = slice_subrange(input, index + 4, index + 4 + key_len);
        let key = text_from_bytes(key_bytes);
        let value = slice_to_vec(slice_subrange(input, index + 8 + key_len, index + n));
        proof {
            lemma_parse_step(b, index as int, key_len as int, value_len as int);
            let e = (key_bytes@, value@);
            lemma_prepend_push(done, e, parse_records(b.subrange(index + n, len as int)));
            done = done.push(e);
        }
        let ghost old_result = result@;
        result.push((key, value));
        proof {
            assert(entry_views(result@) =~= entry_views(old_result).push((key@, value@)));
            assert(texts(done) =~= texts(done.drop_last()).push((key_text(key_bytes@), value@)));
        }
        index = index + n;
    }
    assert(b.subrange(index as int, len as int) =~= Seq::<u8>::empty());
    assert(done + Seq::<(Seq<u8>, Seq<u8>)>::empty() =~= done);
    Some(result)
}

/// Unpacks a buffer of records into a map; `None` where the buffer ends inside a
/// record. Where keys repeat, the last record wins.
pub fn unpack(input: Vec<u8>) -> (r: Option<HashMap<String, Vec<u8>>>)
    ensures
        match r {
            None => parse_records(input@) is None,
            Some(m) => parse_records(input@) is Some && holds_entries(
                m@,
                texts(parse_records(input@)->Some_0),
            ),
        },
{
    match unpack_entries(input.as_slice()) {
        Some(es) => Some(map_from(es)),
        None => None,
    }
}

/// Every key and value of `es` is short enough for a record's length field.
pub open spec fn records_fit(es: Seq<(Seq<u8>, Seq<u8>)>) -> bool {
    forall|i: int| 0 <= i < es.len() ==> (#[trigger] es[i]).0.len() <= u32::MAX && es[i].1.len() <= u32::MAX
}

proof fn lemma_pack_records_last(es: Seq<(Seq<u8>, Seq<u8>)>)
    requires
        es.len() > 0,
    ensures
        pack_records(es) == pack_records(es.drop_last()) + record(es.last().0, es.last().1),
{
}

#[verifier::spinoff_prover]
proof fn lemma_pack_records_cons(e: (Seq<u8>, Seq<u8>), es: Seq<(Seq<u8>, Seq<u8>)>)
    ensures
        pack_records(seq![e] + es) == record(e.0, e.1) + pack_records(es),
    decreases es.len(),
{
    let all = seq![e] + es;
    let head = record(e.0, e.1);
    lemma_pack_records_last(all);
    if es.len() == 0 {
        assert(all.drop_last() =~= Seq::<(Seq<u8>, Seq<u8>)>::empty());
        assert(all.last() == e);
        assert(pack_records(all.drop_last()) == Seq::<u8>::empty());
        assert(pack_records(es) == Seq::<u8>::empty());
        assert(pack_records(all) =~= head + pack_records(es));
    } else {
        let init = es.drop_last();
        let tail = record(es.last().0, es.last().1);
        assert(all.drop_last() =~= seq![e] + init);
        assert(all.last() == es.last());
        lemma_pack_records_cons(e, init);
        lemma_pack_records_last(es);
        assert(pack_records(all) == head + pack_records(init) + tail);
        assert(pack_records(es) == pack_records(init) + tail);
        assert(head + pack_records(init) + tail =~= head + (pack_records(init) + tail));
    }
}

proof fn lemma_u32_field(b: Seq<u8>, at: int, n: nat)
    requires
        0 <= at,
        at + 4 <= b.len(),
        n <= u32::MAX,
        b.subrange(at, at + 4) == le_u32(n),
    ensures
        u32_at(b, at) == n,
{
    lemma_le_u32_value(n);
    let f = b.subrange(at, at + 4);
    assert(b[at] == f[0] && b[at + 1] == f[1] && b[at + 2] == f[2] && b[at + 3] == f[3]);
}

#[verifier::spinoff_prover]
proof fn lemma_parse_record(k: Seq<u8>, v: Seq<u8>, rest: Seq<u8>)
    requires
        k.len() <= u32::MAX,
        v.len() <= u32::MAX,
    ensures
        parse_records(record(k, v) + rest) == prepend(seq![(k, v)], parse_records(rest)),
{
    let b = record(k, v) + rest;
    let kl = k.len() as int;
    let n = 8 + kl + v.len();
    assert(b.len() == n + rest.len());
    assert(b.subrange(0, 4) =~= le_u32(k.len()));
    lemma_u32_field(b, 0, k.len());
    assert(b.subrange(4 + kl, 8 + kl) =~= le_u32(v.len()));
    lemma_u32_field(b, 4 + kl, v.len());
    assert(b.subrange(4, 4 + kl) =~= k);
    assert(b.subrange(8 + kl, n) =~= v);
    assert(b.subrange(n, b.len() as int) =~= rest);
}

/// Parsing the records that `es` packs into gives `es` back.
pub proof fn lemma_parse_pack(es: Seq<(Seq<u8>, Seq<u8>)>)
    requires
        records_fit(es),
    ensures
        parse_records(pack_records(es)) == Some(es),
    decreases es.len(),
{
    if es.len() == 0 {
    } else {
        let tail = es.skip(1);
        assert(es =~= seq![es[0]] + tail);
        assert(records_fit(tail)) by {
            assert forall|i: int| 0 <= i < tail.len() implies (#[trigger] tail[i]).0.len()
                <= u32::MAX && tail[i].1.len() <= u32::MAX by {
                assert(tail[i] == es[i + 1]);
            }
        }
        lemma_parse_pack(tail);
        lemma_pack_records_cons(es[0], tail);
        assert(es[0].0.len() <= u32::MAX && es[0].1.len() <= u32::MAX);
        lemma_parse_record(es[0].0, es[0].1, pack_records(tail));
    }
}

proof fn lemma_last_value_unique(es: Seq<(Seq<char>, Seq<u8>)>, i: int)
    requires
        0 <= i < es.len(),
        forall|j: int| 0 <= j < es.len() && j != i ==> (#[trigger] es[j]).0 != es[i].0,
    ensures
        last_value(es, es[i].0) == es[i].1,
    decreases es.len(),
{
    if i != es.len() - 1 {
        let init = es.drop_last();
        assert forall|j: int| 0 <= j < init.len() && j != i implies (#[trigger] init[j]).0
            != init[i].0 by {
            assert(init[j] == es[j]);
        }
        lemma_last_value_unique(init, i);
    }
}

proof fn lemma_texts_of_entries(es: Seq<(String, Vec<u8>)>)
    ensures
        texts(entry_bytes(es)).len() == es.len(),
        forall|i: int| 0 <= i < es.len() ==> #[trigger] texts(entry_bytes(es))[i] == (es[i].0@, es[i].1@),
{
    broadcast use vstd::utf8::encode_utf8_valid_utf8;
    let ts = texts(entry_bytes(es));
    assert forall|i: int| 0 <= i < es.len() implies #[trigger] ts[i] == (es[i].0@, es[i].1@) by {
        encode_utf8_decode_utf8(es[i].0@);
    }
}

#[verifier::spinoff_prover]
proof fn lemma_listing_key_alone(es: Seq<(String, Vec<u8>)>, i: int)
    requires
        0 <= i < es.len(),
        forall|a: int, b: int|
            0 <= a < es.len() && 0 <= b < es.len() && a != b ==> #[trigger] es[a].0@ != #[trigger] es[b].0@,
    ensures
        last_value(texts(entry_bytes(es)), es[i].0@) == es[i].1@,
        texts(entry_bytes(es))[i] == (es[i].0@, es[i].1@),
{
    let ts = texts(entry_bytes(es));
    lemma_texts_of_entries(es);
    assert forall|j: int| 0 <= j < ts.len() && j != i implies (#[trigger] ts[j]).0 != ts[i].0 by {
        assert(ts[j] == (es[j].0@, es[j].1@));
        assert(ts[i] == (es[i].0@, es[i].1@));
    }
    lemma_last_value_unique(ts, i);
}

#[verifier::spinoff_prover]
proof fn lemma_unpack_pack_holds(
    m: Map<String, Vec<u8>>,
    es: Seq<(String, Vec<u8>)>,
    r: Map<String, Vec<u8>>,
    k: String,
)
    requires
        is_listing(m, es),
        holds_entries(r, texts(entry_bytes(es))),
        m.contains_key(k),
    ensures
        r.contains_key(k),
        r[k]@ == m[k]@,
{
    let ts = texts(entry_bytes(es));
    lemma_texts_of_entries(es);
    let i = choose|i: int| 0 <= i < es.len() && es[i].0 == k;
    lemma_listing_key_alone(es, i);
    assert(ts[i].0 == k@);
    assert(r.contains_key(k));
    assert(m[k] == es[i].1);
}

#[verifier::spinoff_prover]
proof fn lemma_unpack_pack_back(
    m: Map<String, Vec<u8>>,
    es: Seq<(String, Vec<u8>)>,
    r: Map<String, Vec<u8>>,
    k: String,
)
    requires
        is_listing(m, es),
        holds_entries(r, texts(entry_bytes(es))),
        r.contains_key(k),
    ensures
        exists|k2: String| #[trigger] m.contains_key(k2) && k2@ == k@ && r[k]@ == m[k2]@,
{
    let ts = texts(entry_bytes(es));
    lemma_texts_of_entries(es);
    let i = choose|i: int| 0 <= i < ts.len() && (#[trigger] ts[i]).0 == k@;
    lemma_listing_key_alone(es, i);
    let k2 = es[i].0;
    assert(m.contains_key(k2) && m[k2] == es[i].1);
    assert(k2@ == k@);
    assert(r[k]@ == m[k2]@);
}

/// Unpacking what `pack` made of a map gives a map with the same entries: each
/// key of the map with its value, and no key whose text the map does not hold.
#[verifier::spinoff_prover]
pub proof fn lemma_unpack_pack(
    m: Map<String, Vec<u8>>,
    es: Seq<(String, Vec<u8>)>,
    r: Map<String, Vec<u8>>,
)
    requires
        fits_records(m),
        is_listing(m, es),
        holds_entries(r, texts(entry_bytes(es))),
    ensures
        parse_records(pack_records(entry_bytes(es))) == Some(entry_bytes(es)),
        forall|k: String| #[trigger] m.contains_key(k) ==> r.contains_key(k) && r[k]@ == m[k]@,
        forall|k: String| #[trigger]
            r.contains_key(k) ==> exists|k2: String| #[trigger]
                m.contains_key(k2) && k2@ == k@ && r[k]@ == m[k2]@,
{
    let bs = entry_bytes(es);
    assert(records_fit(bs)) by {
        assert forall|i: int| 0 <= i < bs.len() implies (#[trigger] bs[i]).0.len() <= u32::MAX
            && bs[i].1.len() <= u32::MAX by {
            assert(m.contains_key(es[i].0));
        }
    }
    lemma_parse_pack(bs);
    assert forall|k: String| #[trigger] m.contains_key(k) implies r.contains_key(k) && r[k]@
        == m[k]@ by {
        lemma_unpack_pack_holds(m, es, r, k);
    }
    assert forall|k: String| #[trigger] r.contains_key(k) implies exists|k2: String| #[trigger]
        m.contains_key(k2) && k2@ == k@ && r[k]@ == m[k2]@ by {
        lemma_unpack_pack_back(m, es, r, k);
    }
}

} // verus!
