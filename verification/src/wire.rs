//! The byte layout of tables: every length is eight bytes, least significant
//! first; a string is the length of its UTF-8 bytes and the bytes; a table is
//! the number of its entries and the entries in ascending order, each a key
//! and a value.

use vstd::prelude::*;
use vstd::bytes::{
    lemma_auto_spec_u64_to_from_le_bytes, spec_u64_from_le_bytes, spec_u64_to_le_bytes,
    u64_from_le_bytes, u64_to_le_bytes,
};
use vstd::slice::slice_subrange;
use vstd::utf8::{decode_utf8, encode_utf8_decode_utf8, encode_utf8_valid_utf8, valid_utf8};
use crate::order::{key_bytes, lex_lt, str_before};
use crate::table::{keys_ascend, Table};

verus! {

/// An entry of a table of byte strings.
pub type Item = (Seq<char>, Seq<u8>);

/// An entry of a table of tables of byte strings.
pub type Bucket = (Seq<char>, Seq<Item>);

/// The encoding of a length.
pub open spec fn enc_len(n: nat) -> Seq<u8> {
    spec_u64_to_le_bytes(n as u64)
}

/// The encoding of a byte string.
pub open spec fn enc_bytes(v: Seq<u8>) -> Seq<u8> {
    enc_len(v.len()) + v
}

/// The encoding of a string.
pub open spec fn enc_str(s: Seq<char>) -> Seq<u8> {
    enc_bytes(key_bytes(s))
}

/// The encoding of an entry: its key, then its value.
pub open spec fn enc_item(e: Item) -> Seq<u8> {
    enc_str(e.0) + enc_bytes(e.1)
}

/// The encodings of the entries of `items`, one after the other.
pub open spec fn enc_items(items: Seq<Item>) -> Seq<u8>
    decreases items.len(),
{
    if items.len() == 0 {
        Seq::empty()
    } else {
        enc_items(items.drop_last()) + enc_item(items.last())
    }
}

/// The encoding of a table of byte strings.
pub open spec fn enc_table(items: Seq<Item>) -> Seq<u8> {
    enc_len(items.len()) + enc_items(items)
}

/// The encoding of an entry whose value is a table.
pub open spec fn enc_bucket(e: Bucket) -> Seq<u8> {
    enc_str(e.0) + enc_table(e.1)
}

/// The encodings of the entries of `buckets`, one after the other.
pub open spec fn enc_buckets(buckets: Seq<Bucket>) -> Seq<u8>
    decreases buckets.len(),
{
    if buckets.len() == 0 {
        Seq::empty()
    } else {
        enc_buckets(buckets.drop_last()) + enc_bucket(buckets.last())
    }
}

/// The encoding of a table of tables.
pub open spec fn enc_nested(buckets: Seq<Bucket>) -> Seq<u8> {
    enc_len(buckets.len()) + enc_buckets(buckets)
}

/// Reads a length off the front of `b`: the length and what follows it.
pub open spec fn dec_len(b: Seq<u8>) -> Option<(nat, Seq<u8>)> {
    if b.len() >= 8 {
        Some((spec_u64_from_le_bytes(b.take(8)) as nat, b.skip(8)))
    } else {
        None
    }
}

/// Reads a byte string off the front of `b`.
pub open spec fn dec_bytes(b: Seq<u8>) -> Option<(Seq<u8>, Seq<u8>)> {
    match dec_len(b) {
        Some((n, rest)) => if n <= rest.len() {
            Some((rest.take(n as int), rest.skip(n as int)))
        } else {
            None
        },
        None => None,
    }
}

/// Reads a string off the front of `b`.
pub open spec fn dec_str(b: Seq<u8>) -> Option<(Seq<char>, Seq<u8>)> {
    match dec_bytes(b) {
        Some((raw, rest)) => if valid_utf8(raw) {
            Some((decode_utf8(raw), rest))
        } else {
            None
        },
        None => None,
    }
}

/// Reads an entry off the front of `b`.
pub open spec fn dec_item(b: Seq<u8>) -> Option<(Item, Seq<u8>)> {
    match dec_str(b) {
        Some((key, rest)) => match dec_bytes(rest) {
            Some((value, rest)) => Some(((key, value), rest)),
            None => None,
        },
        None => None,
    }
}

/// Reads `n` entries off the front of `b`.
pub open spec fn dec_items(b: Seq<u8>, n: nat) -> Option<(Seq<Item>, Seq<u8>)>
    decreases n,
{
    if n == 0 {
        Some((Seq::empty(), b))
    } else {
        match dec_items(b, (n - 1) as nat) {
            Some((items, rest)) => match dec_item(rest) {
                Some((item, rest)) => Some((items.push(item), rest)),
                None => None,
            },
            None => None,
        }
    }
}

/// Reads a table of byte strings off the front of `b`. Its keys must
/// ascend.
pub open spec fn dec_table(b: Seq<u8>) -> Option<(Seq<Item>, Seq<u8>)> {
    match dec_len(b) {
        Some((n, rest)) => match dec_items(rest, n) {
            Some((items, rest)) => if keys_ascend(items) {
                Some((items, rest))
            } else {
                None
            },
            None => None,
        },
        None => None,
    }
}

/// Reads an entry whose value is a table off the front of `b`.
pub open spec fn dec_bucket(b: Seq<u8>) -> Option<(Bucket, Seq<u8>)> {
    match dec_str(b) {
        Some((key, rest)) => match dec_table(rest) {
            Some((value, rest)) => Some(((key, value), rest)),
            None => None,
        },
        None => None,
    }
}

/// Reads `n` entries whose values are tables off the front of `b`.
pub open spec fn dec_buckets(b: Seq<u8>, n: nat) -> Option<(Seq<Bucket>, Seq<u8>)>
    decreases n,
{
    if n == 0 {
        Some((Seq::empty(), b))
    } else {
        match dec_buckets(b, (n - 1) as nat) {
            Some((buckets, rest)) => match dec_bucket(rest) {
                Some((bucket, rest)) => Some((buckets.push(bucket), rest)),
                None => None,
            },
            None => None,
        }
    }
}

/// Reads a table of tables off the front of `b`. Its keys must ascend.
pub open spec fn dec_nested(b: Seq<u8>) -> Option<(Seq<Bucket>, Seq<u8>)> {
    match dec_len(b) {
        Some((n, rest)) => match dec_buckets(rest, n) {
            Some((buckets, rest)) => if keys_ascend(buckets) {
                Some((buckets, rest))
            } else {
                None
            },
            None => None,
        },
        None => None,
    }
}

/// The lengths in `items` can be written in eight bytes.
pub open spec fn items_fit(items: Seq<Item>) -> bool {
    &&& items.len() <= u64::MAX
    &&& forall|i: int|
        0 <= i < items.len() ==> key_bytes((#[trigger] items[i]).0).len() <= u64::MAX
            && items[i].1.len() <= u64::MAX
}

/// The lengths in `buckets` can be written in eight bytes.
pub open spec fn buckets_fit(buckets: Seq<Bucket>) -> bool {
    &&& buckets.len() <= u64::MAX
    &&& forall|i: int|
        0 <= i < buckets.len() ==> key_bytes((#[trigger] buckets[i]).0).len() <= u64::MAX
            && items_fit(buckets[i].1)
}

/// A length that was written is read back, with what follows it.
pub proof fn lemma_dec_len(n: nat, rest: Seq<u8>)
    requires
        n <= u64::MAX,
    ensures
        dec_len(enc_len(n) + rest) == Some((n, rest)),
{
    lemma_auto_spec_u64_to_from_le_bytes();
    let b = enc_len(n) + rest;
    assert(b.take(8) =~= enc_len(n));
    assert(b.skip(8) =~= rest);
}

/// A byte string that was written is read back, with what follows it.
pub proof fn lemma_dec_bytes(v: Seq<u8>, rest: Seq<u8>)
    requires
        v.len() <= u64::MAX,
    ensures
        dec_bytes(enc_bytes(v) + rest) == Some((v, rest)),
{
    assert(enc_bytes(v) + rest =~= enc_len(v.len()) + (v + rest));
    lemma_dec_len(v.len(), v + rest);
    assert((v + rest).take(v.len() as int) =~= v);
    assert((v + rest).skip(v.len() as int) =~= rest);
}

/// A string that was written is read back, with what follows it.
pub proof fn lemma_dec_str(s: Seq<char>, rest: Seq<u8>)
    requires
        key_bytes(s).len() <= u64::MAX,
    ensures
        dec_str(enc_str(s) + rest) == Some((s, rest)),
{
    lemma_dec_bytes(key_bytes(s), rest);
    encode_utf8_valid_utf8(s);
    encode_utf8_decode_utf8(s);
}

/// An entry that was written is read back, with what follows it.
pub proof fn lemma_dec_item(e: Item, rest: Seq<u8>)
    requires
        key_bytes(e.0).len() <= u64::MAX,
        e.1.len() <= u64::MAX,
    ensures
        dec_item(enc_item(e) + rest) == Some((e, rest)),
{
    assert(enc_item(e) + rest =~= enc_str(e.0) + (enc_bytes(e.1) + rest));
    lemma_dec_str(e.0, enc_bytes(e.1) + rest);
    lemma_dec_bytes(e.1, rest);
}

/// Entries that were written are read back, with what follows them.
pub proof fn lemma_dec_items(items: Seq<Item>, rest: Seq<u8>)
    requires
        items_fit(items),
    ensures
        dec_items(enc_items(items) + rest, items.len()) == Some((items, rest)),
    decreases items.len(),
{
    if items.len() == 0 {
        assert(enc_items(items) + rest =~= rest);
        assert(items =~= Seq::empty());
    } else {
        let init = items.drop_last();
        let last = items.last();
        assert(enc_items(items) + rest =~= enc_items(init) + (enc_item(last) + rest));
        assert(items_fit(init)) by {
            assert forall|i: int| 0 <= i < init.len() implies key_bytes((#[trigger] init[i]).0).len()
                <= u64::MAX && init[i].1.len() <= u64::MAX by {
                assert(init[i] == items[i]);
            }
        }
        lemma_dec_items(init, enc_item(last) + rest);
        lemma_dec_item(last, rest);
        assert(init.push(last) =~= items);
    }
}

/// A table that was written is read back, with what follows it.
pub proof fn lemma_dec_table(items: Seq<Item>, rest: Seq<u8>)
    requires
        items_fit(items),
        keys_ascend(items),
    ensures
        dec_table(enc_table(items) + rest) == Some((items, rest)),
{
    assert(enc_table(items) + rest =~= enc_len(items.len()) + (enc_items(items) + rest));
    lemma_dec_len(items.len(), enc_items(items) + rest);
    lemma_dec_items(items, rest);
}

/// An entry with a table that was written is read back, with what follows
/// it.
pub proof fn lemma_dec_bucket(e: Bucket, rest: Seq<u8>)
    requires
        key_bytes(e.0).len() <= u64::MAX,
        items_fit(e.1),
        keys_ascend(e.1),
    ensures
        dec_bucket(enc_bucket(e) + rest) == Some((e, rest)),
{
    assert(enc_bucket(e) + rest =~= enc_str(e.0) + (enc_table(e.1) + rest));
    lemma_dec_str(e.0, enc_table(e.1) + rest);
    lemma_dec_table(e.1, rest);
}

/// Entries with tables that were written are read back, with what follows
/// them.
pub proof fn lemma_dec_buckets(buckets: Seq<Bucket>, rest: Seq<u8>)
    requires
        buckets_fit(buckets),
        forall|i: int| 0 <= i < buckets.len() ==> keys_ascend((#[trigger] buckets[i]).1),
    ensures
        dec_buckets(enc_buckets(buckets) + rest, buckets.len()) == Some((buckets, rest)),
    decreases buckets.len(),
{
    if buckets.len() == 0 {
        assert(enc_buckets(buckets) + rest =~= rest);
        assert(buckets =~= Seq::empty());
    } else {
        let init = buckets.drop_last();
        let last = buckets.last();
        assert(enc_buckets(buckets) + rest =~= enc_buckets(init) + (enc_bucket(last) + rest));
        assert forall|i: int| 0 <= i < init.len() implies key_bytes((#[trigger] init[i]).0).len()
            <= u64::MAX && items_fit(init[i].1) && keys_ascend(init[i].1) by {
            assert(init[i] == buckets[i]);
        }
        lemma_dec_buckets(init, enc_bucket(last) + rest);
        lemma_dec_bucket(last, rest);
        assert(init.push(last) =~= buckets);
    }
}

/// A table of tables that was written is read back, with what follows it.
pub proof fn lemma_dec_nested(buckets: Seq<Bucket>, rest: Seq<u8>)
    requires
        buckets_fit(buckets),
        keys_ascend(buckets),
        forall|i: int| 0 <= i < buckets.len() ==> keys_ascend((#[trigger] buckets[i]).1),
    ensures
        dec_nested(enc_nested(buckets) + rest) == Some((buckets, rest)),
{
    assert(enc_nested(buckets) + rest =~= enc_len(buckets.len()) + (enc_buckets(buckets) + rest));
    lemma_dec_len(buckets.len(), enc_buckets(buckets) + rest);
    lemma_dec_buckets(buckets, rest);
}

/// Appends `bytes` to `out`.
pub fn put_raw(out: &mut Vec<u8>, bytes: &[u8])
    ensures
        final(out)@ == old(out)@ + bytes@,
{
    let mut i: usize = 0;
    while i < bytes.len()
        invariant
            i <= bytes@.len(),
            out@ == old(out)@ + bytes@.take(i as int),
        decreases bytes@.len() - i,
    {
        out.push(bytes[i]);
        proof {
            assert(bytes@.take(i as int + 1) =~= bytes@.take(i as int).push(bytes@[i as int]));
            assert(out@ =~= old(out)@ + bytes@.take(i as int + 1));
        }
        i = i + 1;
    }
    proof {
        assert(bytes@.take(bytes@.len() as int) =~= bytes@);
    }
}

/// Appends the encoding of the length `n` to `out`.
pub fn put_len(out: &mut Vec<u8>, n: usize)
    ensures
        final(out)@ == old(out)@ + enc_len(n as nat),
{
    let bytes = u64_to_le_bytes(n as u64);
    put_raw(out, bytes.as_slice());
}

/// Appends the encoding of the byte string `v` to `out`.
pub fn put_bytes(out: &mut Vec<u8>, v: &[u8])
    ensures
        final(out)@ == old(out)@ + enc_bytes(v@),
        v@.len() <= u64::MAX,
{
    put_len(out, v.len());
    put_raw(out, v);
    proof {
        assert(out@ =~= old(out)@ + enc_bytes(v@));
    }
}

/// Appends the encoding of the string `s` to `out`.
pub fn put_str(out: &mut Vec<u8>, s: &str)
    ensures
        final(out)@ == old(out)@ + enc_str(s@),
        key_bytes(s@).len() <= u64::MAX,
{
    put_bytes(out, s.as_bytes());
}

/// Appends the encoding of `table` to `out`.
pub fn put_table(out: &mut Vec<u8>, table: &Table<Vec<u8>>)
    ensures
        final(out)@ == old(out)@ + enc_table(table@),
        items_fit(table@),
{
    put_len(out, table.len());
    let mut i: usize = 0;
    while i < table.len()
        invariant
            i <= table@.len(),
            out@ == old(out)@ + enc_len(table@.len()) + enc_items(table@.take(i as int)),
            forall|j: int|
                0 <= j < i ==> key_bytes((#[trigger] table@[j]).0).len() <= u64::MAX
                    && table@[j].1.len() <= u64::MAX,
        decreases table@.len() - i,
    {
        let ghost before = out@;
        put_str(out, table.key_at(i).as_str());
        put_bytes(out, table.value_at(i).as_slice());
        proof {
            let now = table@.take(i as int + 1);
            assert(now.drop_last() =~= table@.take(i as int));
            assert(now.last() == table@[i as int]);
            assert(out@ =~= before + enc_item(table@[i as int]));
            assert(out@ =~= old(out)@ + enc_len(table@.len()) + enc_items(now));
        }
        i = i + 1;
    }
    proof {
        assert(table@.take(table@.len() as int) =~= table@);
        assert(out@ =~= old(out)@ + enc_table(table@));
    }
}

/// Appends the encoding of `table` to `out`.
pub fn put_nested(out: &mut Vec<u8>, table: &Table<Table<Vec<u8>>>)
    ensures
        final(out)@ == old(out)@ + enc_nested(table@),
        buckets_fit(table@),
{
    put_len(out, table.len());
    let mut i: usize = 0;
    while i < table.len()
        invariant
            i <= table@.len(),
            out@ == old(out)@ + enc_len(table@.len()) + enc_buckets(table@.take(i as int)),
            forall|j: int|
                0 <= j < i ==> key_bytes((#[trigger] table@[j]).0).len() <= u64::MAX && items_fit(
                    table@[j].1,
                ),
        decreases table@.len() - i,
    {
        let ghost before = out@;
        put_str(out, table.key_at(i).as_str());
        put_table(out, table.value_at(i));
        proof {
            let now = table@.take(i as int + 1);
            assert(now.drop_last() =~= table@.take(i as int));
            assert(now.last() == table@[i as int]);
            assert(out@ =~= before + enc_bucket(table@[i as int]));
            assert(out@ =~= old(out)@ + enc_len(table@.len()) + enc_buckets(now));
        }
        i = i + 1;
    }
    proof {
        assert(table@.take(table@.len() as int) =~= table@);
        assert(out@ =~= old(out)@ + enc_nested(table@));
    }
}

/// The string that `bytes` are the UTF-8 encoding of, if they are one.
///
/// This is `String::from_utf8` of the standard library, which gives a string
/// that holds exactly the bytes handed in where they are valid UTF-8, and an
/// error where they are not.
#[verifier::external_body]
fn string_from_utf8(bytes: Vec<u8>) -> (r: Option<String>)
    ensures
        match r {
            Some(s) => valid_utf8(bytes@) && key_bytes(s@) == bytes@,
            None => !valid_utf8(bytes@),
        },
{
    String::from_utf8(bytes).ok()
}

/// Reads a length at `pos`: the length and the position after it.
pub fn take_len(b: &[u8], pos: usize) -> (r: Option<(u64, usize)>)
    requires
        pos <= b@.len(),
    ensures
        match r {
            Some((n, p)) => pos <= p <= b@.len() && dec_len(b@.skip(pos as int)) == Some(
                (n as nat, b@.skip(p as int)),
            ),
            None => dec_len(b@.skip(pos as int)) is None,
        },
{
    if b.len() - pos < 8 {
        return None;
    }
    let n = u64_from_le_bytes(slice_subrange(b, pos, pos + 8));
    proof {
        assert(b@.skip(pos as int).take(8) =~= b@.subrange(pos as int, pos + 8));
        assert(b@.skip(pos as int).skip(8) =~= b@.skip(pos + 8));
    }
    Some((n, pos + 8))
}

/// Reads a byte string at `pos`: the bytes and the position after them.
pub fn take_bytes(b: &[u8], pos: usize) -> (r: Option<(Vec<u8>, usize)>)
    requires
        pos <= b@.len(),
    ensures
        match r {
            Some((v, p)) => pos <= p <= b@.len() && dec_bytes(b@.skip(pos as int)) == Some(
                (v@, b@.skip(p as int)),
            ),
            None => dec_bytes(b@.skip(pos as int)) is None,
        },
{
    match take_len(b, pos) {
        Some((n, p)) => {
            if n > (b.len() - p) as u64 {
                return None;
            }
            let end = p + n as usize;
            let mut v: Vec<u8> = Vec::new();
            put_raw(&mut v, slice_subrange(b, p, end));
            proof {
                assert(b@.skip(p as int).take(n as int) =~= b@.subrange(p as int, end as int));
                assert(b@.skip(p as int).skip(n as int) =~= b@.skip(end as int));
                assert(v@ =~= b@.subrange(p as int, end as int));
            }
            Some((v, end))
        },
        None => None,
    }
}

/// Reads a string at `pos`: the string and the position after it.
pub fn take_str(b: &[u8], pos: usize) -> (r: Option<(String, usize)>)
    requires
        pos <= b@.len(),
    ensures
        match r {
            Some((s, p)) => pos <= p <= b@.len() && dec_str(b@.skip(pos as int)) == Some(
                (s@, b@.skip(p as int)),
            ),
            None => dec_str(b@.skip(pos as int)) is None,
        },
{
    match take_bytes(b, pos) {
        Some((raw, p)) => {
            let ghost bytes = raw@;
            match string_from_utf8(raw) {
                Some(s) => {
                    proof {
                        encode_utf8_decode_utf8(s@);
                    }
                    Some((s, p))
                },
                None => None,
            }
        },
        None => None,
    }
}

/// Reading more entries succeeds only where reading fewer does, and then
/// yields those first.
pub proof fn lemma_dec_items_prefix(b: Seq<u8>, m: nat, n: nat)
    requires
        m <= n,
        dec_items(b, n) is Some,
    ensures
        dec_items(b, m) is Some,
        (dec_items(b, m)->0).0 == (dec_items(b, n)->0).0.take(m as int),
        (dec_items(b, n)->0).0.len() == n,
    decreases n,
{
    if n == 0 {
        assert((dec_items(b, n)->0).0.take(0) =~= (dec_items(b, m)->0).0);
    } else if m == n {
        lemma_dec_items_prefix(b, (n - 1) as nat, (n - 1) as nat);
        assert((dec_items(b, n)->0).0.take(n as int) =~= (dec_items(b, n)->0).0);
    } else {
        lemma_dec_items_prefix(b, m, (n - 1) as nat);
        let less = (dec_items(b, (n - 1) as nat)->0).0;
        let all = (dec_items(b, n)->0).0;
        assert(all.take(m as int) =~= less.take(m as int));
    }
}

/// Reading more buckets succeeds only where reading fewer does, and then
/// yields those first.
pub proof fn lemma_dec_buckets_prefix(b: Seq<u8>, m: nat, n: nat)
    requires
        m <= n,
        dec_buckets(b, n) is Some,
    ensures
        dec_buckets(b, m) is Some,
        (dec_buckets(b, m)->0).0 == (dec_buckets(b, n)->0).0.take(m as int),
        (dec_buckets(b, n)->0).0.len() == n,
    decreases n,
{
    if n == 0 {
        assert((dec_buckets(b, n)->0).0.take(0) =~= (dec_buckets(b, m)->0).0);
    } else if m == n {
        lemma_dec_buckets_prefix(b, (n - 1) as nat, (n - 1) as nat);
        assert((dec_buckets(b, n)->0).0.take(n as int) =~= (dec_buckets(b, n)->0).0);
    } else {
        lemma_dec_buckets_prefix(b, m, (n - 1) as nat);
        let less = (dec_buckets(b, (n - 1) as nat)->0).0;
        let all = (dec_buckets(b, n)->0).0;
        assert(all.take(m as int) =~= less.take(m as int));
    }
}

/// A list whose front part does not ascend does not ascend.
pub proof fn lemma_prefix_ascends<X>(s: Seq<(Seq<char>, X)>, m: int)
    requires
        keys_ascend(s),
        0 <= m <= s.len(),
    ensures
        keys_ascend(s.take(m)),
{
    let t = s.take(m);
    assert forall|i: int, j: int| 0 <= i < j < t.len() implies lex_lt(
        key_bytes(#[trigger] t[i].0),
        key_bytes(#[trigger] t[j].0),
    ) by {
        assert(t[i] == s[i] && t[j] == s[j]);
    }
}

/// Reads a table of byte strings at `pos`: the table and the position after
/// it.
pub fn take_table(b: &[u8], pos: usize) -> (r: Option<(Table<Vec<u8>>, usize)>)
    requires
        pos <= b@.len(),
    ensures
        match r {
            Some((t, p)) => t.wf() && pos <= p <= b@.len() && dec_table(b@.skip(pos as int))
                == Some((t@, b@.skip(p as int))),
            None => dec_table(b@.skip(pos as int)) is None,
        },
{
    let (n, start) = match take_len(b, pos) {
        Some(x) => x,
        None => { return None; },
    };
    let ghost input = b@.skip(start as int);
    let mut table: Table<Vec<u8>> = Table::new();
    let mut p = start;
    let mut i: u64 = 0;
    while i < n
        invariant
            i <= n,
            start <= p <= b@.len(),
            pos <= start,
            input == b@.skip(start as int),
            dec_len(b@.skip(pos as int)) == Some((n as nat, input)),
            table.wf(),
            dec_items(input, i as nat) == Some((table@, b@.skip(p as int))),
        decreases n - i,
    {
        let ghost before = table@;
        let (key, q) = match take_str(b, p) {
            Some(x) => x,
            None => {
                proof {
                    if dec_items(input, n as nat) is Some {
                        lemma_dec_items_prefix(input, (i + 1) as nat, n as nat);
                    }
                }
                return None;
            },
        };
        let (value, q) = match take_bytes(b, q) {
            Some(x) => x,
            None => {
                proof {
                    if dec_items(input, n as nat) is Some {
                        lemma_dec_items_prefix(input, (i + 1) as nat, n as nat);
                    }
                }
                return None;
            },
        };
        assert(dec_items(input, (i + 1) as nat) == Some(
            (before.push((key@, value@)), b@.skip(q as int)),
        ));
        if table.len() > 0 && !str_before(table.key_at(table.len() - 1).as_str(), key.as_str()) {
            proof {
                if dec_items(input, n as nat) is Some {
                    lemma_dec_items_prefix(input, (i + 1) as nat, n as nat);
                    let all = (dec_items(input, n as nat)->0).0;
                    if keys_ascend(all) {
                        lemma_prefix_ascends(all, i + 1);
                        let part = before.push((key@, value@));
                        assert(lex_lt(
                            key_bytes(part[before.len() - 1].0),
                            key_bytes(part[before.len() as int].0),
                        ));
                    }
                }
            }
            return None;
        }
        table.push(key, value);
        p = q;
        i = i + 1;
    }
    Some((table, p))
}

/// Reads a table of tables at `pos`: the table and the position after it.
pub fn take_nested(b: &[u8], pos: usize) -> (r: Option<(Table<Table<Vec<u8>>>, usize)>)
    requires
        pos <= b@.len(),
    ensures
        match r {
            Some((t, p)) => {
                &&& t.wf()
                &&& forall|i: int| 0 <= i < t@.len() ==> keys_ascend((#[trigger] t@[i]).1)
                &&& pos <= p <= b@.len()
                &&& dec_nested(b@.skip(pos as int)) == Some((t@, b@.skip(p as int)))
            },
            None => dec_nested(b@.skip(pos as int)) is None,
        },
{
    let (n, start) = match take_len(b, pos) {
        Some(x) => x,
        None => { return None; },
    };
    let ghost input = b@.skip(start as int);
    let mut table: Table<Table<Vec<u8>>> = Table::new();
    let mut p = start;
    let mut i: u64 = 0;
    while i < n
        invariant
            i <= n,
            start <= p <= b@.len(),
            pos <= start,
            input == b@.skip(start as int),
            dec_len(b@.skip(pos as int)) == Some((n as nat, input)),
            table.wf(),
            forall|x: int| 0 <= x < table@.len() ==> keys_ascend((#[trigger] table@[x]).1),
            dec_buckets(input, i as nat) == Some((table@, b@.skip(p as int))),
        decreases n - i,
    {
        let ghost before = table@;
        let (key, q) = match take_str(b, p) {
            Some(x) => x,
            None => {
                proof {
                    if dec_buckets(input, n as nat) is Some {
                        lemma_dec_buckets_prefix(input, (i + 1) as nat, n as nat);
                    }
                }
                return None;
            },
        };
        let (value, q) = match take_table(b, q) {
            Some(x) => x,
            None => {
                proof {
                    if dec_buckets(input, n as nat) is Some {
                        lemma_dec_buckets_prefix(input, (i + 1) as nat, n as nat);
                    }
                }
                return None;
            },
        };
        assert(dec_buckets(input, (i + 1) as nat) == Some(
            (before.push((key@, value@)), b@.skip(q as int)),
        ));
        if table.len() > 0 && !str_before(table.key_at(table.len() - 1).as_str(), key.as_str()) {
            proof {
                if dec_buckets(input, n as nat) is Some {
                    lemma_dec_buckets_prefix(input, (i + 1) as nat, n as nat);
                    let all = (dec_buckets(input, n as nat)->0).0;
                    if keys_ascend(all) {
                        lemma_prefix_ascends(all, i + 1);
                        let part = before.push((key@, value@));
                        assert(lex_lt(
                            key_bytes(part[before.len() - 1].0),
                            key_bytes(part[before.len() as int].0),
                        ));
                    }
                }
            }
            return None;
        }
        let ghost vv = value@;
        table.push(key, value);
        proof {
            assert forall|x: int| 0 <= x < table@.len() implies keys_ascend(
                (#[trigger] table@[x]).1,
            ) by {
                if x < before.len() {
                    assert(table@[x] == before[x]);
                }
            }
        }
        p = q;
        i = i + 1;
    }
    Some((table, p))
}

} // verus!
