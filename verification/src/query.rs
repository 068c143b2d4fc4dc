//! The query of a URL: a mapping from keys to values that keeps its entries
//! ordered by key.

use vstd::prelude::*;
use vstd::utf8::encode_utf8;

verus! {

broadcast use vstd::utf8::group_utf8_lib;

/// One entry of a query as plain texts: the key and the value.
pub type Entry = (Seq<char>, Seq<char>);

/// The order of byte strings: byte by byte, and a proper beginning of a
/// string comes before the string.
pub open spec fn bytes_before(a: Seq<u8>, b: Seq<u8>) -> bool
    decreases a.len(),
{
    if b.len() == 0 {
        false
    } else if a.len() == 0 {
        true
    } else if a[0] != b[0] {
        a[0] < b[0]
    } else {
        bytes_before(a.skip(1), b.skip(1))
    }
}

/// The order of keys: that of their UTF-8 bytes, which is how strings are
/// ordered.
pub open spec fn key_before(a: Seq<char>, b: Seq<char>) -> bool {
    bytes_before(encode_utf8(a), encode_utf8(b))
}

/// The keys of `entries` strictly increase: no key occurs twice.
pub open spec fn sorted(entries: Seq<Entry>) -> bool {
    forall|i: int, j: int|
        0 <= i < j < entries.len() ==> key_before(
            (#[trigger] entries[i]).0,
            (#[trigger] entries[j]).0,
        )
}

/// `entries` with `key` set to `value`: the entry for `key` is replaced if
/// there is one, and otherwise the new entry goes where the order puts it.
pub open spec fn insert_entry(entries: Seq<Entry>, key: Seq<char>, value: Seq<char>) -> Seq<Entry>
    decreases entries.len(),
{
    if entries.len() == 0 {
        seq![(key, value)]
    } else if entries[0].0 == key {
        seq![(key, value)] + entries.skip(1)
    } else if key_before(key, entries[0].0) {
        seq![(key, value)] + entries
    } else {
        seq![entries[0]] + insert_entry(entries.skip(1), key, value)
    }
}

/// `entries` without the first entry for `key`, which in ordered entries is
/// the only one.
pub open spec fn remove_entry(entries: Seq<Entry>, key: Seq<char>) -> Seq<Entry>
    decreases entries.len(),
{
    if entries.len() == 0 {
        entries
    } else if entries[0].0 == key {
        entries.skip(1)
    } else {
        seq![entries[0]] + remove_entry(entries.skip(1), key)
    }
}

/// The value of the first entry for `key`, if there is one.
pub open spec fn lookup(entries: Seq<Entry>, key: Seq<char>) -> Option<Seq<char>>
    decreases entries.len(),
{
    if entries.len() == 0 {
        None
    } else if entries[0].0 == key {
        Some(entries[0].1)
    } else {
        lookup(entries.skip(1), key)
    }
}

/// The mapping that `entries` stand for.
pub open spec fn as_map(entries: Seq<Entry>) -> Map<Seq<char>, Seq<char>> {
    Map::new(
        |key: Seq<char>| lookup(entries, key) is Some,
        |key: Seq<char>| lookup(entries, key)->0,
    )
}

/// No byte string comes before itself.
pub proof fn lemma_bytes_before_irreflexive(a: Seq<u8>)
    ensures
        !bytes_before(a, a),
    decreases a.len(),
{
    if a.len() > 0 {
        lemma_bytes_before_irreflexive(a.skip(1));
    }
}

/// The order of byte strings is transitive.
pub proof fn lemma_bytes_before_transitive(a: Seq<u8>, b: Seq<u8>, c: Seq<u8>)
    requires
        bytes_before(a, b),
        bytes_before(b, c),
    ensures
        bytes_before(a, c),
    decreases a.len(),
{
    if a.len() > 0 && a[0] == b[0] && b[0] == c[0] {
        lemma_bytes_before_transitive(a.skip(1), b.skip(1), c.skip(1));
    }
}

/// Of two different byte strings one comes before the other.
pub proof fn lemma_bytes_before_total(a: Seq<u8>, b: Seq<u8>)
    ensures
        a == b || bytes_before(a, b) || bytes_before(b, a),
    decreases a.len(),
{
    if a.len() == 0 || b.len() == 0 {
        if a.len() == 0 && b.len() == 0 {
            assert(a =~= b);
        }
    } else if a[0] == b[0] {
        lemma_bytes_before_total(a.skip(1), b.skip(1));
        if a.skip(1) == b.skip(1) {
            assert(a =~= seq![a[0]] + a.skip(1));
            assert(b =~= seq![b[0]] + b.skip(1));
        }
    }
}

/// Byte strings that agree on their first `n` bytes are ordered as what
/// follows those bytes.
pub proof fn lemma_bytes_before_skip(a: Seq<u8>, b: Seq<u8>, n: int)
    requires
        0 <= n <= a.len(),
        n <= b.len(),
        a.take(n) == b.take(n),
    ensures
        bytes_before(a, b) == bytes_before(a.skip(n), b.skip(n)),
    decreases n,
{
    if n == 0 {
        assert(a.skip(0) =~= a);
        assert(b.skip(0) =~= b);
    } else {
        assert(a.take(n)[0] == a[0]);
        assert(b.take(n)[0] == b[0]);
        assert(a.skip(1).take(n - 1) =~= a.take(n).skip(1));
        assert(b.skip(1).take(n - 1) =~= b.take(n).skip(1));
        lemma_bytes_before_skip(a.skip(1), b.skip(1), n - 1);
        assert(a.skip(1).skip(n - 1) =~= a.skip(n));
        assert(b.skip(1).skip(n - 1) =~= b.skip(n));
    }
}

/// The order of keys is a strict total order.
pub proof fn lemma_key_order(a: Seq<char>, b: Seq<char>, c: Seq<char>)
    ensures
        !key_before(a, a),
        key_before(a, b) && key_before(b, c) ==> key_before(a, c),
        a == b || key_before(a, b) || key_before(b, a),
{
    lemma_bytes_before_irreflexive(encode_utf8(a));
    if key_before(a, b) && key_before(b, c) {
        lemma_bytes_before_transitive(encode_utf8(a), encode_utf8(b), encode_utf8(c));
    }
    lemma_bytes_before_total(encode_utf8(a), encode_utf8(b));
    if encode_utf8(a) == encode_utf8(b) {
        assert(vstd::utf8::decode_utf8(encode_utf8(a)) == a);
        assert(vstd::utf8::decode_utf8(encode_utf8(b)) == b);
    }
}

/// `key` comes before the key of every entry.
pub open spec fn before_all(key: Seq<char>, entries: Seq<Entry>) -> bool {
    forall|i: int| 0 <= i < entries.len() ==> key_before(key, (#[trigger] entries[i]).0)
}

/// A key that comes before all entries and before the key that is set comes
/// before all entries afterwards.
pub proof fn lemma_insert_before_all(
    entries: Seq<Entry>,
    key: Seq<char>,
    value: Seq<char>,
    low: Seq<char>,
)
    requires
        before_all(low, entries),
        key_before(low, key),
    ensures
        before_all(low, insert_entry(entries, key, value)),
    decreases entries.len(),
{
    let out = insert_entry(entries, key, value);
    if entries.len() == 0 {
    } else if entries[0].0 == key {
        assert forall|i: int| 0 <= i < out.len() implies key_before(low, (#[trigger] out[i]).0) by {
            if i > 0 {
                assert(out[i] == entries[i]);
            }
        }
    } else if key_before(key, entries[0].0) {
        assert forall|i: int| 0 <= i < out.len() implies key_before(low, (#[trigger] out[i]).0) by {
            if i > 0 {
                assert(out[i] == entries[i - 1]);
            }
        }
    } else {
        let rest = entries.skip(1);
        let tail = insert_entry(rest, key, value);
        assert forall|i: int| 0 <= i < rest.len() implies key_before(low, (#[trigger] rest[i]).0) by {
            assert(rest[i] == entries[i + 1]);
        }
        lemma_insert_before_all(rest, key, value, low);
        assert forall|i: int| 0 <= i < out.len() implies key_before(low, (#[trigger] out[i]).0) by {
            if i > 0 {
                assert(out[i] == tail[i - 1]);
            } else {
                assert(out[0] == entries[0]);
            }
        }
    }
}

/// Setting a key keeps the entries ordered.
pub proof fn lemma_insert_sorted(entries: Seq<Entry>, key: Seq<char>, value: Seq<char>)
    requires
        sorted(entries),
    ensures
        sorted(insert_entry(entries, key, value)),
    decreases entries.len(),
{
    let out = insert_entry(entries, key, value);
    if entries.len() == 0 {
    } else if entries[0].0 == key {
        assert forall|i: int, j: int| 0 <= i < j < out.len() implies key_before(
            (#[trigger] out[i]).0,
            (#[trigger] out[j]).0,
        ) by {
            assert(out[j] == entries[j]);
            if i > 0 {
                assert(out[i] == entries[i]);
            } else {
                assert(key_before(entries[0].0, entries[j].0));
            }
        }
    } else if key_before(key, entries[0].0) {
        assert forall|i: int, j: int| 0 <= i < j < out.len() implies key_before(
            (#[trigger] out[i]).0,
            (#[trigger] out[j]).0,
        ) by {
            assert(out[j] == entries[j - 1]);
            if i > 0 {
                assert(out[i] == entries[i - 1]);
            } else if j > 1 {
                assert(key_before(entries[0].0, entries[j - 1].0));
                lemma_key_order(key, entries[0].0, entries[j - 1].0);
            }
        }
    } else {
        let rest = entries.skip(1);
        let tail = insert_entry(rest, key, value);
        assert forall|i: int, j: int| 0 <= i < j < rest.len() implies key_before(
            (#[trigger] rest[i]).0,
            (#[trigger] rest[j]).0,
        ) by {
            assert(rest[i] == entries[i + 1]);
            assert(rest[j] == entries[j + 1]);
        }
        lemma_insert_sorted(rest, key, value);
        lemma_key_order(entries[0].0, key, key);
        assert forall|i: int| 0 <= i < rest.len() implies key_before(
            entries[0].0,
            (#[trigger] rest[i]).0,
        ) by {
            assert(rest[i] == entries[i + 1]);
        }
        lemma_insert_before_all(rest, key, value, entries[0].0);
        assert forall|i: int, j: int| 0 <= i < j < out.len() implies key_before(
            (#[trigger] out[i]).0,
            (#[trigger] out[j]).0,
        ) by {
            assert(out[j] == tail[j - 1]);
            if i > 0 {
                assert(out[i] == tail[i - 1]);
            } else {
                assert(out[0] == entries[0]);
            }
        }
    }
}

/// After a key is set, it has the new value and every other key has the value
/// that it had: of two values given to one key, the later stays.
pub proof fn lemma_lookup_insert(
    entries: Seq<Entry>,
    key: Seq<char>,
    value: Seq<char>,
    other: Seq<char>,
)
    ensures
        lookup(insert_entry(entries, key, value), other) == if other == key {
            Some(value)
        } else {
            lookup(entries, other)
        },
    decreases entries.len(),
{
    let out = insert_entry(entries, key, value);
    if entries.len() == 0 {
        assert(out.skip(1) =~= entries);
    } else if entries[0].0 == key {
        assert(out.skip(1) =~= entries.skip(1));
    } else if key_before(key, entries[0].0) {
        assert(out.skip(1) =~= entries);
    } else {
        assert(out.skip(1) =~= insert_entry(entries.skip(1), key, value));
        lemma_lookup_insert(entries.skip(1), key, value, other);
    }
}

/// Setting a key in the entries is setting it in the mapping.
pub proof fn lemma_insert_as_map(entries: Seq<Entry>, key: Seq<char>, value: Seq<char>)
    ensures
        as_map(insert_entry(entries, key, value)) == as_map(entries).insert(key, value),
{
    let out = insert_entry(entries, key, value);
    assert forall|k: Seq<char>| #[trigger]
        as_map(out).dom().contains(k) == as_map(entries).insert(key, value).dom().contains(
            k,
        ) by {
        lemma_lookup_insert(entries, key, value, k);
    }
    assert forall|k: Seq<char>| #[trigger] as_map(out).dom().contains(k) implies as_map(out)[k]
        == as_map(entries).insert(key, value)[k] by {
        lemma_lookup_insert(entries, key, value, k);
    }
    assert(as_map(out) =~= as_map(entries).insert(key, value));
}

/// The entries of `pairs` as plain texts.
pub open spec fn entry_views(pairs: Seq<(String, String)>) -> Seq<Entry> {
    pairs.map_values(|pair: (String, String)| (pair.0@, pair.1@))
}

/// Where the keys of the first `n` entries come before `key`, setting `key`
/// leaves those entries as they are, and `key` is not among them.
pub proof fn lemma_insert_past(entries: Seq<Entry>, key: Seq<char>, value: Seq<char>, n: int)
    requires
        0 <= n <= entries.len(),
        forall|i: int| 0 <= i < n ==> key_before((#[trigger] entries[i]).0, key),
    ensures
        insert_entry(entries, key, value) == entries.take(n) + insert_entry(
            entries.skip(n),
            key,
            value,
        ),
        lookup(entries, key) == lookup(entries.skip(n), key),
    decreases n,
{
    if n == 0 {
        assert(entries.skip(0) =~= entries);
        assert(entries.take(0) + insert_entry(entries, key, value) =~= insert_entry(
            entries,
            key,
            value,
        ));
    } else {
        let rest = entries.skip(1);
        assert(key_before(entries[0].0, key));
        lemma_key_order(entries[0].0, key, entries[0].0);
        assert forall|i: int| 0 <= i < n - 1 implies key_before((#[trigger] rest[i]).0, key) by {
            assert(rest[i] == entries[i + 1]);
        }
        lemma_insert_past(rest, key, value, n - 1);
        assert(rest.skip(n - 1) =~= entries.skip(n));
        assert(seq![entries[0]] + rest.take(n - 1) =~= entries.take(n));
        assert(insert_entry(entries, key, value) =~= entries.take(n) + insert_entry(
            entries.skip(n),
            key,
            value,
        ));
    }
}

/// Entries whose keys all come after `key` do not hold it.
pub proof fn lemma_lookup_absent(entries: Seq<Entry>, key: Seq<char>)
    requires
        before_all(key, entries),
    ensures
        lookup(entries, key) is None,
    decreases entries.len(),
{
    if entries.len() > 0 {
        lemma_key_order(key, entries[0].0, key);
        assert forall|i: int| 0 <= i < entries.skip(1).len() implies key_before(
            key,
            (#[trigger] entries.skip(1)[i]).0,
        ) by {
            assert(entries.skip(1)[i] == entries[i + 1]);
        }
        lemma_lookup_absent(entries.skip(1), key);
    }
}

/// Ordered entries without their first are ordered, and their keys come
/// after the key of the first.
pub proof fn lemma_sorted_rest(entries: Seq<Entry>)
    requires
        sorted(entries),
        entries.len() > 0,
    ensures
        sorted(entries.skip(1)),
        before_all(entries[0].0, entries.skip(1)),
{
    let rest = entries.skip(1);
    assert forall|i: int, j: int| 0 <= i < j < rest.len() implies key_before(
        (#[trigger] rest[i]).0,
        (#[trigger] rest[j]).0,
    ) by {
        assert(rest[i] == entries[i + 1]);
        assert(rest[j] == entries[j + 1]);
    }
    assert forall|i: int| 0 <= i < rest.len() implies key_before(
        entries[0].0,
        (#[trigger] rest[i]).0,
    ) by {
        assert(rest[i] == entries[i + 1]);
    }
}

/// A key that comes before all entries comes before all that are left when a
/// key is taken away.
pub proof fn lemma_remove_before_all(entries: Seq<Entry>, key: Seq<char>, low: Seq<char>)
    requires
        before_all(low, entries),
    ensures
        before_all(low, remove_entry(entries, key)),
    decreases entries.len(),
{
    let out = remove_entry(entries, key);
    if entries.len() > 0 {
        let rest = entries.skip(1);
        assert forall|i: int| 0 <= i < rest.len() implies key_before(low, (#[trigger] rest[i]).0) by {
            assert(rest[i] == entries[i + 1]);
        }
        if entries[0].0 != key {
            let tail = remove_entry(rest, key);
            lemma_remove_before_all(rest, key, low);
            assert forall|i: int| 0 <= i < out.len() implies key_before(
                low,
                (#[trigger] out[i]).0,
            ) by {
                if i > 0 {
                    assert(out[i] == tail[i - 1]);
                } else {
                    assert(out[0] == entries[0]);
                }
            }
        }
    }
}

/// Taking a key away keeps the entries ordered.
pub proof fn lemma_remove_sorted(entries: Seq<Entry>, key: Seq<char>)
    requires
        sorted(entries),
    ensures
        sorted(remove_entry(entries, key)),
    decreases entries.len(),
{
    let out = remove_entry(entries, key);
    if entries.len() > 0 {
        let rest = entries.skip(1);
        lemma_sorted_rest(entries);
        if entries[0].0 != key {
            let tail = remove_entry(rest, key);
            lemma_remove_sorted(rest, key);
            lemma_remove_before_all(rest, key, entries[0].0);
            assert forall|i: int, j: int| 0 <= i < j < out.len() implies key_before(
                (#[trigger] out[i]).0,
                (#[trigger] out[j]).0,
            ) by {
                assert(out[j] == tail[j - 1]);
                if i > 0 {
                    assert(out[i] == tail[i - 1]);
                } else {
                    assert(out[0] == entries[0]);
                }
            }
        }
    }
}

/// After a key is taken away from ordered entries, it has no value and every
/// other key has the value that it had.
pub proof fn lemma_lookup_remove(entries: Seq<Entry>, key: Seq<char>, other: Seq<char>)
    requires
        sorted(entries),
    ensures
        lookup(remove_entry(entries, key), other) == if other == key {
            None
        } else {
            lookup(entries, other)
        },
    decreases entries.len(),
{
    let out = remove_entry(entries, key);
    if entries.len() > 0 {
        let rest = entries.skip(1);
        lemma_sorted_rest(entries);
        if entries[0].0 == key {
            lemma_lookup_absent(rest, key);
        } else {
            assert(out[0] == entries[0]);
            assert(out.skip(1) =~= remove_entry(rest, key));
            lemma_lookup_remove(rest, key, other);
        }
    }
}

/// Taking a key away from ordered entries is taking it away from the mapping.
pub proof fn lemma_remove_as_map(entries: Seq<Entry>, key: Seq<char>)
    requires
        sorted(entries),
    ensures
        as_map(remove_entry(entries, key)) == as_map(entries).remove(key),
{
    let out = remove_entry(entries, key);
    assert forall|k: Seq<char>| #[trigger]
        as_map(out).dom().contains(k) == as_map(entries).remove(key).dom().contains(k) by {
        lemma_lookup_remove(entries, key, k);
    }
    assert forall|k: Seq<char>| #[trigger] as_map(out).dom().contains(k) implies as_map(out)[k]
        == as_map(entries).remove(key)[k] by {
        lemma_lookup_remove(entries, key, k);
    }
    assert(as_map(out) =~= as_map(entries).remove(key));
}

/// Where the keys of the first `n` entries come before `key`, taking `key`
/// away leaves those entries as they are.
pub proof fn lemma_remove_past(entries: Seq<Entry>, key: Seq<char>, n: int)
    requires
        0 <= n <= entries.len(),
        forall|i: int| 0 <= i < n ==> key_before((#[trigger] entries[i]).0, key),
    ensures
        remove_entry(entries, key) == entries.take(n) + remove_entry(entries.skip(n), key),
    decreases n,
{
    if n == 0 {
        assert(entries.skip(0) =~= entries);
        assert(entries.take(0) + remove_entry(entries, key) =~= remove_entry(entries, key));
    } else {
        let rest = entries.skip(1);
        assert(key_before(entries[0].0, key));
        lemma_key_order(entries[0].0, key, entries[0].0);
        assert forall|i: int| 0 <= i < n - 1 implies key_before((#[trigger] rest[i]).0, key) by {
            assert(rest[i] == entries[i + 1]);
        }
        lemma_remove_past(rest, key, n - 1);
        assert(rest.skip(n - 1) =~= entries.skip(n));
        assert(seq![entries[0]] + rest.take(n - 1) =~= entries.take(n));
        assert(remove_entry(entries, key) =~= entries.take(n) + remove_entry(
            entries.skip(n),
            key,
        ));
    }
}

/// Entries whose keys all come after `key` stay as they are when `key` is
/// taken away.
pub proof fn lemma_remove_absent(entries: Seq<Entry>, key: Seq<char>)
    requires
        before_all(key, entries),
    ensures
        remove_entry(entries, key) == entries,
    decreases entries.len(),
{
    if entries.len() > 0 {
        let rest = entries.skip(1);
        lemma_key_order(key, entries[0].0, key);
        assert forall|i: int| 0 <= i < rest.len() implies key_before(key, (#[trigger] rest[i]).0) by {
            assert(rest[i] == entries[i + 1]);
        }
        lemma_remove_absent(rest, key);
        assert(seq![entries[0]] + rest =~= entries);
    }
}

/// Where a key stands with respect to another.
enum Place {
    Before,
    Same,
    After,
}

/// Where `a` stands with respect to `b` in the order of keys.
fn place(a: &str, b: &str) -> (r: Place)
    ensures
        r is Before <==> key_before(a@, b@),
        r is Same <==> a@ == b@,
        r is After <==> key_before(b@, a@),
{
    let x = a.as_bytes();
    let y = b.as_bytes();
    let mut i: usize = 0;
    proof {
        lemma_key_order(a@, b@, a@);
        lemma_key_order(b@, a@, b@);
        assert(x@.take(0) =~= y@.take(0));
    }
    while i < x.len() && i < y.len()
        invariant
            i <= x.len(),
            i <= y.len(),
            x@ == encode_utf8(a@),
            y@ == encode_utf8(b@),
            x@.take(i as int) == y@.take(i as int),
        decreases x.len() - i,
    {
        if x[i] != y[i] {
            proof {
                lemma_bytes_before_skip(x@, y@, i as int);
                lemma_bytes_before_skip(y@, x@, i as int);
                lemma_key_order(a@, b@, a@);
                lemma_key_order(b@, a@, b@);
            }
            if x[i] < y[i] {
                return Place::Before;
            } else {
                return Place::After;
            }
        }
        assert(x@.take(i + 1) =~= x@.take(i as int).push(x@[i as int]));
        assert(y@.take(i + 1) =~= y@.take(i as int).push(y@[i as int]));
        i += 1;
    }
    proof {
        lemma_bytes_before_skip(x@, y@, i as int);
        lemma_bytes_before_skip(y@, x@, i as int);
        lemma_key_order(a@, b@, a@);
        lemma_key_order(b@, a@, b@);
        if x.len() == y.len() {
            assert(x@ =~= x@.take(i as int));
            assert(y@ =~= y@.take(i as int));
            assert(vstd::utf8::decode_utf8(encode_utf8(a@)) == a@);
            assert(vstd::utf8::decode_utf8(encode_utf8(b@)) == b@);
        }
    }
    if x.len() == y.len() {
        Place::Same
    } else if x.len() < y.len() {
        Place::Before
    } else {
        Place::After
    }
}

/// The query parameters of a URL.
///
/// The keys and values are plain texts: nothing in them is escaped. No key
/// occurs twice, and the entries stand in the order of their keys.
#[derive(PartialEq, Eq, Debug)]
pub struct Query {
    entries: Vec<(String, String)>,
}

impl View for Query {
    type V = Seq<Entry>;

    closed spec fn view(&self) -> Seq<Entry> {
        entry_views(self.entries@)
    }
}

impl Clone for Query {
    fn clone(&self) -> (copy: Self)
        ensures
            copy@ == self@,
    {
        proof {
            use_type_invariant(self);
        }
        let mut entries: Vec<(String, String)> = Vec::new();
        let mut i: usize = 0;
        while i < self.entries.len()
            invariant
                i <= self.entries.len(),
                entry_views(entries@) == entry_views(self.entries@).take(i as int),
            decreases self.entries.len() - i,
        {
            let key = self.entries[i].0.clone();
            let value = self.entries[i].1.clone();
            let ghost before = entries@;
            entries.push((key, value));
            proof {
                let all = entry_views(self.entries@);
                assert(entry_views(entries@) =~= entry_views(before).push((key@, value@)));
                assert(all.take(i + 1) =~= all.take(i as int).push(all[i as int]));
            }
            i += 1;
        }
        assert(entry_views(self.entries@).take(i as int) =~= entry_views(self.entries@));
        Query { entries }
    }
}

impl Query {
    #[verifier::type_invariant]
    spec fn well_formed(self) -> bool {
        sorted(entry_views(self.entries@))
    }

    /// The mapping that the query stands for.
    pub open spec fn map(&self) -> Map<Seq<char>, Seq<char>> {
        as_map(self@)
    }

    /// A query without entries.
    pub fn new() -> (query: Query)
        ensures
            query@ == Seq::<Entry>::empty(),
    {
        let query = Query { entries: Vec::new() };
        assert(query@ =~= Seq::<Entry>::empty());
        query
    }

    /// The number of entries.
    pub fn len(&self) -> (n: usize)
        ensures
            n == self@.len(),
    {
        self.entries.len()
    }

    /// Whether the query has no entries.
    pub fn is_empty(&self) -> (b: bool)
        ensures
            b == (self@.len() == 0),
    {
        self.entries.len() == 0
    }

    /// The key and the value of the entry at `index`, counted in the order of
    /// the keys.
    pub fn entry(&self, index: usize) -> (pair: (&str, &str))
        requires
            index < self@.len(),
        ensures
            (pair.0@, pair.1@) == self@[index as int],
            sorted(self@),
    {
        proof {
            use_type_invariant(self);
        }
        (self.entries[index].0.as_str(), self.entries[index].1.as_str())
    }

    /// The index of the first entry whose key does not come before `key`.
    fn seek(&self, key: &str) -> (at: usize)
        ensures
            at <= self@.len(),
            forall|i: int| 0 <= i < at ==> key_before((#[trigger] self@[i]).0, key@),
            at < self@.len() ==> !key_before(self@[at as int].0, key@),
    {
        let mut at: usize = 0;
        while at < self.entries.len()
            invariant
                at <= self.entries.len(),
                forall|i: int| 0 <= i < at ==> key_before((#[trigger] self@[i]).0, key@),
            decreases self.entries.len() - at,
        {
            match place(self.entries[at].0.as_str(), key) {
                Place::Before => {},
                _ => {
                    return at;
                },
            }
            at += 1;
        }
        at
    }

    /// The value of `key`, if the query has the key.
    pub fn get(&self, key: &str) -> (r: Option<&String>)
        ensures
            match lookup(self@, key@) {
                Some(value) => r matches Some(v) && v@ == value,
                None => r is None,
            },
    {
        proof {
            use_type_invariant(self);
        }
        let at = self.seek(key);
        proof {
            lemma_insert_past(self@, key@, key@, at as int);
        }
        if at < self.entries.len() {
            match place(self.entries[at].0.as_str(), key) {
                Place::Same => {
                    return Some(&self.entries[at].1);
                },
                _ => {},
            }
        }
        proof {
            let rest = self@.skip(at as int);
            assert forall|i: int| 0 <= i < rest.len() implies key_before(
                key@,
                (#[trigger] rest[i]).0,
            ) by {
                assert(rest[i] == self@[at + i]);
                assert(rest[0] == self@[at as int]);
                lemma_key_order(key@, rest[0].0, rest[i].0);
                if i > 0 {
                    assert(key_before(self@[at as int].0, self@[at + i].0));
                }
            }
            lemma_lookup_absent(rest, key@);
        }
        None
    }

    /// Takes `key` away, and returns the value that it had, if it had one.
    pub fn remove(&mut self, key: &str) -> (r: Option<String>)
        ensures
            final(self)@ == remove_entry(old(self)@, key@),
            final(self).map() == old(self).map().remove(key@),
            sorted(final(self)@),
            lookup(final(self)@, key@) is None,
            forall|k: Seq<char>|
                k != key@ ==> #[trigger] lookup(final(self)@, k) == lookup(old(self)@, k),
            match lookup(old(self)@, key@) {
                Some(value) => r matches Some(v) && v@ == value,
                None => r is None,
            },
    {
        let ghost before = self@;
        proof {
            use_type_invariant(&*self);
            lemma_remove_sorted(before, key@);
            lemma_remove_as_map(before, key@);
            lemma_lookup_remove(before, key@, key@);
            assert forall|k: Seq<char>| k != key@ implies #[trigger] lookup(
                remove_entry(before, key@),
                k,
            ) == lookup(before, k) by {
                lemma_lookup_remove(before, key@, k);
            }
        }
        let at = self.seek(key);
        let ghost rest = before.skip(at as int);
        proof {
            lemma_remove_past(before, key@, at as int);
            lemma_insert_past(before, key@, key@, at as int);
        }
        let mut found = false;
        if at < self.entries.len() {
            match place(self.entries[at].0.as_str(), key) {
                Place::Same => {
                    found = true;
                },
                _ => {},
            }
        }
        if found {
            assert(rest[0] == before[at as int]);
            assert(remove_entry(rest, key@) == rest.skip(1));
            let mut entries: Vec<(String, String)> = Vec::new();
            core::mem::swap(&mut entries, &mut self.entries);
            let pair = entries.remove(at);
            assert(entry_views(entries@) =~= before.take(at as int) + rest.skip(1));
            self.entries = entries;
            Some(pair.1)
        } else {
            proof {
                assert forall|i: int| 0 <= i < rest.len() implies key_before(
                    key@,
                    (#[trigger] rest[i]).0,
                ) by {
                    assert(rest[i] == before[at + i]);
                    assert(rest[0] == before[at as int]);
                    lemma_key_order(key@, rest[0].0, rest[i].0);
                    if i > 0 {
                        assert(key_before(before[at as int].0, before[at + i].0));
                    }
                }
                lemma_remove_absent(rest, key@);
                lemma_lookup_absent(rest, key@);
                assert(before.take(at as int) + rest =~= before);
            }
            None
        }
    }

    /// Sets `key` to `value`. A value that the key had is replaced.
    pub fn insert(&mut self, key: String, value: String)
        ensures
            final(self)@ == insert_entry(old(self)@, key@, value@),
            final(self).map() == old(self).map().insert(key@, value@),
            sorted(final(self)@),
    {
        proof {
            use_type_invariant(&*self);
            lemma_insert_sorted(self@, key@, value@);
            lemma_insert_as_map(self@, key@, value@);
        }
        let at = self.seek(key.as_str());
        let ghost before = self@;
        let ghost rest = before.skip(at as int);
        proof {
            lemma_insert_past(before, key@, value@, at as int);
        }
        let mut replace = false;
        if at < self.entries.len() {
            match place(self.entries[at].0.as_str(), key.as_str()) {
                Place::Same => {
                    replace = true;
                },
                _ => {},
            }
        }
        let mut entries: Vec<(String, String)> = Vec::new();
        core::mem::swap(&mut entries, &mut self.entries);
        if replace {
            assert(rest[0] == before[at as int]);
            assert(insert_entry(rest, key@, value@) =~= seq![(key@, value@)] + rest.skip(1));
            entries.set(at, (key, value));
            assert(entry_views(entries@) =~= before.take(at as int) + (seq![(key@, value@)]
                + rest.skip(1)));
        } else {
            proof {
                if rest.len() > 0 {
                    assert(rest[0] == before[at as int]);
                    lemma_key_order(key@, rest[0].0, key@);
                }
                assert(insert_entry(rest, key@, value@) =~= seq![(key@, value@)] + rest);
            }
            entries.insert(at, (key, value));
            assert(entry_views(entries@) =~= before.take(at as int) + (seq![(key@, value@)]
                + rest));
        }
        self.entries = entries;
    }
}

} // verus!
