//! Entries kept in strictly increasing key order: the model of a map whose keys are
//! strings, walked in key order.
use crate::text::{lemma_str_lt_order, str_lt};
use vstd::prelude::*;

verus! {

/// Keys strictly increase along the entries, so every key occurs once.
pub open spec fn keys_increasing<V>(entries: Seq<(Seq<char>, V)>) -> bool {
    forall|i: int, j: int|
        0 <= i < j < entries.len() ==> str_lt(#[trigger] entries[i].0, #[trigger] entries[j].0)
}

/// The value of the first entry with `key`, if any.
pub open spec fn key_lookup<V>(entries: Seq<(Seq<char>, V)>, key: Seq<char>) -> Option<V>
    decreases entries.len(),
{
    if entries.len() == 0 {
        None
    } else if entries[0].0 == key {
        Some(entries[0].1)
    } else {
        key_lookup(entries.drop_first(), key)
    }
}

/// The entries with `key` set to `value`, keeping the key order.
pub open spec fn key_insert<V>(entries: Seq<(Seq<char>, V)>, key: Seq<char>, value: V) -> Seq<
    (Seq<char>, V),
>
    decreases entries.len(),
{
    if entries.len() == 0 {
        seq![(key, value)]
    } else if entries[0].0 == key {
        seq![(key, value)] + entries.drop_first()
    } else if str_lt(key, entries[0].0) {
        seq![(key, value)] + entries
    } else {
        seq![entries[0]] + key_insert(entries.drop_first(), key, value)
    }
}

/// After an insertion, `key` has the new value and every other key keeps its own.
pub proof fn lemma_key_insert_lookup<V>(
    entries: Seq<(Seq<char>, V)>,
    key: Seq<char>,
    value: V,
    other: Seq<char>,
)
    ensures
        key_lookup(key_insert(entries, key, value), other) == if other == key {
            Some(value)
        } else {
            key_lookup(entries, other)
        },
    decreases entries.len(),
{
    let r = key_insert(entries, key, value);
    if entries.len() == 0 {
        assert(r[0] == (key, value));
        assert(r.drop_first() =~= Seq::<(Seq<char>, V)>::empty());
        assert(key_lookup(r.drop_first(), other) is None);
    } else if entries[0].0 == key {
        assert(r[0] == (key, value));
        assert(r.drop_first() =~= entries.drop_first());
    } else if str_lt(key, entries[0].0) {
        assert(r[0] == (key, value));
        assert(r.drop_first() =~= entries);
    } else {
        assert(r[0] == entries[0]);
        assert(r.drop_first() =~= key_insert(entries.drop_first(), key, value));
        lemma_key_insert_lookup(entries.drop_first(), key, value, other);
    }
}

/// In increasing entries, the lookup of the key at `i` finds the value at `i`.
pub proof fn lemma_key_lookup_at<V>(entries: Seq<(Seq<char>, V)>, i: int)
    requires
        keys_increasing(entries),
        0 <= i < entries.len(),
    ensures
        key_lookup(entries, entries[i].0) == Some(entries[i].1),
    decreases i,
{
    if i > 0 {
        let rest = entries.drop_first();
        lemma_str_lt_order(entries[0].0, entries[i].0, entries[i].0);
        assert(rest[i - 1] == entries[i]);
        lemma_drop_first_increasing(entries);
        lemma_key_lookup_at(rest, i - 1);
    }
}

/// A lookup that finds a value finds it at some entry.
pub proof fn lemma_key_lookup_found<V>(entries: Seq<(Seq<char>, V)>, key: Seq<char>)
    requires
        key_lookup(entries, key) is Some,
    ensures
        exists|i: int|
            0 <= i < entries.len() && (#[trigger] entries[i]).0 == key && key_lookup(entries, key)
                == Some(entries[i].1),
    decreases entries.len(),
{
    if entries[0].0 != key {
        let rest = entries.drop_first();
        lemma_key_lookup_found(rest, key);
        let i = choose|i: int|
            0 <= i < rest.len() && (#[trigger] rest[i]).0 == key && key_lookup(rest, key) == Some(
                rest[i].1,
            );
        assert(entries[i + 1] == rest[i]);
    } else {
        assert(entries[0] == entries[0]);
    }
}

/// A lookup that finds nothing: no entry has the key.
pub proof fn lemma_key_lookup_absent<V>(entries: Seq<(Seq<char>, V)>, key: Seq<char>, i: int)
    requires
        key_lookup(entries, key) is None,
        0 <= i < entries.len(),
    ensures
        entries[i].0 != key,
    decreases entries.len(),
{
    if i > 0 && entries[0].0 != key {
        assert(entries.drop_first()[i - 1] == entries[i]);
        lemma_key_lookup_absent(entries.drop_first(), key, i - 1);
    }
}

pub proof fn lemma_drop_first_increasing<V>(entries: Seq<(Seq<char>, V)>)
    requires
        keys_increasing(entries),
        entries.len() > 0,
    ensures
        keys_increasing(entries.drop_first()),
{
    let rest = entries.drop_first();
    assert forall|i: int, j: int| 0 <= i < j < rest.len() implies str_lt(
        #[trigger] rest[i].0,
        #[trigger] rest[j].0,
    ) by {
        assert(rest[i] == entries[i + 1]);
        assert(rest[j] == entries[j + 1]);
    }
}

/// Where `key_insert` places `key`: after every smaller key.
pub proof fn lemma_key_insert_shape<V>(
    entries: Seq<(Seq<char>, V)>,
    key: Seq<char>,
    value: V,
    p: int,
)
    requires
        keys_increasing(entries),
        0 <= p <= entries.len(),
        forall|j: int| 0 <= j < p ==> str_lt(#[trigger] entries[j].0, key),
        p < entries.len() ==> (entries[p].0 == key || str_lt(key, entries[p].0)),
    ensures
        p < entries.len() && entries[p].0 == key ==> key_insert(entries, key, value)
            == entries.subrange(0, p) + seq![(key, value)] + entries.subrange(
            p + 1,
            entries.len() as int,
        ),
        !(p < entries.len() && entries[p].0 == key) ==> key_insert(entries, key, value)
            == entries.subrange(0, p) + seq![(key, value)] + entries.subrange(
            p,
            entries.len() as int,
        ),
        keys_increasing(key_insert(entries, key, value)),
    decreases p,
{
    let n = entries.len() as int;
    let r = key_insert(entries, key, value);
    if p == 0 {
        if entries.len() == 0 {
            assert(r =~= entries.subrange(0, 0) + seq![(key, value)] + entries.subrange(0, 0));
        } else if entries[0].0 == key {
            assert(r =~= entries.subrange(0, 0) + seq![(key, value)] + entries.subrange(1, n));
        } else {
            assert(r =~= entries.subrange(0, 0) + seq![(key, value)] + entries.subrange(0, n));
        }
    } else {
        let rest = entries.drop_first();
        lemma_str_lt_order(entries[0].0, key, key);
        lemma_drop_first_increasing(entries);
        assert forall|j: int| 0 <= j < p - 1 implies str_lt(#[trigger] rest[j].0, key) by {
            assert(rest[j] == entries[j + 1]);
        }
        lemma_key_insert_shape(rest, key, value, p - 1);
        if p < n && entries[p].0 == key {
            assert(r =~= entries.subrange(0, p) + seq![(key, value)] + entries.subrange(p + 1, n));
        } else {
            assert(r =~= entries.subrange(0, p) + seq![(key, value)] + entries.subrange(p, n));
        }
    }
    let replaced = p < n && entries[p].0 == key;
    let skip = if replaced {
        p + 1
    } else {
        p
    };
    assert forall|i: int, j: int| 0 <= i < j < r.len() implies str_lt(
        #[trigger] r[i].0,
        #[trigger] r[j].0,
    ) by {
        if j == p {
            assert(r[i] == entries[i]);
        } else if i == p {
            let jj = j - p - 1 + skip;
            assert(r[j] == entries[jj]);
            if replaced {
                assert(str_lt(entries[p].0, entries[jj].0));
            } else if jj > p {
                lemma_str_lt_order(key, entries[p].0, entries[jj].0);
            }
        } else if j < p {
            assert(r[i] == entries[i]);
            assert(r[j] == entries[j]);
        } else if i < p {
            let jj = j - p - 1 + skip;
            assert(r[i] == entries[i]);
            assert(r[j] == entries[jj]);
            if !replaced && jj == p {
                lemma_str_lt_order(entries[i].0, key, entries[p].0);
            }
        } else {
            let ii = i - p - 1 + skip;
            let jj = j - p - 1 + skip;
            assert(r[i] == entries[ii]);
            assert(r[j] == entries[jj]);
        }
    }
}

/// Two entry lists in increasing key order with the same entries are the same list.
pub proof fn lemma_increasing_entries_unique<V>(x: Seq<(Seq<char>, V)>, y: Seq<(Seq<char>, V)>)
    requires
        keys_increasing(x),
        keys_increasing(y),
        forall|i: int| 0 <= i < x.len() ==> y.contains(#[trigger] x[i]),
        forall|i: int| 0 <= i < y.len() ==> x.contains(#[trigger] y[i]),
    ensures
        x == y,
    decreases x.len(),
{
    if x.len() == 0 || y.len() == 0 {
        if x.len() > 0 {
            assert(y.contains(x[0]));
        }
        if y.len() > 0 {
            assert(x.contains(y[0]));
        }
        assert(x =~= y);
    } else {
        assert(y.contains(x[0]));
        let i = choose|i: int| 0 <= i < y.len() && y[i] == x[0];
        assert(x.contains(y[0]));
        let k = choose|k: int| 0 <= k < x.len() && x[k] == y[0];
        if i > 0 {
            assert(str_lt(y[0].0, y[i].0));
            if k > 0 {
                assert(str_lt(x[0].0, x[k].0));
                lemma_str_lt_order(x[0].0, y[0].0, x[0].0);
            } else {
                lemma_str_lt_order(x[0].0, x[0].0, x[0].0);
            }
        }
        assert(x[0] == y[0]);
        let xr = x.drop_first();
        let yr = y.drop_first();
        lemma_drop_first_increasing(x);
        lemma_drop_first_increasing(y);
        assert forall|a: int| 0 <= a < xr.len() implies yr.contains(#[trigger] xr[a]) by {
            assert(xr[a] == x[a + 1]);
            assert(y.contains(x[a + 1]));
            let b = choose|b: int| 0 <= b < y.len() && y[b] == x[a + 1];
            assert(str_lt(x[0].0, x[a + 1].0));
            if b == 0 {
                lemma_str_lt_order(x[0].0, x[0].0, x[0].0);
            }
            assert(yr[b - 1] == y[b]);
        }
        assert forall|a: int| 0 <= a < yr.len() implies xr.contains(#[trigger] yr[a]) by {
            assert(yr[a] == y[a + 1]);
            assert(x.contains(y[a + 1]));
            let b = choose|b: int| 0 <= b < x.len() && x[b] == y[a + 1];
            assert(str_lt(y[0].0, y[a + 1].0));
            if b == 0 {
                lemma_str_lt_order(y[0].0, y[0].0, y[0].0);
            }
            assert(xr[b - 1] == x[b]);
        }
        lemma_increasing_entries_unique(xr, yr);
        assert(x =~= seq![x[0]] + xr);
        assert(y =~= seq![y[0]] + yr);
    }
}

/// Inserting keeps the keys increasing.
pub proof fn lemma_key_insert_increasing<V>(entries: Seq<(Seq<char>, V)>, key: Seq<char>, value: V)
    requires
        keys_increasing(entries),
    ensures
        keys_increasing(key_insert(entries, key, value)),
    decreases entries.len(),
{
    let r = key_insert(entries, key, value);
    if entries.len() == 0 {
    } else if entries[0].0 == key {
        assert forall|i: int, j: int| 0 <= i < j < r.len() implies str_lt(
            #[trigger] r[i].0,
            #[trigger] r[j].0,
        ) by {
            assert(r[j] == entries[j]);
            if i > 0 {
                assert(r[i] == entries[i]);
            }
        }
    } else if str_lt(key, entries[0].0) {
        assert forall|i: int, j: int| 0 <= i < j < r.len() implies str_lt(
            #[trigger] r[i].0,
            #[trigger] r[j].0,
        ) by {
            assert(r[j] == entries[j - 1]);
            if i > 0 {
                assert(r[i] == entries[i - 1]);
            } else if j > 1 {
                lemma_str_lt_order(key, entries[0].0, entries[j - 1].0);
            }
        }
    } else {
        let rest = entries.drop_first();
        lemma_drop_first_increasing(entries);
        lemma_key_insert_increasing(rest, key, value);
        let tail = key_insert(rest, key, value);
        lemma_str_lt_order(entries[0].0, key, key);
        assert(str_lt(entries[0].0, key));
        lemma_key_insert_members(rest, key, value);
        assert forall|i: int, j: int| 0 <= i < j < r.len() implies str_lt(
            #[trigger] r[i].0,
            #[trigger] r[j].0,
        ) by {
            assert(r[j] == tail[j - 1]);
            if i > 0 {
                assert(r[i] == tail[i - 1]);
            } else {
                let t = tail[j - 1];
                if t.0 != key {
                    let m = choose|m: int| 0 <= m < rest.len() && rest[m].0 == t.0;
                    assert(rest[m] == entries[m + 1]);
                }
            }
        }
    }
}

/// Every key after an insertion is the inserted key or an earlier key.
proof fn lemma_key_insert_members<V>(entries: Seq<(Seq<char>, V)>, key: Seq<char>, value: V)
    ensures
        forall|i: int|
            0 <= i < key_insert(entries, key, value).len() ==> (#[trigger] key_insert(
                entries,
                key,
                value,
            )[i]).0 == key || exists|m: int|
                0 <= m < entries.len() && entries[m].0 == key_insert(entries, key, value)[i].0,
    decreases entries.len(),
{
    let r = key_insert(entries, key, value);
    if entries.len() == 0 {
    } else if entries[0].0 == key {
        assert forall|i: int| 0 <= i < r.len() implies (#[trigger] r[i]).0 == key || exists|m: int|
            0 <= m < entries.len() && entries[m].0 == r[i].0 by {
            if i > 0 {
                assert(r[i] == entries[i]);
            }
        }
    } else if str_lt(key, entries[0].0) {
        assert forall|i: int| 0 <= i < r.len() implies (#[trigger] r[i]).0 == key || exists|m: int|
            0 <= m < entries.len() && entries[m].0 == r[i].0 by {
            if i > 0 {
                assert(r[i] == entries[i - 1]);
            }
        }
    } else {
        let rest = entries.drop_first();
        lemma_key_insert_members(rest, key, value);
        let tail = key_insert(rest, key, value);
        assert forall|i: int| 0 <= i < r.len() implies (#[trigger] r[i]).0 == key || exists|m: int|
            0 <= m < entries.len() && entries[m].0 == r[i].0 by {
            if i == 0 {
                assert(r[0] == entries[0]);
            } else {
                assert(r[i] == tail[i - 1]);
                if tail[i - 1].0 != key {
                    let m = choose|m: int| 0 <= m < rest.len() && rest[m].0 == tail[i - 1].0;
                    assert(rest[m] == entries[m + 1]);
                }
            }
        }
    }
}

} // verus!
