//! The mathematical model of the cache.
//!
//! A cache state is a sequence of buckets in ascending frequency order;
//! a bucket is an access count together with the entries holding that
//! count, newest first.  Every operation of the executable cache is
//! specified as a function on this model.

use vstd::prelude::*;

verus! {

/// One cached association: a key and the text of its value.
#[verifier::ext_equal]
pub struct SpecEntry {
    pub key: Seq<char>,
    pub value: Seq<char>,
}

/// One frequency bucket: the access count and the entries holding that
/// count, ordered newest first.
#[verifier::ext_equal]
pub struct SpecBucket {
    pub freq: nat,
    pub entries: Seq<SpecEntry>,
}

/// A cache state: the buckets in ascending frequency order.
pub type Model = Seq<SpecBucket>;

/// `(i, j)` addresses entry `j` of bucket `i`.
pub open spec fn valid_pos(m: Model, i: int, j: int) -> bool {
    0 <= i < m.len() && 0 <= j < m[i].entries.len()
}

pub open spec fn bucket_has_key(b: SpecBucket, k: Seq<char>) -> bool {
    exists|j: int| 0 <= j < b.entries.len() && b.entries[j].key == k
}

pub open spec fn model_contains(m: Model, k: Seq<char>) -> bool {
    exists|i: int| 0 <= i < m.len() && bucket_has_key(m[i], k)
}

/// The bucket holding key `k`; meaningful when `k` is live and keys are
/// unique.
pub open spec fn key_bucket_idx(m: Model, k: Seq<char>) -> int {
    choose|i: int| 0 <= i < m.len() && bucket_has_key(m[i], k)
}

/// The position of key `k` inside its bucket.
pub open spec fn key_entry_idx(m: Model, k: Seq<char>) -> int {
    let i = key_bucket_idx(m, k);
    choose|j: int| 0 <= j < m[i].entries.len() && m[i].entries[j].key == k
}

/// The value currently associated with a live key `k`.
pub open spec fn model_value(m: Model, k: Seq<char>) -> Seq<char> {
    m[key_bucket_idx(m, k)].entries[key_entry_idx(m, k)].value
}

/// The access count of a live key `k`.
pub open spec fn model_freq(m: Model, k: Seq<char>) -> nat {
    m[key_bucket_idx(m, k)].freq
}

/// The number of entries over all buckets.
pub open spec fn model_len(m: Model) -> nat
    decreases m.len(),
{
    if m.len() == 0 {
        0
    } else {
        m[0].entries.len() + model_len(m.drop_first())
    }
}

/// Bucket frequencies are strictly ascending from head to tail.
pub open spec fn buckets_sorted(m: Model) -> bool {
    forall|a: int, b: int| 0 <= a < b < m.len() ==> m[a].freq < m[b].freq
}

/// No bucket is ever kept empty.
pub open spec fn buckets_nonempty(m: Model) -> bool {
    forall|a: int| 0 <= a < m.len() ==> (#[trigger] m[a].entries).len() >= 1
}

/// Every frequency is at least one.
pub open spec fn freqs_positive(m: Model) -> bool {
    forall|a: int| 0 <= a < m.len() ==> (#[trigger] m[a].freq) >= 1
}

/// No key appears at two distinct positions.
pub open spec fn keys_unique(m: Model) -> bool {
    forall|i1: int, j1: int, i2: int, j2: int|
        valid_pos(m, i1, j1) && valid_pos(m, i2, j2) && (i1 != i2 || j1 != j2)
            ==> (#[trigger] m[i1].entries[j1]).key != (#[trigger] m[i2].entries[j2]).key
}

/// The structural invariants of a cache state.
pub open spec fn buckets_wf(m: Model) -> bool {
    buckets_sorted(m) && buckets_nonempty(m) && freqs_positive(m) && keys_unique(m)
}

pub open spec fn bucket_remove_entry(b: SpecBucket, j: int) -> SpecBucket {
    SpecBucket { freq: b.freq, entries: b.entries.remove(j) }
}

pub open spec fn bucket_push_front(b: SpecBucket, e: SpecEntry) -> SpecBucket {
    SpecBucket { freq: b.freq, entries: b.entries.insert(0, e) }
}

/// Remove the entry at `(i, j)`, dropping bucket `i` if that empties it.
pub open spec fn model_remove_at(m: Model, i: int, j: int) -> Model {
    if m[i].entries.len() == 1 {
        m.remove(i)
    } else {
        m.update(i, bucket_remove_entry(m[i], j))
    }
}

/// Remove key `k` if it is live; otherwise leave the state unchanged.
pub open spec fn model_remove_key(m: Model, k: Seq<char>) -> Model {
    if model_contains(m, k) {
        model_remove_at(m, key_bucket_idx(m, k), key_entry_idx(m, k))
    } else {
        m
    }
}

/// Place entry `e` with frequency `f + 1` at bucket position `pos`:
/// push it onto the head of the bucket already holding `f + 1`, or
/// splice in a fresh bucket there.
pub open spec fn model_place(m1: Model, pos: int, f: nat, e: SpecEntry) -> Model {
    if pos < m1.len() && m1[pos].freq == f + 1 {
        m1.update(pos, bucket_push_front(m1[pos], e))
    } else {
        m1.insert(pos, SpecBucket { freq: f + 1, entries: seq![e] })
    }
}

/// Move the entry at `(i, j)` to the bucket of the next frequency,
/// creating that bucket if absent and dropping bucket `i` if emptied.
pub open spec fn model_promote_at(m: Model, i: int, j: int) -> Model {
    let f = m[i].freq;
    let e = m[i].entries[j];
    let pos = if m[i].entries.len() == 1 {
        i
    } else {
        i + 1
    };
    model_place(model_remove_at(m, i, j), pos, f, e)
}

/// The state transition of a successful `get` of live key `k`.
pub open spec fn model_get(m: Model, k: Seq<char>) -> Model {
    model_promote_at(m, key_bucket_idx(m, k), key_entry_idx(m, k))
}

/// Replace the value of the entry at `(i, j)`, moving nothing.
pub open spec fn model_set_value_at(m: Model, i: int, j: int, v: Seq<char>) -> Model {
    let e0 = m[i].entries[j];
    m.update(
        i,
        SpecBucket {
            freq: m[i].freq,
            entries: m[i].entries.update(j, SpecEntry { key: e0.key, value: v }),
        },
    )
}

/// Admit a fresh entry at frequency one, at the head of the bucket list.
pub open spec fn model_admit(m: Model, k: Seq<char>, v: Seq<char>) -> Model {
    model_place(m, 0, 0, SpecEntry { key: k, value: v })
}

/// Evict the head entry of the lowest-frequency bucket: the newest
/// entry among those with the minimal access count.
pub open spec fn model_evict(m: Model) -> Model {
    model_remove_at(m, 0, 0)
}

/// The state transition of `insert`: an existing key has its value
/// replaced and its frequency promoted; a fresh key is admitted at
/// frequency one, after an eviction if the cache is full.
pub open spec fn model_insert(m: Model, cap: nat, k: Seq<char>, v: Seq<char>) -> Model {
    if model_contains(m, k) {
        model_promote_at(
            model_set_value_at(m, key_bucket_idx(m, k), key_entry_idx(m, k), v),
            key_bucket_idx(m, k),
            key_entry_idx(m, k),
        )
    } else {
        let m1 = if model_len(m) >= cap {
            model_evict(m)
        } else {
            m
        };
        model_admit(m1, k, v)
    }
}

pub proof fn lemma_model_len_update(m: Model, i: int, b: SpecBucket)
    requires
        0 <= i < m.len(),
    ensures
        model_len(m.update(i, b)) + m[i].entries.len() == model_len(m) + b.entries.len(),
    decreases m.len(),
{
    let mu = m.update(i, b);
    if i == 0 {
        assert(mu.drop_first() =~= m.drop_first());
    } else {
        assert(mu.drop_first() =~= m.drop_first().update(i - 1, b));
        lemma_model_len_update(m.drop_first(), i - 1, b);
    }
}

pub proof fn lemma_model_len_remove(m: Model, i: int)
    requires
        0 <= i < m.len(),
    ensures
        model_len(m.remove(i)) + m[i].entries.len() == model_len(m),
    decreases m.len(),
{
    let mr = m.remove(i);
    if i == 0 {
        assert(mr =~= m.drop_first());
    } else {
        assert(mr[0] == m[0]);
        assert(mr.drop_first() =~= m.drop_first().remove(i - 1));
        lemma_model_len_remove(m.drop_first(), i - 1);
    }
}

pub proof fn lemma_model_len_insert(m: Model, i: int, b: SpecBucket)
    requires
        0 <= i <= m.len(),
    ensures
        model_len(m.insert(i, b)) == model_len(m) + b.entries.len(),
    decreases m.len(),
{
    let mi = m.insert(i, b);
    if i == 0 {
        assert(mi[0] == b);
        assert(mi.drop_first() =~= m);
    } else {
        assert(mi[0] == m[0]);
        assert(mi.drop_first() =~= m.drop_first().insert(i - 1, b));
        lemma_model_len_insert(m.drop_first(), i - 1, b);
    }
}

/// A state with no empty buckets has entries exactly when it has buckets.
pub proof fn lemma_model_len_zero(m: Model)
    requires
        buckets_nonempty(m),
    ensures
        model_len(m) == 0 <==> m.len() == 0,
{
    if m.len() > 0 {
        assert(m[0].entries.len() >= 1);
    }
}

/// When keys are unique, any position holding key `k` is the position
/// the lookup functions denote.
pub proof fn lemma_key_at(m: Model, i: int, j: int)
    requires
        keys_unique(m),
        valid_pos(m, i, j),
    ensures
        model_contains(m, m[i].entries[j].key),
        key_bucket_idx(m, m[i].entries[j].key) == i,
        key_entry_idx(m, m[i].entries[j].key) == j,
        model_value(m, m[i].entries[j].key) == m[i].entries[j].value,
        model_freq(m, m[i].entries[j].key) == m[i].freq,
{
    let k = m[i].entries[j].key;
    assert(bucket_has_key(m[i], k));
    assert(model_contains(m, k));
    let i2 = key_bucket_idx(m, k);
    assert(0 <= i2 < m.len() && bucket_has_key(m[i2], k));
    let j2 = choose|jj: int| 0 <= jj < m[i2].entries.len() && m[i2].entries[jj].key == k;
    if i2 != i || j2 != j {
        assert(m[i2].entries[j2].key == m[i].entries[j].key);
        assert(false);
    }
    let j3 = key_entry_idx(m, k);
    assert(0 <= j3 < m[i2].entries.len() && m[i2].entries[j3].key == k);
    if j3 != j {
        assert(false);
    }
}

/// Removing the entry at `(i, j)` keeps the state well formed, drops
/// exactly that entry's key, and leaves every other key's value and
/// frequency alone.
pub proof fn lemma_remove_at(m: Model, i: int, j: int)
    requires
        buckets_wf(m),
        valid_pos(m, i, j),
    ensures
        buckets_wf(model_remove_at(m, i, j)),
        model_len(model_remove_at(m, i, j)) + 1 == model_len(m),
        !model_contains(model_remove_at(m, i, j), m[i].entries[j].key),
        forall|k: Seq<char>| k != m[i].entries[j].key ==> #[trigger] model_contains(
            model_remove_at(m, i, j),
            k,
        ) == model_contains(m, k),
        forall|k: Seq<char>|
            k != m[i].entries[j].key && #[trigger] model_contains(m, k) ==> model_value(
                model_remove_at(m, i, j),
                k,
            ) == model_value(m, k) && model_freq(model_remove_at(m, i, j), k) == model_freq(m, k),
{
    let k0 = m[i].entries[j].key;
    let m2 = model_remove_at(m, i, j);
    if m[i].entries.len() == 1 {
        // the whole bucket disappears; buckets after `i` shift left by one
        assert forall|a: int| 0 <= a < i implies m2[a] == m[a] by {}
        assert forall|a: int| i <= a < m2.len() implies m2[a] == m[a + 1] by {}
        assert(m2.len() == m.len() - 1);
        lemma_model_len_remove(m, i);
        assert(keys_unique(m2)) by {
            assert forall|i1: int, j1: int, i2: int, j2: int|
                valid_pos(m2, i1, j1) && valid_pos(m2, i2, j2) && (i1 != i2 || j1 != j2)
                    implies (m2[i1].entries[j1]).key != (m2[i2].entries[j2]).key by {
                let o1 = if i1 < i {
                    i1
                } else {
                    i1 + 1
                };
                let o2 = if i2 < i {
                    i2
                } else {
                    i2 + 1
                };
                assert(m2[i1] == m[o1]);
                assert(m2[i2] == m[o2]);
                assert(m[o1].entries[j1].key != m[o2].entries[j2].key);
            }
        }
        assert(!model_contains(m2, k0)) by {
            if model_contains(m2, k0) {
                let i1 = choose|ii: int| 0 <= ii < m2.len() && bucket_has_key(m2[ii], k0);
                let j1 = choose|jj: int|
                    0 <= jj < m2[i1].entries.len() && m2[i1].entries[jj].key == k0;
                let o1 = if i1 < i {
                    i1
                } else {
                    i1 + 1
                };
                assert(m[o1].entries[j1].key == m[i].entries[j].key);
                assert(false);
            }
        }
        assert forall|k: Seq<char>| k != k0 implies #[trigger] model_contains(m2, k)
            == model_contains(m, k) by {
            if model_contains(m, k) {
                let a = choose|ii: int| 0 <= ii < m.len() && bucket_has_key(m[ii], k);
                let b = choose|jj: int| 0 <= jj < m[a].entries.len() && m[a].entries[jj].key == k;
                assert(a != i) by {
                    if a == i {
                        assert(m[a].entries[b].key == k);
                        assert(b == j);
                    }
                }
                let a2 = if a < i {
                    a
                } else {
                    a - 1
                };
                assert(m2[a2] == m[a]);
                assert(bucket_has_key(m2[a2], k));
                assert(model_contains(m2, k));
            }
            if model_contains(m2, k) {
                let a = choose|ii: int| 0 <= ii < m2.len() && bucket_has_key(m2[ii], k);
                let o = if a < i {
                    a
                } else {
                    a + 1
                };
                assert(m2[a] == m[o]);
                assert(model_contains(m, k));
            }
        }
        assert forall|k: Seq<char>| k != k0 && #[trigger] model_contains(m, k) implies model_value(
            m2,
            k,
        ) == model_value(m, k) && model_freq(m2, k) == model_freq(m, k) by {
            let a = key_bucket_idx(m, k);
            let b = key_entry_idx(m, k);
            assert(bucket_has_key(m[a], k));
            assert(0 <= b < m[a].entries.len() && m[a].entries[b].key == k);
            lemma_key_at(m, a, b);
            assert(a != i) by {
                if a == i {
                    assert(b == j);
                }
            }
            let a2 = if a < i {
                a
            } else {
                a - 1
            };
            assert(m2[a2] == m[a]);
            lemma_key_at(m2, a2, b);
        }
    } else {
        // only bucket `i` changes: entry `j` leaves, later entries shift
        let es = m[i].entries;
        let es2 = es.remove(j);
        assert forall|a: int| 0 <= a < m2.len() && a != i implies m2[a] == m[a] by {}
        assert(m2[i].entries == es2);
        assert(m2[i].freq == m[i].freq);
        assert forall|b: int| 0 <= b < j implies es2[b] == es[b] by {}
        assert forall|b: int| j <= b < es2.len() implies es2[b] == es[b + 1] by {}
        lemma_model_len_update(m, i, bucket_remove_entry(m[i], j));
        assert(keys_unique(m2)) by {
            assert forall|i1: int, j1: int, i2: int, j2: int|
                valid_pos(m2, i1, j1) && valid_pos(m2, i2, j2) && (i1 != i2 || j1 != j2)
                    implies (m2[i1].entries[j1]).key != (m2[i2].entries[j2]).key by {
                let b1 = if i1 == i && j1 >= j {
                    j1 + 1
                } else {
                    j1
                };
                let b2 = if i2 == i && j2 >= j {
                    j2 + 1
                } else {
                    j2
                };
                assert(m2[i1].entries[j1] == m[i1].entries[b1]);
                assert(m2[i2].entries[j2] == m[i2].entries[b2]);
                assert(m[i1].entries[b1].key != m[i2].entries[b2].key);
            }
        }
        assert(!model_contains(m2, k0)) by {
            if model_contains(m2, k0) {
                let i1 = choose|ii: int| 0 <= ii < m2.len() && bucket_has_key(m2[ii], k0);
                let j1 = choose|jj: int|
                    0 <= jj < m2[i1].entries.len() && m2[i1].entries[jj].key == k0;
                let b1 = if i1 == i && j1 >= j {
                    j1 + 1
                } else {
                    j1
                };
                assert(m2[i1].entries[j1] == m[i1].entries[b1]);
                assert((i1, b1) != (i, j));
                assert(m[i1].entries[b1].key == m[i].entries[j].key);
                assert(false);
            }
        }
        assert forall|k: Seq<char>| k != k0 implies #[trigger] model_contains(m2, k)
            == model_contains(m, k) by {
            if model_contains(m, k) {
                let a = choose|ii: int| 0 <= ii < m.len() && bucket_has_key(m[ii], k);
                let b = choose|jj: int| 0 <= jj < m[a].entries.len() && m[a].entries[jj].key == k;
                if a != i {
                    assert(bucket_has_key(m2[a], k));
                } else {
                    assert(b != j);
                    let b2 = if b < j {
                        b
                    } else {
                        b - 1
                    };
                    assert(m2[i].entries[b2] == m[i].entries[b]);
                    assert(bucket_has_key(m2[i], k));
                }
                assert(model_contains(m2, k));
            }
            if model_contains(m2, k) {
                let a = choose|ii: int| 0 <= ii < m2.len() && bucket_has_key(m2[ii], k);
                let b = choose|jj: int| 0 <= jj < m2[a].entries.len() && m2[a].entries[jj].key == k;
                let b1 = if a == i && b >= j {
                    b + 1
                } else {
                    b
                };
                assert(m2[a].entries[b] == m[a].entries[b1]);
                assert(bucket_has_key(m[a], k));
                assert(model_contains(m, k));
            }
        }
        assert forall|k: Seq<char>| k != k0 && #[trigger] model_contains(m, k) implies model_value(
            m2,
            k,
        ) == model_value(m, k) && model_freq(m2, k) == model_freq(m, k) by {
            let a = key_bucket_idx(m, k);
            let b = key_entry_idx(m, k);
            assert(bucket_has_key(m[a], k));
            assert(0 <= b < m[a].entries.len() && m[a].entries[b].key == k);
            lemma_key_at(m, a, b);
            if a != i {
                lemma_key_at(m2, a, b);
            } else {
                assert(b != j);
                let b2 = if b < j {
                    b
                } else {
                    b - 1
                };
                assert(m2[i].entries[b2] == m[i].entries[b]);
                lemma_key_at(m2, i, b2);
            }
        }
    }
}

/// Placing a fresh entry of frequency `f + 1` at a fitting position
/// keeps the state well formed, makes exactly that key live, and leaves
/// every other key's value and frequency alone.
#[verifier::rlimit(100)]
pub proof fn lemma_place(m: Model, pos: int, f: nat, e: SpecEntry)
    requires
        buckets_wf(m),
        0 <= pos <= m.len(),
        !model_contains(m, e.key),
        pos > 0 ==> m[pos - 1].freq <= f,
        pos < m.len() ==> m[pos].freq > f,
    ensures
        buckets_wf(model_place(m, pos, f, e)),
        model_len(model_place(m, pos, f, e)) == model_len(m) + 1,
        model_contains(model_place(m, pos, f, e), e.key),
        model_value(model_place(m, pos, f, e), e.key) == e.value,
        model_freq(model_place(m, pos, f, e), e.key) == f + 1,
        forall|k: Seq<char>| k != e.key ==> #[trigger] model_contains(model_place(m, pos, f, e), k)
            == model_contains(m, k),
        forall|k: Seq<char>|
            k != e.key && #[trigger] model_contains(m, k) ==> model_value(
                model_place(m, pos, f, e),
                k,
            ) == model_value(m, k) && model_freq(model_place(m, pos, f, e), k) == model_freq(m, k),
{
    let m2 = model_place(m, pos, f, e);
    // a position of an old entry, and where it now sits
    if pos < m.len() && m[pos].freq == f + 1 {
        // the entry joins the head of the existing bucket at `pos`
        let es = m[pos].entries;
        let es2 = es.insert(0, e);
        assert forall|a: int| 0 <= a < m.len() && a != pos implies m2[a] == m[a] by {}
        assert(m2[pos].entries == es2);
        assert(m2[pos].freq == m[pos].freq);
        assert(es2[0] == e);
        assert forall|b: int| 0 <= b < es.len() implies es2[b + 1] == es[b] by {}
        lemma_model_len_update(m, pos, bucket_push_front(m[pos], e));
        assert(keys_unique(m2)) by {
            assert forall|i1: int, j1: int, i2: int, j2: int|
                valid_pos(m2, i1, j1) && valid_pos(m2, i2, j2) && (i1 != i2 || j1 != j2)
                    implies (m2[i1].entries[j1]).key != (m2[i2].entries[j2]).key by {
                let new1 = i1 == pos && j1 == 0;
                let new2 = i2 == pos && j2 == 0;
                let b1 = if i1 == pos {
                    j1 - 1
                } else {
                    j1
                };
                let b2 = if i2 == pos {
                    j2 - 1
                } else {
                    j2
                };
                if new1 && !new2 {
                    assert(m2[i2].entries[j2] == m[i2].entries[b2]);
                    if m[i2].entries[b2].key == e.key {
                        assert(bucket_has_key(m[i2], e.key));
                        assert(false);
                    }
                } else if !new1 && new2 {
                    assert(m2[i1].entries[j1] == m[i1].entries[b1]);
                    if m[i1].entries[b1].key == e.key {
                        assert(bucket_has_key(m[i1], e.key));
                        assert(false);
                    }
                } else if !new1 && !new2 {
                    assert(m2[i1].entries[j1] == m[i1].entries[b1]);
                    assert(m2[i2].entries[j2] == m[i2].entries[b2]);
                    assert(m[i1].entries[b1].key != m[i2].entries[b2].key);
                }
            }
        }
        assert(m2[pos].entries[0] == e);
        lemma_key_at(m2, pos, 0);
        assert forall|k: Seq<char>| k != e.key implies #[trigger] model_contains(m2, k)
            == model_contains(m, k) by {
            if model_contains(m, k) {
                let a = choose|ii: int| 0 <= ii < m.len() && bucket_has_key(m[ii], k);
                let b = choose|jj: int| 0 <= jj < m[a].entries.len() && m[a].entries[jj].key == k;
                if a == pos {
                    assert(m2[a].entries[b + 1] == m[a].entries[b]);
                    assert(bucket_has_key(m2[a], k));
                } else {
                    assert(bucket_has_key(m2[a], k));
                }
                assert(model_contains(m2, k));
            }
            if model_contains(m2, k) {
                let a = choose|ii: int| 0 <= ii < m2.len() && bucket_has_key(m2[ii], k);
                let b = choose|jj: int| 0 <= jj < m2[a].entries.len() && m2[a].entries[jj].key == k;
                if a == pos {
                    assert(b != 0);
                    assert(m2[a].entries[b] == m[a].entries[b - 1]);
                    assert(bucket_has_key(m[a], k));
                } else {
                    assert(bucket_has_key(m[a], k));
                }
                assert(model_contains(m, k));
            }
        }
        assert forall|k: Seq<char>| k != e.key && #[trigger] model_contains(m, k) implies
            model_value(m2, k) == model_value(m, k) && model_freq(m2, k) == model_freq(m, k) by {
            let a = key_bucket_idx(m, k);
            let b = key_entry_idx(m, k);
            assert(bucket_has_key(m[a], k));
            assert(0 <= b < m[a].entries.len() && m[a].entries[b].key == k);
            lemma_key_at(m, a, b);
            if a == pos {
                assert(m2[a].entries[b + 1] == m[a].entries[b]);
                lemma_key_at(m2, a, b + 1);
            } else {
                lemma_key_at(m2, a, b);
            }
        }
    } else {
        // a fresh singleton bucket is spliced in at `pos`
        let nb = SpecBucket { freq: (f + 1) as nat, entries: seq![e] };
        assert forall|a: int| 0 <= a < pos implies m2[a] == m[a] by {}
        assert forall|a: int| pos < a < m2.len() implies m2[a] == m[a - 1] by {}
        assert(m2[pos] == nb);
        assert(m2.len() == m.len() + 1);
        assert(buckets_sorted(m2)) by {
            assert forall|a: int, b: int| 0 <= a < b < m2.len() implies m2[a].freq < m2[b].freq by {
                if a < pos && b == pos {
                    assert(m2[a].freq == m[a].freq);
                    assert(m[a].freq <= m[pos - 1].freq);
                } else if a == pos && b > pos {
                    assert(m2[b].freq == m[b - 1].freq);
                    assert(m[pos].freq <= m[b - 1].freq);
                    assert(m[pos].freq != f + 1);
                } else if a < pos && b > pos {
                    assert(m2[a].freq == m[a].freq && m2[b].freq == m[b - 1].freq);
                } else if a > pos {
                    assert(m2[a].freq == m[a - 1].freq && m2[b].freq == m[b - 1].freq);
                } else {
                    assert(m2[a].freq == m[a].freq && m2[b].freq == m[b].freq);
                }
            }
        }
        lemma_model_len_insert(m, pos, nb);
        assert(keys_unique(m2)) by {
            assert forall|i1: int, j1: int, i2: int, j2: int|
                valid_pos(m2, i1, j1) && valid_pos(m2, i2, j2) && (i1 != i2 || j1 != j2)
                    implies (m2[i1].entries[j1]).key != (m2[i2].entries[j2]).key by {
                let new1 = i1 == pos;
                let new2 = i2 == pos;
                let o1 = if i1 < pos {
                    i1
                } else {
                    i1 - 1
                };
                let o2 = if i2 < pos {
                    i2
                } else {
                    i2 - 1
                };
                if new1 && !new2 {
                    assert(m2[i2].entries[j2] == m[o2].entries[j2]);
                    if m[o2].entries[j2].key == e.key {
                        assert(bucket_has_key(m[o2], e.key));
                        assert(false);
                    }
                } else if !new1 && new2 {
                    assert(m2[i1].entries[j1] == m[o1].entries[j1]);
                    if m[o1].entries[j1].key == e.key {
                        assert(bucket_has_key(m[o1], e.key));
                        assert(false);
                    }
                } else if !new1 && !new2 {
                    assert(m2[i1].entries[j1] == m[o1].entries[j1]);
                    assert(m2[i2].entries[j2] == m[o2].entries[j2]);
                    assert(m[o1].entries[j1].key != m[o2].entries[j2].key);
                }
            }
        }
        assert(m2[pos].entries[0] == e);
        lemma_key_at(m2, pos, 0);
        assert forall|k: Seq<char>| k != e.key implies #[trigger] model_contains(m2, k)
            == model_contains(m, k) by {
            if model_contains(m, k) {
                let a = choose|ii: int| 0 <= ii < m.len() && bucket_has_key(m[ii], k);
                let a2 = if a < pos {
                    a
                } else {
                    a + 1
                };
                assert(m2[a2] == m[a]);
                assert(bucket_has_key(m2[a2], k));
                assert(model_contains(m2, k));
            }
            if model_contains(m2, k) {
                let a = choose|ii: int| 0 <= ii < m2.len() && bucket_has_key(m2[ii], k);
                assert(a != pos) by {
                    if a == pos {
                        let b = choose|jj: int|
                            0 <= jj < m2[a].entries.len() && m2[a].entries[jj].key == k;
                        assert(b == 0);
                    }
                }
                let o = if a < pos {
                    a
                } else {
                    a - 1
                };
                assert(m2[a] == m[o]);
                assert(model_contains(m, k));
            }
        }
        assert forall|k: Seq<char>| k != e.key && #[trigger] model_contains(m, k) implies
            model_value(m2, k) == model_value(m, k) && model_freq(m2, k) == model_freq(m, k) by {
            let a = key_bucket_idx(m, k);
            let b = key_entry_idx(m, k);
            assert(bucket_has_key(m[a], k));
            assert(0 <= b < m[a].entries.len() && m[a].entries[b].key == k);
            lemma_key_at(m, a, b);
            let a2 = if a < pos {
                a
            } else {
                a + 1
            };
            assert(m2[a2] == m[a]);
            lemma_key_at(m2, a2, b);
        }
    }
}

/// Replacing the value at `(i, j)` moves nothing: every key keeps its
/// place and frequency, and only that entry's value changes.
pub proof fn lemma_set_value_at(m: Model, i: int, j: int, v: Seq<char>)
    requires
        buckets_wf(m),
        valid_pos(m, i, j),
    ensures
        buckets_wf(model_set_value_at(m, i, j, v)),
        model_len(model_set_value_at(m, i, j, v)) == model_len(m),
        model_set_value_at(m, i, j, v).len() == m.len(),
        valid_pos(model_set_value_at(m, i, j, v), i, j),
        model_set_value_at(m, i, j, v)[i].entries.len() == m[i].entries.len(),
        model_set_value_at(m, i, j, v)[i].entries[j] == (SpecEntry {
            key: m[i].entries[j].key,
            value: v,
        }),
        model_set_value_at(m, i, j, v)[i].freq == m[i].freq,
        forall|k: Seq<char>| #[trigger] model_contains(model_set_value_at(m, i, j, v), k)
            == model_contains(m, k),
        model_value(model_set_value_at(m, i, j, v), m[i].entries[j].key) == v,
        model_freq(model_set_value_at(m, i, j, v), m[i].entries[j].key) == model_freq(
            m,
            m[i].entries[j].key,
        ),
        forall|k: Seq<char>|
            k != m[i].entries[j].key && #[trigger] model_contains(m, k) ==> model_value(
                model_set_value_at(m, i, j, v),
                k,
            ) == model_value(m, k) && model_freq(model_set_value_at(m, i, j, v), k) == model_freq(
                m,
                k,
            ),
        key_bucket_idx(model_set_value_at(m, i, j, v), m[i].entries[j].key) == key_bucket_idx(
            m,
            m[i].entries[j].key,
        ),
        key_entry_idx(model_set_value_at(m, i, j, v), m[i].entries[j].key) == key_entry_idx(
            m,
            m[i].entries[j].key,
        ),
{
    let k0 = m[i].entries[j].key;
    let m2 = model_set_value_at(m, i, j, v);
    assert forall|a: int| 0 <= a < m.len() && a != i implies m2[a] == m[a] by {}
    assert(m2[i].freq == m[i].freq);
    assert forall|b: int| 0 <= b < m[i].entries.len() && b != j implies m2[i].entries[b]
        == m[i].entries[b] by {}
    assert forall|a: int, b: int| valid_pos(m, a, b) implies valid_pos(m2, a, b) && m2[a].entries[
        b
    ].key == m[a].entries[b].key by {}
    lemma_model_len_update(m, i, m2[i]);
    assert(keys_unique(m2)) by {
        assert forall|i1: int, j1: int, i2: int, j2: int|
            valid_pos(m2, i1, j1) && valid_pos(m2, i2, j2) && (i1 != i2 || j1 != j2)
                implies (m2[i1].entries[j1]).key != (m2[i2].entries[j2]).key by {
            assert(m2[i1].entries[j1].key == m[i1].entries[j1].key);
            assert(m2[i2].entries[j2].key == m[i2].entries[j2].key);
            assert(m[i1].entries[j1].key != m[i2].entries[j2].key);
        }
    }
    assert forall|k: Seq<char>| #[trigger] model_contains(m2, k) == model_contains(m, k) by {
        if model_contains(m, k) {
            let a = choose|ii: int| 0 <= ii < m.len() && bucket_has_key(m[ii], k);
            let b = choose|jj: int| 0 <= jj < m[a].entries.len() && m[a].entries[jj].key == k;
            assert(m2[a].entries[b].key == k);
            assert(bucket_has_key(m2[a], k));
            assert(model_contains(m2, k));
        }
        if model_contains(m2, k) {
            let a = choose|ii: int| 0 <= ii < m2.len() && bucket_has_key(m2[ii], k);
            let b = choose|jj: int| 0 <= jj < m2[a].entries.len() && m2[a].entries[jj].key == k;
            assert(m[a].entries[b].key == k);
            assert(bucket_has_key(m[a], k));
            assert(model_contains(m, k));
        }
    }
    lemma_key_at(m, i, j);
    assert(m2[i].entries[j].key == k0);
    lemma_key_at(m2, i, j);
    assert forall|k: Seq<char>| k != k0 && #[trigger] model_contains(m, k) implies model_value(
        m2,
        k,
    ) == model_value(m, k) && model_freq(m2, k) == model_freq(m, k) by {
        let a = key_bucket_idx(m, k);
        let b = key_entry_idx(m, k);
        assert(bucket_has_key(m[a], k));
        assert(0 <= b < m[a].entries.len() && m[a].entries[b].key == k);
        lemma_key_at(m, a, b);
        assert(m2[a].entries[b].key == k);
        assert((a, b) != (i, j));
        assert(m2[a].entries[b] == m[a].entries[b]);
        lemma_key_at(m2, a, b);
    }
}

/// Promotion moves exactly one entry one frequency upward: the state
/// stays well formed, the total count is unchanged, the promoted key
/// keeps its value and gains one on its frequency, and every other key
/// keeps its value and frequency.
pub proof fn lemma_promote_at(m: Model, i: int, j: int)
    requires
        buckets_wf(m),
        valid_pos(m, i, j),
    ensures
        buckets_wf(model_promote_at(m, i, j)),
        model_len(model_promote_at(m, i, j)) == model_len(m),
        model_contains(model_promote_at(m, i, j), m[i].entries[j].key),
        model_value(model_promote_at(m, i, j), m[i].entries[j].key) == m[i].entries[j].value,
        model_freq(model_promote_at(m, i, j), m[i].entries[j].key) == m[i].freq + 1,
        forall|k: Seq<char>| #[trigger] model_contains(model_promote_at(m, i, j), k)
            == model_contains(m, k),
        forall|k: Seq<char>| #[trigger] model_contains(m, k) ==> model_value(
            model_promote_at(m, i, j),
            k,
        ) == model_value(m, k),
        forall|k: Seq<char>|
            k != m[i].entries[j].key && #[trigger] model_contains(m, k) ==> model_freq(
                model_promote_at(m, i, j),
                k,
            ) == model_freq(m, k),
{
    let k0 = m[i].entries[j].key;
    let f = m[i].freq;
    let e = m[i].entries[j];
    let pos = if m[i].entries.len() == 1 {
        i
    } else {
        i + 1
    };
    let m1 = model_remove_at(m, i, j);
    lemma_remove_at(m, i, j);
    lemma_key_at(m, i, j);
    // the neighbours of `pos` in the stripped state bound `f` correctly
    if m[i].entries.len() == 1 {
        assert(m1 =~= m.remove(i));
        assert(pos > 0 ==> m1[pos - 1] == m[i - 1]);
        assert(pos < m1.len() ==> m1[pos] == m[i + 1]);
    } else {
        assert(pos > 0 ==> m1[pos - 1].freq == m[i].freq);
        assert(pos < m1.len() ==> m1[pos] == m[i + 1]);
    }
    lemma_place(m1, pos, f, e);
    let m2 = model_place(m1, pos, f, e);
    assert(m2 == model_promote_at(m, i, j));
    assert forall|k: Seq<char>| #[trigger] model_contains(m2, k) == model_contains(m, k) by {
        if k == k0 {
            assert(model_contains(m2, k0));
            assert(model_contains(m, k0));
        }
    }
    assert forall|k: Seq<char>| #[trigger] model_contains(m, k) implies model_value(m2, k)
        == model_value(m, k) by {
        if k == k0 {
            assert(model_value(m2, k0) == e.value);
            assert(model_value(m, k0) == e.value);
        } else {
            assert(model_contains(m1, k));
            assert(model_value(m1, k) == model_value(m, k));
            assert(model_value(m2, k) == model_value(m1, k));
        }
    }
    assert forall|k: Seq<char>| k != k0 && #[trigger] model_contains(m, k) implies model_freq(
        m2,
        k,
    ) == model_freq(m, k) by {
        assert(model_contains(m1, k));
        assert(model_freq(m1, k) == model_freq(m, k));
        assert(model_freq(m2, k) == model_freq(m1, k));
    }
}

/// After `insert(k, v)` the key `k` is live with value `v`: a fresh
/// key enters at frequency one, an existing key keeps its entry and
/// gains one on its frequency, and the state stays well formed and
/// within capacity.
pub proof fn law_insert_associates_value(m: Model, cap: nat, k: Seq<char>, v: Seq<char>)
    requires
        buckets_wf(m),
        cap >= 1,
        model_len(m) <= cap,
    ensures
        buckets_wf(model_insert(m, cap, k, v)),
        model_contains(model_insert(m, cap, k, v), k),
        model_value(model_insert(m, cap, k, v), k) == v,
        model_len(model_insert(m, cap, k, v)) <= cap,
        !model_contains(m, k) ==> model_freq(model_insert(m, cap, k, v), k) == 1,
        model_contains(m, k) ==> model_freq(model_insert(m, cap, k, v), k) == model_freq(m, k)
            + 1,
{
    if model_contains(m, k) {
        let i = key_bucket_idx(m, k);
        let j = key_entry_idx(m, k);
        assert(bucket_has_key(m[i], k));
        assert(0 <= j < m[i].entries.len() && m[i].entries[j].key == k);
        lemma_set_value_at(m, i, j, v);
        let msv = model_set_value_at(m, i, j, v);
        lemma_promote_at(msv, i, j);
        lemma_key_at(m, i, j);
    } else {
        let m1 = if model_len(m) >= cap {
            model_evict(m)
        } else {
            m
        };
        if model_len(m) >= cap {
            lemma_model_len_zero(m);
            assert(valid_pos(m, 0, 0));
            lemma_remove_at(m, 0, 0);
        }
        assert(!model_contains(m1, k));
        if m1.len() > 0 {
            assert(m1[0].freq >= 1);
        }
        lemma_place(m1, 0, 0, SpecEntry { key: k, value: v });
    }
}

/// `get` promotes only a frequency: every live key stays live with the
/// same value, and no key appears or disappears.
pub proof fn law_get_preserves_values(m: Model, k: Seq<char>)
    requires
        buckets_wf(m),
        model_contains(m, k),
    ensures
        buckets_wf(model_get(m, k)),
        forall|k2: Seq<char>| #[trigger] model_contains(model_get(m, k), k2) == model_contains(
            m,
            k2,
        ),
        forall|k2: Seq<char>| #[trigger] model_contains(m, k2) ==> model_value(model_get(m, k), k2)
            == model_value(m, k2),
{
    let i = key_bucket_idx(m, k);
    let j = key_entry_idx(m, k);
    assert(bucket_has_key(m[i], k));
    assert(0 <= j < m[i].entries.len() && m[i].entries[j].key == k);
    lemma_promote_at(m, i, j);
}

/// `remove(k)` leaves every other key's presence, value and frequency
/// alone.
pub proof fn law_remove_preserves_other_values(m: Model, k: Seq<char>)
    requires
        buckets_wf(m),
    ensures
        buckets_wf(model_remove_key(m, k)),
        forall|k2: Seq<char>| k2 != k ==> #[trigger] model_contains(model_remove_key(m, k), k2)
            == model_contains(m, k2),
        forall|k2: Seq<char>|
            k2 != k && #[trigger] model_contains(m, k2) ==> model_value(model_remove_key(m, k), k2)
                == model_value(m, k2) && model_freq(model_remove_key(m, k), k2) == model_freq(
                m,
                k2,
            ),
{
    if model_contains(m, k) {
        let i = key_bucket_idx(m, k);
        let j = key_entry_idx(m, k);
        assert(bucket_has_key(m[i], k));
        assert(0 <= j < m[i].entries.len() && m[i].entries[j].key == k);
        lemma_remove_at(m, i, j);
    }
}

/// `insert(k, v)` leaves any other live key's value alone, save for
/// the one entry an admission at capacity evicts.
pub proof fn law_insert_preserves_other_values(
    m: Model,
    cap: nat,
    k: Seq<char>,
    v: Seq<char>,
    k2: Seq<char>,
)
    requires
        buckets_wf(m),
        cap >= 1,
        model_len(m) <= cap,
        k2 != k,
        model_contains(m, k2),
        model_contains(m, k) || model_len(m) < cap || k2 != m[0].entries[0].key,
    ensures
        model_contains(model_insert(m, cap, k, v), k2),
        model_value(model_insert(m, cap, k, v), k2) == model_value(m, k2),
{
    if model_contains(m, k) {
        let i = key_bucket_idx(m, k);
        let j = key_entry_idx(m, k);
        assert(bucket_has_key(m[i], k));
        assert(0 <= j < m[i].entries.len() && m[i].entries[j].key == k);
        lemma_set_value_at(m, i, j, v);
        let msv = model_set_value_at(m, i, j, v);
        lemma_promote_at(msv, i, j);
        lemma_key_at(m, i, j);
    } else {
        let m1 = if model_len(m) >= cap {
            model_evict(m)
        } else {
            m
        };
        if model_len(m) >= cap {
            lemma_model_len_zero(m);
            assert(valid_pos(m, 0, 0));
            lemma_remove_at(m, 0, 0);
        }
        assert(!model_contains(m1, k));
        assert(model_contains(m1, k2) && model_value(m1, k2) == model_value(m, k2));
        if m1.len() > 0 {
            assert(m1[0].freq >= 1);
        }
        lemma_place(m1, 0, 0, SpecEntry { key: k, value: v });
    }
}

/// Below capacity, admitting a fresh key makes exactly that key live
/// and raises the count by one: the count tracks the number of
/// distinct live keys.
pub proof fn law_admission_tracks_live_keys(m: Model, cap: nat, k: Seq<char>, v: Seq<char>)
    requires
        buckets_wf(m),
        cap >= 1,
        model_len(m) < cap,
        !model_contains(m, k),
    ensures
        model_len(model_insert(m, cap, k, v)) == model_len(m) + 1,
        forall|k2: Seq<char>| #[trigger] model_contains(model_insert(m, cap, k, v), k2) == (
        model_contains(m, k2) || k2 == k),
{
    if m.len() > 0 {
        assert(m[0].freq >= 1);
    }
    lemma_place(m, 0, 0, SpecEntry { key: k, value: v });
}

/// Inserting over an existing key or getting a key changes no key's
/// liveness and keeps the count.
pub proof fn law_update_keeps_live_keys(m: Model, cap: nat, k: Seq<char>, v: Seq<char>)
    requires
        buckets_wf(m),
        model_contains(m, k),
    ensures
        model_len(model_insert(m, cap, k, v)) == model_len(m),
        forall|k2: Seq<char>| #[trigger] model_contains(model_insert(m, cap, k, v), k2)
            == model_contains(m, k2),
        model_len(model_get(m, k)) == model_len(m),
        forall|k2: Seq<char>| #[trigger] model_contains(model_get(m, k), k2) == model_contains(
            m,
            k2,
        ),
{
    let i = key_bucket_idx(m, k);
    let j = key_entry_idx(m, k);
    assert(bucket_has_key(m[i], k));
    assert(0 <= j < m[i].entries.len() && m[i].entries[j].key == k);
    lemma_set_value_at(m, i, j, v);
    let msv = model_set_value_at(m, i, j, v);
    lemma_promote_at(msv, i, j);
    lemma_promote_at(m, i, j);
}

/// Removing a live key deletes exactly that key and lowers the count
/// by one.
pub proof fn law_removal_tracks_live_keys(m: Model, k: Seq<char>)
    requires
        buckets_wf(m),
        model_contains(m, k),
    ensures
        model_len(model_remove_key(m, k)) + 1 == model_len(m),
        forall|k2: Seq<char>| #[trigger] model_contains(model_remove_key(m, k), k2) == (
        model_contains(m, k2) && k2 != k),
{
    let i = key_bucket_idx(m, k);
    let j = key_entry_idx(m, k);
    assert(bucket_has_key(m[i], k));
    assert(0 <= j < m[i].entries.len() && m[i].entries[j].key == k);
    lemma_remove_at(m, i, j);
}

/// Removing a key twice is the same as removing it once: the first
/// removal already leaves the key dead, so the second changes nothing.
pub proof fn law_remove_idempotent(m: Model, k: Seq<char>)
    requires
        buckets_wf(m),
    ensures
        !model_contains(model_remove_key(m, k), k),
        model_remove_key(model_remove_key(m, k), k) == model_remove_key(m, k),
{
    if model_contains(m, k) {
        let i = key_bucket_idx(m, k);
        let j = key_entry_idx(m, k);
        assert(bucket_has_key(m[i], k));
        assert(0 <= j < m[i].entries.len() && m[i].entries[j].key == k);
        lemma_remove_at(m, i, j);
    }
}

/// A `get` raises the key's frequency by exactly one and keeps its
/// value.
pub proof fn law_get_increments_frequency(m: Model, k: Seq<char>)
    requires
        buckets_wf(m),
        model_contains(m, k),
    ensures
        model_freq(model_get(m, k), k) == model_freq(m, k) + 1,
        model_value(model_get(m, k), k) == model_value(m, k),
{
    let i = key_bucket_idx(m, k);
    let j = key_entry_idx(m, k);
    assert(bucket_has_key(m[i], k));
    assert(0 <= j < m[i].entries.len() && m[i].entries[j].key == k);
    lemma_promote_at(m, i, j);
}

/// `insert(k, v)` followed by `get(k)` raises `k`'s frequency by
/// exactly one over what the insertion left: from one to two for a
/// fresh key.
pub proof fn law_insert_then_get_frequency(m: Model, cap: nat, k: Seq<char>, v: Seq<char>)
    requires
        buckets_wf(m),
        cap >= 1,
        model_len(m) <= cap,
    ensures
        model_freq(model_get(model_insert(m, cap, k, v), k), k) == model_freq(
            model_insert(m, cap, k, v),
            k,
        ) + 1,
        !model_contains(m, k) ==> model_freq(model_get(model_insert(m, cap, k, v), k), k) == 2,
{
    law_insert_associates_value(m, cap, k, v);
    law_get_increments_frequency(model_insert(m, cap, k, v), k);
}

/// The set of keys the state holds an entry for.
pub open spec fn live_key_set(m: Model) -> Set<Seq<char>> {
    Set::new(|k: Seq<char>| model_contains(m, k))
}

/// The entry count of a well-formed state equals the number of
/// distinct live keys: no key is ever counted twice.
pub proof fn law_len_counts_distinct_live_keys(m: Model)
    requires
        buckets_wf(m),
    ensures
        live_key_set(m).finite(),
        live_key_set(m).len() == model_len(m),
    decreases model_len(m),
{
    if m.len() == 0 {
        assert(live_key_set(m) =~= Set::<Seq<char>>::empty());
    } else {
        assert(m[0].entries.len() >= 1);
        let k0 = m[0].entries[0].key;
        lemma_key_at(m, 0, 0);
        lemma_remove_at(m, 0, 0);
        let m2 = model_remove_at(m, 0, 0);
        lemma_model_len_zero(m);
        law_len_counts_distinct_live_keys(m2);
        assert(live_key_set(m) =~= live_key_set(m2).insert(k0));
        assert(!live_key_set(m2).contains(k0));
    }
}

/// An admission at capacity evicts exactly one entry: the count stays
/// at capacity, the fresh key is live, and the victim is gone.
pub proof fn law_full_admission_evicts_one(m: Model, cap: nat, k: Seq<char>, v: Seq<char>)
    requires
        buckets_wf(m),
        cap >= 1,
        model_len(m) == cap,
        !model_contains(m, k),
    ensures
        model_len(model_insert(m, cap, k, v)) == cap,
        model_contains(model_insert(m, cap, k, v), k),
        !model_contains(model_insert(m, cap, k, v), m[0].entries[0].key),
{
    lemma_model_len_zero(m);
    assert(valid_pos(m, 0, 0));
    lemma_key_at(m, 0, 0);
    lemma_remove_at(m, 0, 0);
    let m1 = model_evict(m);
    if m1.len() > 0 {
        assert(m1[0].freq >= 1);
    }
    lemma_place(m1, 0, 0, SpecEntry { key: k, value: v });
}

/// The eviction victim is the newest entry of the lowest-frequency
/// bucket: it holds the minimal frequency present, and eviction
/// removes exactly that one entry.
pub proof fn law_evict_removes_least_frequent(m: Model)
    requires
        buckets_wf(m),
        m.len() > 0,
    ensures
        model_contains(m, m[0].entries[0].key),
        model_freq(m, m[0].entries[0].key) == m[0].freq,
        forall|k: Seq<char>| #[trigger] model_contains(m, k) ==> model_freq(m, k) >= m[0].freq,
        !model_contains(model_evict(m), m[0].entries[0].key),
        model_len(model_evict(m)) + 1 == model_len(m),
        forall|k: Seq<char>| k != m[0].entries[0].key ==> #[trigger] model_contains(
            model_evict(m),
            k,
        ) == model_contains(m, k),
{
    assert(m[0].entries.len() >= 1);
    lemma_key_at(m, 0, 0);
    lemma_remove_at(m, 0, 0);
    assert forall|k: Seq<char>| #[trigger] model_contains(m, k) implies model_freq(m, k)
        >= m[0].freq by {
        let a = key_bucket_idx(m, k);
        assert(0 <= a < m.len() && bucket_has_key(m[a], k));
        if a > 0 {
            assert(m[0].freq < m[a].freq);
        }
    }
}

} // verus!
