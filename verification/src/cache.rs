//! The executable cache.
//!
//! Entries live in frequency buckets held in a vector ordered by
//! strictly ascending access count; within a bucket the newest entry is
//! first.  Links between nodes are positions in these vectors, so the
//! cyclic ownership of a pointer-linked design never arises.

use crate::model::buckets_wf;
use crate::model::bucket_has_key;
use crate::model::key_bucket_idx;
use crate::model::keys_unique;
use crate::model::key_entry_idx;
use crate::model::lemma_key_at;
use crate::model::lemma_model_len_zero;
use crate::model::lemma_place;
use crate::model::lemma_promote_at;
use crate::model::lemma_remove_at;
use crate::model::lemma_set_value_at;
use crate::model::bucket_push_front;
use crate::model::model_admit;
use crate::model::model_contains;
use crate::model::model_evict;
use crate::model::model_freq;
use crate::model::model_get;
use crate::model::model_insert;
use crate::model::model_len;
use crate::model::model_place;
use crate::model::model_promote_at;
use crate::model::model_remove_at;
use crate::model::model_remove_key;
use crate::model::model_set_value_at;
use crate::model::model_value;
use crate::model::valid_pos;
use crate::model::Model;
use crate::model::SpecBucket;
use crate::model::SpecEntry;
use crate::text::push_dec;
use crate::text::spec_bucket_text;
use crate::text::spec_dump;
use crate::text::spec_entries_text;
use vstd::pervasive::unreached;
use vstd::prelude::*;
use vstd::string::StringExecFns;

verus! {

/// A single node in the cache: one key together with its value's text.
pub struct CacheNode {
    pub key: String,
    pub value: String,
}

impl View for CacheNode {
    type V = SpecEntry;

    open spec fn view(&self) -> SpecEntry {
        SpecEntry { key: self.key@, value: self.value@ }
    }
}

impl CacheNode {
    /// The value the cache currently holds for this node's key; used
    /// for display and inspection.
    pub fn get_associated_data<'a>(&self, cache: &'a LFUCache) -> (r: &'a String)
        requires
            cache.wf(),
            model_contains(cache@, self.key@),
        ensures
            r@ == model_value(cache@, self.key@),
    {
        match cache.find_key(&self.key) {
            Option::Some((i, j)) => {
                proof {
                    lemma_key_at(cache@, i as int, j as int);
                }
                &cache.buckets[i].nodes[j].value
            },
            Option::None => unreached(),
        }
    }
}

/// The nodes sharing one access count, newest first; itself one element
/// of the cache's bucket list.
pub struct FrequencyList {
    pub frequency: usize,
    pub nodes: Vec<CacheNode>,
}

impl View for FrequencyList {
    type V = SpecBucket;

    open spec fn view(&self) -> SpecBucket {
        SpecBucket {
            freq: self.frequency as nat,
            entries: self.nodes@.map_values(|n: CacheNode| n@),
        }
    }
}

impl FrequencyList {
    /// An empty bucket for the given access count.
    pub fn new(freq: usize) -> (r: FrequencyList)
        ensures
            r@ == (SpecBucket { freq: freq as nat, entries: Seq::<SpecEntry>::empty() }),
    {
        let r = FrequencyList { frequency: freq, nodes: Vec::new() };
        proof {
            assert(r@.entries =~= Seq::<SpecEntry>::empty());
            assert(r@ =~~= (SpecBucket { freq: freq as nat, entries: Seq::<SpecEntry>::empty() }));
        }
        r
    }

    /// Place a node at the head of this bucket's list.
    pub fn push(&mut self, node: CacheNode)
        ensures
            final(self)@ == bucket_push_front(old(self)@, node@),
    {
        self.nodes.insert(0, node);
        proof {
            assert(self@ =~~= bucket_push_front(old(self)@, node@));
        }
    }

    /// Detach and return the head node; the former second node becomes
    /// the head.  An empty bucket returns nothing.
    pub fn pop_head(&mut self) -> (r: Option<CacheNode>)
        ensures
            match r {
                Option::None => old(self)@.entries.len() == 0 && *final(self) == *old(self),
                Option::Some(n) => {
                    &&& old(self)@.entries.len() > 0
                    &&& n@ == old(self)@.entries[0]
                    &&& final(self)@ == (SpecBucket {
                        freq: old(self)@.freq,
                        entries: old(self)@.entries.drop_first(),
                    })
                },
            },
    {
        if self.nodes.len() == 0 {
            Option::None
        } else {
            let n = self.nodes.remove(0);
            proof {
                assert(self@.entries =~= old(self)@.entries.drop_first());
                assert(self@ =~~= (SpecBucket {
                    freq: old(self)@.freq,
                    entries: old(self)@.entries.drop_first(),
                }));
            }
            Option::Some(n)
        }
    }

    /// The bucket's dump line without its newline: the access count,
    /// then each value from the newest node to the oldest.
    pub fn to_string(&self) -> (r: String)
        ensures
            r@ == spec_bucket_text(self@),
    {
        let mut line = String::from_str("Count ");
        push_dec(&mut line, self.frequency);
        line.append(":");
        proof {
            assert(self@.entries.skip(0) =~= self@.entries);
            assert(line@ + spec_entries_text(self@.entries.skip(0)) =~= spec_bucket_text(self@));
        }
        let mut j: usize = 0;
        while j < self.nodes.len()
            invariant
                j <= self@.entries.len(),
                line@ + spec_entries_text(self@.entries.skip(j as int)) == spec_bucket_text(self@),
            decreases self@.entries.len() - j,
        {
            let ghost line0 = line@;
            line.append(" ");
            line.append(self.nodes[j].value.as_str());
            proof {
                reveal_strlit(" ");
                assert(" "@ =~= seq![' ']);
                let es = self@.entries;
                assert(es.skip(j as int)[0] == es[j as int]);
                assert(es.skip(j as int).drop_first() =~= es.skip(j as int + 1));
                assert(es[j as int].value == self.nodes[j as int]@.value);
                assert(line@ + spec_entries_text(es.skip(j as int + 1)) =~= line0
                    + spec_entries_text(es.skip(j as int)));
            }
            j = j + 1;
        }
        proof {
            assert(self@.entries.skip(self@.entries.len() as int) =~= Seq::<SpecEntry>::empty());
            assert(line@ =~= spec_bucket_text(self@));
        }
        line
    }
}

/// The cache: the bucket list and the capacity.
pub struct LFUCache {
    pub buckets: Vec<FrequencyList>,
    pub size: usize,
    pub max_size: usize,
}

impl View for LFUCache {
    type V = Model;

    open spec fn view(&self) -> Model {
        self.buckets@.map_values(|b: FrequencyList| b@)
    }
}

impl LFUCache {
    /// The cache is structurally sound and its stored size is honest.
    pub open spec fn wf(&self) -> bool {
        &&& buckets_wf(self@)
        &&& self.size as nat == model_len(self@)
        &&& self.size <= self.max_size
        &&& self.max_size >= 1
    }

    pub fn new(max_size: usize) -> (r: LFUCache)
        requires
            max_size >= 1,
        ensures
            r.wf(),
            r@ == Seq::<SpecBucket>::empty(),
            r.max_size == max_size,
            model_len(r@) == 0,
    {
        let r = LFUCache { buckets: Vec::new(), size: 0, max_size: max_size };
        proof {
            assert(r@ =~= Seq::<SpecBucket>::empty());
        }
        r
    }

    /// The number of live entries.
    pub fn len(&self) -> (r: usize)
        requires
            self.wf(),
        ensures
            r as nat == model_len(self@),
    {
        self.size
    }

    /// The textual dump: `<empty>` for a cache with no entries, else
    /// one newline-terminated line per bucket in ascending frequency
    /// order, each value preceded by one space, newest entry first.
    pub fn to_string(&self) -> (r: String)
        ensures
            self@.len() == 0 ==> r@ == "<empty>"@,
            self@.len() > 0 ==> r@ == spec_dump(self@),
    {
        if self.buckets.len() == 0 {
            return "<empty>".to_owned();
        }
        let mut acc = String::new();
        proof {
            assert(self@.skip(0) =~= self@);
            assert(acc@ + spec_dump(self@.skip(0)) =~= spec_dump(self@));
        }
        let mut i: usize = 0;
        while i < self.buckets.len()
            invariant
                i <= self@.len(),
                acc@ + spec_dump(self@.skip(i as int)) == spec_dump(self@),
            decreases self@.len() - i,
        {
            let ghost acc0 = acc@;
            let line = self.buckets[i].to_string();
            acc.append(line.as_str());
            acc.append("\n");
            proof {
                reveal_strlit("\n");
                assert("\n"@ =~= seq!['\n']);
                assert(self@.skip(i as int)[0] == self@[i as int]);
                assert(self@.skip(i as int).drop_first() =~= self@.skip(i as int + 1));
                assert(line@ == spec_bucket_text(self@[i as int]));
                assert(acc@ + spec_dump(self@.skip(i as int + 1)) =~= acc0 + spec_dump(
                    self@.skip(i as int),
                ));
            }
            i = i + 1;
        }
        proof {
            assert(self@.skip(self@.len() as int) =~= Seq::<SpecBucket>::empty());
            assert(acc@ =~= spec_dump(self@));
        }
        acc
    }

    /// Locate the key's bucket and its position inside that bucket.
    fn find_key(&self, key: &String) -> (r: Option<(usize, usize)>)
        requires
            keys_unique(self@),
        ensures
            match r {
                Option::None => !model_contains(self@, key@),
                Option::Some(p) => {
                    &&& valid_pos(self@, p.0 as int, p.1 as int)
                    &&& self@[p.0 as int].entries[p.1 as int].key == key@
                    &&& model_contains(self@, key@)
                    &&& p.0 as int == key_bucket_idx(self@, key@)
                    &&& p.1 as int == key_entry_idx(self@, key@)
                },
            },
    {
        let mut i: usize = 0;
        while i < self.buckets.len()
            invariant
                keys_unique(self@),
                i <= self.buckets@.len(),
                forall|a: int, b: int|
                    0 <= a < i && 0 <= b < self@[a].entries.len() ==> (#[trigger] self@[a].entries[
                        b
                    ]).key != key@,
            decreases self.buckets@.len() - i,
        {
            let mut j: usize = 0;
            while j < self.buckets[i].nodes.len()
                invariant
                    keys_unique(self@),
                    i < self.buckets@.len(),
                    j <= self@[i as int].entries.len(),
                    forall|a: int, b: int|
                        0 <= a < i && 0 <= b < self@[a].entries.len() ==> (
                        #[trigger] self@[a].entries[b]).key != key@,
                    forall|b: int|
                        0 <= b < j ==> (#[trigger] self@[i as int].entries[b]).key != key@,
                decreases self@[i as int].entries.len() - j,
            {
                if self.buckets[i].nodes[j].key == *key {
                    proof {
                        assert(self@[i as int].entries[j as int].key == key@);
                        lemma_key_at(self@, i as int, j as int);
                    }
                    return Option::Some((i, j));
                }
                j = j + 1;
            }
            i = i + 1;
        }
        proof {
            if model_contains(self@, key@) {
                let a = choose|ii: int| 0 <= ii < self@.len() && bucket_has_key(self@[ii], key@);
                let b = choose|jj: int|
                    0 <= jj < self@[a].entries.len() && self@[a].entries[jj].key == key@;
                assert(false);
            }
        }
        Option::None
    }

    /// Move the node at `(i, j)` one frequency upward, creating the
    /// target bucket if absent and dropping its old bucket if emptied.
    fn increment_node_frequency(&mut self, i: usize, j: usize)
        requires
            buckets_wf(old(self)@),
            valid_pos(old(self)@, i as int, j as int),
            old(self)@[i as int].freq < usize::MAX,
        ensures
            final(self)@ == model_promote_at(old(self)@, i as int, j as int),
            final(self).size == old(self).size,
            final(self).max_size == old(self).max_size,
    {
        let ghost m0 = self@;
        let f = self.buckets[i].frequency;
        let node = self.buckets[i].nodes.remove(j);
        let ghost m1 = model_remove_at(m0, i as int, j as int);
        let ghost e = m0[i as int].entries[j as int];
        let bucket_count = self.buckets.len();
        proof {
            assert(i < bucket_count);
        }
        let mut pos = i + 1;
        if self.buckets[i].nodes.len() == 0 {
            self.buckets.remove(i);
            pos = i;
        }
        proof {
            assert(node@ == e);
            assert(self@ =~~= m1);
        }
        if pos < self.buckets.len() && self.buckets[pos].frequency == f + 1 {
            self.buckets[pos].nodes.insert(0, node);
            proof {
                assert(self@ =~~= model_place(m1, pos as int, f as nat, e));
            }
        } else {
            let mut fresh_nodes: Vec<CacheNode> = Vec::new();
            fresh_nodes.push(node);
            let nb = FrequencyList { frequency: f + 1, nodes: fresh_nodes };
            self.buckets.insert(pos, nb);
            proof {
                assert(nb@.entries =~= seq![e]);
                assert(self@ =~~= model_place(m1, pos as int, f as nat, e));
            }
        }
        proof {
            assert(self@ == model_promote_at(m0, i as int, j as int));
        }
    }

    /// Detach the node at `(i, j)`, dropping its bucket if emptied.
    fn remove_node(&mut self, i: usize, j: usize) -> (node: CacheNode)
        requires
            valid_pos(old(self)@, i as int, j as int),
        ensures
            final(self)@ == model_remove_at(old(self)@, i as int, j as int),
            node@ == old(self)@[i as int].entries[j as int],
            final(self).size == old(self).size,
            final(self).max_size == old(self).max_size,
    {
        let node = self.buckets[i].nodes.remove(j);
        if self.buckets[i].nodes.len() == 0 {
            self.buckets.remove(i);
        }
        proof {
            assert(self@ =~~= model_remove_at(old(self)@, i as int, j as int));
        }
        node
    }

    /// Look the key up and, when it is cached, promote its frequency
    /// and return a borrow of its value.  A miss changes nothing.
    pub fn get(&mut self, key: &String) -> (r: Option<&String>)
        requires
            old(self).wf(),
            model_contains(old(self)@, key@) ==> model_freq(old(self)@, key@) < usize::MAX,
        ensures
            final(self).wf(),
            final(self).max_size == old(self).max_size,
            match r {
                Option::None => {
                    &&& !model_contains(old(self)@, key@)
                    &&& *final(self) == *old(self)
                },
                Option::Some(v) => {
                    &&& model_contains(old(self)@, key@)
                    &&& v@ == model_value(old(self)@, key@)
                    &&& final(self)@ == model_get(old(self)@, key@)
                    &&& model_freq(final(self)@, key@) == model_freq(old(self)@, key@) + 1
                    &&& model_len(final(self)@) == model_len(old(self)@)
                },
            },
    {
        let ghost m0 = self@;
        match self.find_key(key) {
            Option::None => Option::None,
            Option::Some((i, j)) => {
                proof {
                    lemma_promote_at(m0, i as int, j as int);
                }
                self.increment_node_frequency(i, j);
                match self.find_key(key) {
                    Option::Some((i2, j2)) => {
                        proof {
                            lemma_key_at(self@, i2 as int, j2 as int);
                        }
                        Option::Some(&self.buckets[i2].nodes[j2].value)
                    },
                    Option::None => {
                        proof {
                            assert(false);
                        }
                        Option::None
                    },
                }
            },
        }
    }

    /// Drop the key's entry and hand its value back; a miss changes
    /// nothing and returns nothing.
    pub fn remove(&mut self, key: &String) -> (r: Option<String>)
        requires
            old(self).wf(),
        ensures
            final(self).wf(),
            final(self).max_size == old(self).max_size,
            final(self)@ == model_remove_key(old(self)@, key@),
            !model_contains(final(self)@, key@),
            match r {
                Option::None => {
                    &&& !model_contains(old(self)@, key@)
                    &&& *final(self) == *old(self)
                },
                Option::Some(v) => {
                    &&& model_contains(old(self)@, key@)
                    &&& v@ == model_value(old(self)@, key@)
                    &&& model_len(final(self)@) + 1 == model_len(old(self)@)
                },
            },
    {
        let ghost m0 = self@;
        match self.find_key(key) {
            Option::None => Option::None,
            Option::Some((i, j)) => {
                proof {
                    lemma_remove_at(m0, i as int, j as int);
                    lemma_key_at(m0, i as int, j as int);
                }
                let node = self.remove_node(i, j);
                self.size = self.size - 1;
                Option::Some(node.value)
            },
        }
    }

    /// Cache `value` under `key`.  An existing key has its value
    /// replaced and its frequency promoted, and the previous value is
    /// returned; a fresh key is admitted at frequency one, evicting the
    /// newest lowest-frequency entry when the cache is full.
    pub fn insert(&mut self, key: String, value: String) -> (r: Option<String>)
        requires
            old(self).wf(),
            model_contains(old(self)@, key@) ==> model_freq(old(self)@, key@) < usize::MAX,
        ensures
            final(self).wf(),
            final(self).max_size == old(self).max_size,
            final(self)@ == model_insert(old(self)@, old(self).max_size as nat, key@, value@),
            model_contains(final(self)@, key@),
            model_value(final(self)@, key@) == value@,
            match r {
                Option::None => !model_contains(old(self)@, key@),
                Option::Some(v) => model_contains(old(self)@, key@) && v@ == model_value(
                    old(self)@,
                    key@,
                ),
            },
            !model_contains(old(self)@, key@) ==> model_freq(final(self)@, key@) == 1,
            model_contains(old(self)@, key@) ==> model_freq(final(self)@, key@) == model_freq(
                old(self)@,
                key@,
            ) + 1,
    {
        let ghost m0 = self@;
        let ghost cap = self.max_size as nat;
        match self.find_key(&key) {
            Option::Some((i, j)) => {
                proof {
                    lemma_key_at(m0, i as int, j as int);
                    lemma_set_value_at(m0, i as int, j as int, value@);
                }
                let mut node = self.buckets[i].nodes.remove(j);
                let old_value = node.value;
                node.value = value;
                self.buckets[i].nodes.insert(j, node);
                let ghost msv = model_set_value_at(m0, i as int, j as int, value@);
                proof {
                    assert(self@ =~~= msv);
                    lemma_promote_at(msv, i as int, j as int);
                }
                self.increment_node_frequency(i, j);
                Option::Some(old_value)
            },
            Option::None => {
                if self.size >= self.max_size {
                    proof {
                        lemma_model_len_zero(m0);
                        lemma_remove_at(m0, 0, 0);
                        lemma_key_at(m0, 0, 0);
                    }
                    let _victim = self.remove_node(0, 0);
                    self.size = self.size - 1;
                }
                let ghost m1 = self@;
                let ghost e = (SpecEntry { key: key@, value: value@ });
                proof {
                    lemma_place(m1, 0, 0, e);
                }
                let node = CacheNode { key, value };
                if self.buckets.len() > 0 && self.buckets[0].frequency == 1 {
                    self.buckets[0].nodes.insert(0, node);
                } else {
                    let mut fresh_nodes: Vec<CacheNode> = Vec::new();
                    fresh_nodes.push(node);
                    let nb = FrequencyList { frequency: 1, nodes: fresh_nodes };
                    self.buckets.insert(0, nb);
                }
                self.size = self.size + 1;
                proof {
                    assert(self@ =~~= model_admit(m1, key@, value@));
                }
                Option::None
            },
        }
    }
}

} // verus!
