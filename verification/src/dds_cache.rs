//! The per-topic store of received samples.
//!
//! A [`DDSHistoryCache`] is an ordered map from receive [`Timestamp`] to
//! [`CacheChange`], kept as a vector sorted by strictly increasing
//! timestamp. A [`TopicCache`] bundles one history with the topic's kind,
//! type name and QoS; the [`DDSCache`] is the registry of topic caches,
//! keyed by topic name, unique in the domain.

use vstd::prelude::*;
use crate::cache_change::CacheChange;
use crate::time::Timestamp;

verus! {

/// Whether a topic's samples carry keys.
#[derive(Clone, Copy, Debug, PartialEq, Eq, Structural)]
pub enum TopicKind {
    NoKey,
    WithKey,
}

/// The per-topic quality-of-service settings the cache carries along.
#[derive(Clone, Copy, Debug, PartialEq, Eq, Structural)]
pub struct QosPolicies {
    pub reliable: bool,
    pub durable: bool,
    pub history_depth: u32,
}

impl QosPolicies {
    /// The default: no policy set.
    pub fn qos_none() -> (r: QosPolicies)
        ensures
            r == (QosPolicies { reliable: false, durable: false, history_depth: 0u32 }),
    {
        QosPolicies { reliable: false, durable: false, history_depth: 0 }
    }
}

/// Entries carry strictly increasing timestamps.
pub open spec fn entry_keys_sorted(s: Seq<(Timestamp, CacheChange)>) -> bool {
    forall|i: int, j: int|
        0 <= i < j < s.len() ==> (#[trigger] s[i]).0.nanos < (#[trigger] s[j]).0.nanos
}

/// Ordered map from receive instant to cache change; iteration order is
/// the natural order of the instants.
pub struct DDSHistoryCache {
    changes: Vec<(Timestamp, CacheChange)>,
}

impl DDSHistoryCache {
    /// The stored entries, in ascending timestamp order.
    pub closed spec fn entries(self) -> Seq<(Timestamp, CacheChange)> {
        self.changes@
    }

    pub open spec fn wf(self) -> bool {
        entry_keys_sorted(self.entries())
    }

    /// Whether an insert happened at exactly `t` (and no removal since).
    pub open spec fn contains_instant(self, t: Timestamp) -> bool {
        exists|i: int| 0 <= i < self.entries().len() && (#[trigger] self.entries()[i]).0 == t
    }

    pub open spec fn index_of(self, t: Timestamp) -> int {
        choose|i: int| 0 <= i < self.entries().len() && (#[trigger] self.entries()[i]).0 == t
    }

    /// The change stored at instant `t`.
    pub open spec fn change_of(self, t: Timestamp) -> CacheChange {
        self.entries()[self.index_of(t)].1
    }

    pub fn new() -> (r: DDSHistoryCache)
        ensures
            r.wf(),
            r.entries().len() == 0,
    {
        DDSHistoryCache { changes: Vec::new() }
    }

    /// Inserts at a fresh instant. A duplicate instant is a caller
    /// error and treated as fatal, so it is required away: callers that
    /// may collide must disambiguate before calling.
    pub fn add_change(&mut self, instant: &Timestamp, cache_change: CacheChange)
        requires
            old(self).wf(),
            !old(self).contains_instant(*instant),
        ensures
            final(self).wf(),
            final(self).contains_instant(*instant),
            final(self).change_of(*instant) == cache_change,
            final(self).entries().len() == old(self).entries().len() + 1,
            forall|t: Timestamp|
                t != *instant ==> final(self).contains_instant(t) == old(self).contains_instant(t),
            forall|t: Timestamp|
                t != *instant && old(self).contains_instant(t) ==> final(self).change_of(t) == old(self).change_of(t),
    {
        let ghost pre = *old(self);
        let mut i: usize = 0;
        while i < self.changes.len() && self.changes[i].0.nanos < instant.nanos
            invariant
                *self == pre,
                pre.wf(),
                !pre.contains_instant(*instant),
                i <= self.changes.len(),
                forall|j: int| 0 <= j < i ==> (#[trigger] pre.entries()[j]).0.nanos < instant.nanos,
            decreases self.changes.len() - i,
        {
            i += 1;
        }
        proof {
            if i < pre.entries().len() {
                lemma_entry_at(pre, i as int);
                assert(pre.entries()[i as int].0.nanos != instant.nanos);
            }
            assert forall|j: int| i <= j < pre.entries().len() implies (
            #[trigger] pre.entries()[j]).0.nanos > instant.nanos by {
                if (i as int) < j {
                    assert((pre.entries()[i as int]).0.nanos < (pre.entries()[j]).0.nanos);
                }
            }
        }
        self.changes.insert(i, (*instant, cache_change));
        proof {
            let posta = *self;
            assert(posta.entries() == pre.entries().insert(i as int, (*instant, cache_change)));
            assert(posta.entries()[i as int] == (*instant, cache_change));
            assert forall|j: int| 0 <= j < posta.entries().len() implies #[trigger] posta.entries()[j]
                == if j < i as int {
                pre.entries()[j]
            } else if j == i as int {
                (*instant, cache_change)
            } else {
                pre.entries()[j - 1]
            } by {}
            assert(posta.wf());
            lemma_entry_at(posta, i as int);
            assert forall|t: Timestamp| t != *instant implies posta.contains_instant(t)
                == pre.contains_instant(t) by {
                if pre.contains_instant(t) {
                    let j = pre.index_of(t);
                    lemma_entry_at(pre, j);
                    let j2 = if j < i as int {
                        j
                    } else {
                        j + 1
                    };
                    assert(posta.entries()[j2].0 == t);
                }
                if posta.contains_instant(t) {
                    let j2 = posta.index_of(t);
                    lemma_entry_at(posta, j2);
                    if j2 != i as int {
                        let j = if j2 < i as int {
                            j2
                        } else {
                            j2 - 1
                        };
                        assert(pre.entries()[j].0 == t);
                    }
                }
            }
            assert forall|t: Timestamp| t != *instant && pre.contains_instant(t) implies
                posta.change_of(t) == pre.change_of(t) by {
                let j = pre.index_of(t);
                lemma_entry_at(pre, j);
                let j2 = if j < i as int {
                    j
                } else {
                    j + 1
                };
                assert(posta.entries()[j2].0 == t);
                lemma_entry_at(posta, j2);
            }
        }
    }

    /// Point lookup: the change inserted at exactly `t`, if any.
    pub fn get_change(&self, instant: &Timestamp) -> (r: Option<&CacheChange>)
        requires
            self.wf(),
        ensures
            match r {
                Some(c) => self.contains_instant(*instant) && *c == self.change_of(*instant),
                None => !self.contains_instant(*instant),
            },
    {
        let mut i: usize = 0;
        while i < self.changes.len()
            invariant
                self.wf(),
                i <= self.changes.len(),
                forall|j: int| 0 <= j < i ==> (#[trigger] self.entries()[j]).0 != *instant,
            decreases self.changes.len() - i,
        {
            if self.changes[i].0.nanos == instant.nanos {
                proof {
                    lemma_entry_at(*self, i as int);
                }
                return Some(&self.changes[i].1);
            }
            i += 1;
        }
        None
    }

    /// All entries with instants in `[start_instant, end_instant]`, both
    /// bounds included, as an owned snapshot in ascending instant order.
    pub fn get_range_of_changes_vec(&self, start_instant: &Timestamp, end_instant: &Timestamp) -> (r:
        Vec<(Timestamp, CacheChange)>)
        requires
            self.wf(),
        ensures
            entry_keys_sorted(r@),
            forall|p: int|
                0 <= p < r@.len() ==> start_instant.nanos <= (#[trigger] r@[p]).0.nanos
                    <= end_instant.nanos,
            forall|p: int|
                0 <= p < r@.len() ==> self.contains_instant((#[trigger] r@[p]).0) && r@[p].1@
                    == self.change_of(r@[p].0)@,
            forall|t: Timestamp|
                self.contains_instant(t) && start_instant.nanos <= t.nanos <= end_instant.nanos
                    ==> exists|p: int| 0 <= p < r@.len() && (#[trigger] r@[p]).0 == t,
    {
        let mut r: Vec<(Timestamp, CacheChange)> = Vec::new();
        let mut i: usize = 0;
        while i < self.changes.len()
            invariant
                self.wf(),
                i <= self.changes.len(),
                forall|p: int|
                    0 <= p < r@.len() ==> exists|j: int|
                        0 <= j < i && (#[trigger] r@[p]).0 == self.entries()[j].0 && r@[p].1@
                            == self.entries()[j].1@,
                forall|p: int|
                    0 <= p < r@.len() ==> start_instant.nanos <= (#[trigger] r@[p]).0.nanos
                        <= end_instant.nanos,
                entry_keys_sorted(r@),
                forall|j: int|
                    0 <= j < i && start_instant.nanos <= (#[trigger] self.entries()[j]).0.nanos
                        <= end_instant.nanos ==> exists|p: int|
                        0 <= p < r@.len() && (#[trigger] r@[p]).0 == self.entries()[j].0,
            decreases self.changes.len() - i,
        {
            let key = self.changes[i].0;
            if start_instant.nanos <= key.nanos && key.nanos <= end_instant.nanos {
                let c = self.changes[i].1.clone();
                proof {
                    assert forall|p: int| 0 <= p < r@.len() implies (#[trigger] r@[p]).0.nanos
                        < key.nanos by {
                        let j = choose|j: int|
                            0 <= j < i && (#[trigger] r@[p]).0 == self.entries()[j].0 && r@[p].1@
                                == self.entries()[j].1@;
                        assert((self.entries()[j]).0.nanos < (self.entries()[i as int]).0.nanos);
                    }
                }
                let ghost r0 = r@;
                r.push((key, c));
                proof {
                    assert(r@ == r0.push((key, c)));
                    assert((#[trigger] r@[r@.len() - 1]).0 == self.entries()[i as int].0);
                    assert(r@[r@.len() - 1].1@ == self.entries()[i as int].1@);
                    assert forall|j: int|
                        0 <= j < i + 1 && start_instant.nanos <= (
                        #[trigger] self.entries()[j]).0.nanos <= end_instant.nanos implies exists|
                        p: int,
                    | 0 <= p < r@.len() && (#[trigger] r@[p]).0 == self.entries()[j].0 by {
                        if j < i {
                            let p = choose|p: int|
                                0 <= p < r0.len() && (#[trigger] r0[p]).0 == self.entries()[j].0;
                            assert(r@[p].0 == self.entries()[j].0);
                        } else {
                            assert(r@[r@.len() - 1].0 == self.entries()[j].0);
                        }
                    }
                }
            }
            i += 1;
        }
        proof {
            assert forall|p: int| 0 <= p < r@.len() implies self.contains_instant(
                (#[trigger] r@[p]).0,
            ) && r@[p].1@ == self.change_of(r@[p].0)@ by {
                let j = choose|j: int|
                    0 <= j < self.entries().len() && (#[trigger] r@[p]).0 == self.entries()[j].0
                        && r@[p].1@ == self.entries()[j].1@;
                lemma_entry_at(*self, j);
            }
        }
        r
    }

    /// The same snapshot as [`Self::get_range_of_changes_vec`].
    pub fn get_range_of_changes(&self, start_instant: &Timestamp, end_instant: &Timestamp) -> (r:
        Vec<(Timestamp, CacheChange)>)
        requires
            self.wf(),
        ensures
            entry_keys_sorted(r@),
            forall|p: int|
                0 <= p < r@.len() ==> start_instant.nanos <= (#[trigger] r@[p]).0.nanos
                    <= end_instant.nanos,
            forall|p: int|
                0 <= p < r@.len() ==> self.contains_instant((#[trigger] r@[p]).0) && r@[p].1@
                    == self.change_of(r@[p].0)@,
            forall|t: Timestamp|
                self.contains_instant(t) && start_instant.nanos <= t.nanos <= end_instant.nanos
                    ==> exists|p: int| 0 <= p < r@.len() && (#[trigger] r@[p]).0 == t,
    {
        self.get_range_of_changes_vec(start_instant, end_instant)
    }

    /// Removes and returns the change at `t`, if one is stored.
    pub fn remove_change(&mut self, instant: &Timestamp) -> (r: Option<CacheChange>)
        requires
            old(self).wf(),
        ensures
            final(self).wf(),
            !final(self).contains_instant(*instant),
            match r {
                Some(c) => old(self).contains_instant(*instant) && c == old(self).change_of(
                    *instant,
                ),
                None => !old(self).contains_instant(*instant) && *final(self) == *old(self),
            },
            forall|t: Timestamp|
                t != *instant ==> final(self).contains_instant(t) == old(self).contains_instant(t),
            forall|t: Timestamp|
                t != *instant && old(self).contains_instant(t) ==> final(self).change_of(t) == old(self).change_of(t),
    {
        let ghost pre = *old(self);
        let mut i: usize = 0;
        while i < self.changes.len()
            invariant
                *self == pre,
                pre == *old(self),
                pre.wf(),
                i <= self.changes.len(),
                forall|j: int| 0 <= j < i ==> (#[trigger] pre.entries()[j]).0 != *instant,
            decreases self.changes.len() - i,
        {
            if self.changes[i].0.nanos == instant.nanos {
                let pair = self.changes.remove(i);
                proof {
                    lemma_entry_at(pre, i as int);
                    assert(pair == pre.entries()[i as int]);
                    assert(pair.0 == *instant);
                    let posta = *self;
                    assert(posta.entries() == pre.entries().remove(i as int));
                    assert forall|j: int| 0 <= j < posta.entries().len() implies
                        #[trigger] posta.entries()[j] == if j < i as int {
                        pre.entries()[j]
                    } else {
                        pre.entries()[j + 1]
                    } by {}
                    assert(posta.wf());
                    assert forall|t: Timestamp| t != pair.0 implies posta.contains_instant(t)
                        == pre.contains_instant(t) by {
                        if pre.contains_instant(t) {
                            let j = pre.index_of(t);
                            lemma_entry_at(pre, j);
                            let j2 = if j < i as int {
                                j
                            } else {
                                j - 1
                            };
                            assert(posta.entries()[j2].0 == t);
                        }
                        if posta.contains_instant(t) {
                            let j2 = posta.index_of(t);
                            lemma_entry_at(posta, j2);
                            let j = if j2 < i as int {
                                j2
                            } else {
                                j2 + 1
                            };
                            assert(pre.entries()[j].0 == t);
                        }
                    }
                    assert forall|t: Timestamp| t != pair.0 && pre.contains_instant(t) implies
                        posta.change_of(t) == pre.change_of(t) by {
                        let j = pre.index_of(t);
                        lemma_entry_at(pre, j);
                        let j2 = if j < i as int {
                            j
                        } else {
                            j - 1
                        };
                        assert(posta.entries()[j2].0 == t);
                        lemma_entry_at(posta, j2);
                    }
                    if posta.contains_instant(*instant) {
                        let j2 = posta.index_of(*instant);
                        lemma_entry_at(posta, j2);
                        let j = if j2 < i as int {
                            j2
                        } else {
                            j2 + 1
                        };
                        assert(pre.entries()[j].0 == *instant);
                        assert(false);
                    }
                }
                return Some(pair.1);
            }
            i += 1;
        }
        None
    }
}

/// One topic's cache: its history of received changes together with the
/// topic's kind, serialized type name, and QoS.
pub struct TopicCache {
    topic_data_type_name: String,
    topic_kind: TopicKind,
    topic_qos: QosPolicies,
    history_cache: DDSHistoryCache,
}

impl TopicCache {
    pub closed spec fn data_type_name(self) -> Seq<char> {
        self.topic_data_type_name@
    }

    pub closed spec fn kind(self) -> TopicKind {
        self.topic_kind
    }

    pub closed spec fn qos(self) -> QosPolicies {
        self.topic_qos
    }

    pub closed spec fn history(self) -> DDSHistoryCache {
        self.history_cache
    }

    pub open spec fn wf(self) -> bool {
        self.history().wf()
    }

    /// A fresh topic cache with an empty history and no QoS set.
    pub fn new(topic_kind: TopicKind, topic_data_type_name: String) -> (r: TopicCache)
        ensures
            r.wf(),
            r.kind() == topic_kind,
            r.data_type_name() == topic_data_type_name@,
            r.qos() == (QosPolicies { reliable: false, durable: false, history_depth: 0u32 }),
            r.history().entries().len() == 0,
    {
        TopicCache {
            topic_data_type_name,
            topic_kind,
            topic_qos: QosPolicies::qos_none(),
            history_cache: DDSHistoryCache::new(),
        }
    }

    pub fn get_change(&self, instant: &Timestamp) -> (r: Option<&CacheChange>)
        requires
            self.wf(),
        ensures
            match r {
                Some(c) => self.history().contains_instant(*instant) && *c == self.history(
                ).change_of(*instant),
                None => !self.history().contains_instant(*instant),
            },
    {
        self.history_cache.get_change(instant)
    }

    pub fn add_change(&mut self, instant: &Timestamp, cache_change: CacheChange)
        requires
            old(self).wf(),
            !old(self).history().contains_instant(*instant),
        ensures
            final(self).wf(),
            final(self).kind() == old(self).kind(),
            final(self).data_type_name() == old(self).data_type_name(),
            final(self).qos() == old(self).qos(),
            final(self).history().contains_instant(*instant),
            final(self).history().change_of(*instant) == cache_change,
            final(self).history().entries().len() == old(self).history().entries().len() + 1,
            forall|t: Timestamp|
                t != *instant ==> final(self).history().contains_instant(t) == old(self).history().contains_instant(t),
            forall|t: Timestamp|
                t != *instant && old(self).history().contains_instant(t) ==> final(self).history().change_of(t) == old(self).history().change_of(t),
    {
        self.history_cache.add_change(instant, cache_change)
    }

    pub fn get_changes_in_range(&self, start_instant: &Timestamp, end_instant: &Timestamp) -> (r:
        Vec<(Timestamp, CacheChange)>)
        requires
            self.wf(),
        ensures
            entry_keys_sorted(r@),
            forall|p: int|
                0 <= p < r@.len() ==> start_instant.nanos <= (#[trigger] r@[p]).0.nanos
                    <= end_instant.nanos,
            forall|p: int|
                0 <= p < r@.len() ==> self.history().contains_instant((#[trigger] r@[p]).0)
                    && r@[p].1@ == self.history().change_of(r@[p].0)@,
            forall|t: Timestamp|
                self.history().contains_instant(t) && start_instant.nanos <= t.nanos
                    <= end_instant.nanos ==> exists|p: int|
                    0 <= p < r@.len() && (#[trigger] r@[p]).0 == t,
    {
        self.history_cache.get_range_of_changes_vec(start_instant, end_instant)
    }
}

/// The registry of topic caches, keyed by topic name; every change the
/// participant receives or produces is stored in the topic's cache.
pub struct DDSCache {
    topic_caches: Vec<(String, TopicCache)>,
}

impl DDSCache {
    pub closed spec fn topics(self) -> Seq<(String, TopicCache)> {
        self.topic_caches@
    }

    pub open spec fn has_topic(self, name: Seq<char>) -> bool {
        exists|i: int| 0 <= i < self.topics().len() && (#[trigger] self.topics()[i]).0@ == name
    }

    pub open spec fn topic_index(self, name: Seq<char>) -> int {
        choose|i: int| 0 <= i < self.topics().len() && (#[trigger] self.topics()[i]).0@ == name
    }

    /// The topic cache registered under `name`.
    pub open spec fn topic_at(self, name: Seq<char>) -> TopicCache {
        self.topics()[self.topic_index(name)].1
    }

    pub open spec fn wf(self) -> bool {
        &&& forall|i: int, j: int|
            0 <= i < j < self.topics().len() ==> (#[trigger] self.topics()[i]).0@ != (
            #[trigger] self.topics()[j]).0@
        &&& forall|i: int| 0 <= i < self.topics().len() ==> (#[trigger] self.topics()[i]).1.wf()
    }

    pub fn new() -> (r: DDSCache)
        ensures
            r.wf(),
            r.topics().len() == 0,
    {
        DDSCache { topic_caches: Vec::new() }
    }

    /// The index of the topic cache named `topic_name`, when present.
    fn find_topic(&self, topic_name: &String) -> (r: Option<usize>)
        ensures
            match r {
                Some(i) => 0 <= i < self.topics().len() && self.topics()[i as int].0@
                    == topic_name@,
                None => !self.has_topic(topic_name@),
            },
    {
        let mut i: usize = 0;
        while i < self.topic_caches.len()
            invariant
                i <= self.topic_caches.len(),
                forall|j: int| 0 <= j < i ==> (#[trigger] self.topics()[j]).0@ != topic_name@,
            decreases self.topic_caches.len() - i,
        {
            if self.topic_caches[i].0 == *topic_name {
                return Some(i);
            }
            i += 1;
        }
        None
    }

    /// Registers a fresh topic cache under `topic_name` with default QoS.
    /// A name already registered is left as it is and `false` comes back.
    pub fn add_new_topic(
        &mut self,
        topic_name: &String,
        topic_kind: TopicKind,
        topic_data_type_name: String,
    ) -> (r: bool)
        requires
            old(self).wf(),
        ensures
            final(self).wf(),
            r == !old(self).has_topic(topic_name@),
            !r ==> *final(self) == *old(self),
            r ==> final(self).has_topic(topic_name@) && final(self).topic_at(topic_name@).kind()
                == topic_kind && final(self).topic_at(topic_name@).data_type_name()
                == topic_data_type_name@ && final(self).topic_at(topic_name@).qos() == (QosPolicies {
                reliable: false,
                durable: false,
                history_depth: 0u32,
            }) && final(self).topic_at(topic_name@).history().entries().len() == 0,
            forall|n: Seq<char>|
                n != topic_name@ ==> final(self).has_topic(n) == old(self).has_topic(n),
            forall|n: Seq<char>|
                n != topic_name@ && old(self).has_topic(n) ==> final(self).topic_at(n) == old(self).topic_at(n),
    {
        let ghost pre = *old(self);
        let found = self.find_topic(topic_name);
        match found {
            Some(_) => {
                proof {
                    let i = choose|i: int|
                        0 <= i < pre.topics().len() && (#[trigger] pre.topics()[i]).0@
                            == topic_name@;
                    assert(pre.has_topic(topic_name@));
                }
                false
            },
            None => {
                let name = topic_name.clone();
                let cache = TopicCache::new(topic_kind, topic_data_type_name);
                self.topic_caches.push((name, cache));
                proof {
                    let posta = *self;
                    let last = posta.topics().len() - 1;
                    assert(posta.topics()[last].0@ == topic_name@);
                    assert forall|p: int, q: int| 0 <= p < q < posta.topics().len() implies (
                    #[trigger] posta.topics()[p]).0@ != (#[trigger] posta.topics()[q]).0@ by {
                        if q < last {
                            assert((pre.topics()[p]).0@ != (pre.topics()[q]).0@);
                        } else {
                            assert((posta.topics()[p]).0@ != topic_name@);
                        }
                    }
                    assert(posta.wf());
                    lemma_topic_entry_at(posta, last);
                    assert forall|n: Seq<char>| n != topic_name@ implies posta.has_topic(n)
                        == pre.has_topic(n) by {
                        if pre.has_topic(n) {
                            let j = pre.topic_index(n);
                            lemma_topic_entry_at(pre, j);
                            assert(posta.topics()[j].0@ == n);
                        }
                        if posta.has_topic(n) {
                            let j2 = posta.topic_index(n);
                            lemma_topic_entry_at(posta, j2);
                            if j2 != last {
                                assert(pre.topics()[j2].0@ == n);
                            }
                        }
                    }
                    assert forall|n: Seq<char>| n != topic_name@ && pre.has_topic(n) implies
                        posta.topic_at(n) == pre.topic_at(n) by {
                        let j = pre.topic_index(n);
                        lemma_topic_entry_at(pre, j);
                        assert(posta.topics()[j].0@ == n);
                        lemma_topic_entry_at(posta, j);
                    }
                }
                true
            },
        }
    }

    /// Drops the topic cache named `topic_name`, when present.
    pub fn remove_topic(&mut self, topic_name: &String)
        requires
            old(self).wf(),
        ensures
            final(self).wf(),
            !final(self).has_topic(topic_name@),
            !old(self).has_topic(topic_name@) ==> *final(self) == *old(self),
            forall|n: Seq<char>|
                n != topic_name@ ==> final(self).has_topic(n) == old(self).has_topic(n),
            forall|n: Seq<char>|
                n != topic_name@ && old(self).has_topic(n) ==> final(self).topic_at(n) == old(self).topic_at(n),
    {
        let ghost pre = *old(self);
        let found = self.find_topic(topic_name);
        match found {
            None => {},
            Some(i) => {
                proof {
                    lemma_topic_entry_at(pre, i as int);
                }
                let _ = self.topic_caches.remove(i);
                proof {
                    let posta = *self;
                    assert(posta.topics() == pre.topics().remove(i as int));
                    assert forall|j: int| 0 <= j < posta.topics().len() implies
                        #[trigger] posta.topics()[j] == if j < i as int {
                        pre.topics()[j]
                    } else {
                        pre.topics()[j + 1]
                    } by {}
                    assert(posta.wf());
                    if posta.has_topic(topic_name@) {
                        let j2 = posta.topic_index(topic_name@);
                        lemma_topic_entry_at(posta, j2);
                        let j = if j2 < i as int {
                            j2
                        } else {
                            j2 + 1
                        };
                        assert(pre.topics()[j].0@ == topic_name@);
                        assert(false);
                    }
                    assert forall|n: Seq<char>| n != topic_name@ implies posta.has_topic(n)
                        == pre.has_topic(n) by {
                        if pre.has_topic(n) {
                            let j = pre.topic_index(n);
                            lemma_topic_entry_at(pre, j);
                            let j2 = if j < i as int {
                                j
                            } else {
                                j - 1
                            };
                            assert(posta.topics()[j2].0@ == n);
                        }
                        if posta.has_topic(n) {
                            let j2 = posta.topic_index(n);
                            lemma_topic_entry_at(posta, j2);
                            let j = if j2 < i as int {
                                j2
                            } else {
                                j2 + 1
                            };
                            assert(pre.topics()[j].0@ == n);
                        }
                    }
                    assert forall|n: Seq<char>| n != topic_name@ && pre.has_topic(n) implies
                        posta.topic_at(n) == pre.topic_at(n) by {
                        let j = pre.topic_index(n);
                        lemma_topic_entry_at(pre, j);
                        let j2 = if j < i as int {
                            j
                        } else {
                            j - 1
                        };
                        assert(posta.topics()[j2].0@ == n);
                        lemma_topic_entry_at(posta, j2);
                    }
                }
            },
        }
    }

    /// Borrows the topic's QoS for reading.
    pub fn get_topic_qos(&self, topic_name: &String) -> (r: Option<&QosPolicies>)
        requires
            self.wf(),
        ensures
            match r {
                Some(q) => self.has_topic(topic_name@) && *q == self.topic_at(topic_name@).qos(),
                None => !self.has_topic(topic_name@),
            },
    {
        let found = self.find_topic(topic_name);
        match found {
            Some(i) => {
                proof {
                    lemma_topic_entry_at(*self, i as int);
                }
                Some(&self.topic_caches[i].1.topic_qos)
            },
            None => None,
        }
    }

    /// Point lookup in one topic: the change received at exactly
    /// `instant`, or nothing when the topic is unknown or the instant
    /// holds no change.
    pub fn from_topic_get_change(&self, topic_name: &String, instant: &Timestamp) -> (r: Option<
        &CacheChange,
    >)
        requires
            self.wf(),
        ensures
            match r {
                Some(c) => {
                    &&& self.has_topic(topic_name@)
                    &&& self.topic_at(topic_name@).history().contains_instant(*instant)
                    &&& *c == self.topic_at(topic_name@).history().change_of(*instant)
                },
                None => !self.has_topic(topic_name@) || !self.topic_at(
                    topic_name@,
                ).history().contains_instant(*instant),
            },
    {
        let found = self.find_topic(topic_name);
        match found {
            Some(i) => {
                proof {
                    lemma_topic_entry_at(*self, i as int);
                }
                self.topic_caches[i].1.get_change(instant)
            },
            None => None,
        }
    }

    /// Range query in one topic: an owned snapshot of the entries with
    /// instants in `[start_instant, end_instant]`, both bounds included,
    /// in ascending instant order; empty when the topic is unknown.
    pub fn from_topic_get_changes_in_range(
        &self,
        topic_name: &String,
        start_instant: &Timestamp,
        end_instant: &Timestamp,
    ) -> (r: Vec<(Timestamp, CacheChange)>)
        requires
            self.wf(),
        ensures
            !self.has_topic(topic_name@) ==> r@.len() == 0,
            entry_keys_sorted(r@),
            forall|p: int|
                0 <= p < r@.len() ==> start_instant.nanos <= (#[trigger] r@[p]).0.nanos
                    <= end_instant.nanos,
            self.has_topic(topic_name@) ==> forall|p: int|
                0 <= p < r@.len() ==> self.topic_at(topic_name@).history().contains_instant(
                    (#[trigger] r@[p]).0,
                ) && r@[p].1@ == self.topic_at(topic_name@).history().change_of(r@[p].0)@,
            self.has_topic(topic_name@) ==> forall|t: Timestamp|
                self.topic_at(topic_name@).history().contains_instant(t) && start_instant.nanos
                    <= t.nanos <= end_instant.nanos ==> exists|p: int|
                    0 <= p < r@.len() && (#[trigger] r@[p]).0 == t,
    {
        let found = self.find_topic(topic_name);
        match found {
            Some(i) => {
                proof {
                    lemma_topic_entry_at(*self, i as int);
                }
                self.topic_caches[i].1.get_changes_in_range(start_instant, end_instant)
            },
            None => Vec::new(),
        }
    }

    /// Hands one received change to the topic's cache; a change for an
    /// unknown topic is silently dropped.
    pub fn to_topic_add_change(
        &mut self,
        topic_name: &String,
        instant: &Timestamp,
        cache_change: CacheChange,
    )
        requires
            old(self).wf(),
            old(self).has_topic(topic_name@) ==> !old(self).topic_at(
                topic_name@,
            ).history().contains_instant(*instant),
        ensures
            final(self).wf(),
            !old(self).has_topic(topic_name@) ==> *final(self) == *old(self),
            old(self).has_topic(topic_name@) ==> {
                &&& final(self).has_topic(topic_name@)
                &&& final(self).topic_at(topic_name@).kind() == old(self).topic_at(
                    topic_name@,
                ).kind()
                &&& final(self).topic_at(topic_name@).data_type_name() == old(self).topic_at(
                    topic_name@,
                ).data_type_name()
                &&& final(self).topic_at(topic_name@).qos() == old(self).topic_at(topic_name@).qos()
                &&& final(self).topic_at(topic_name@).history().contains_instant(*instant)
                &&& final(self).topic_at(topic_name@).history().change_of(*instant) == cache_change
                &&& forall|t: Timestamp|
                    t != *instant ==> final(self).topic_at(topic_name@).history().contains_instant(
                        t,
                    ) == old(self).topic_at(topic_name@).history().contains_instant(t)
                &&& forall|t: Timestamp|
                    t != *instant && old(self).topic_at(topic_name@).history().contains_instant(t)
                        ==> final(self).topic_at(topic_name@).history().change_of(t) == old(
                        self,
                    ).topic_at(topic_name@).history().change_of(t)
            },
            forall|n: Seq<char>|
                n != topic_name@ ==> final(self).has_topic(n) == old(self).has_topic(n),
            forall|n: Seq<char>|
                n != topic_name@ && old(self).has_topic(n) ==> final(self).topic_at(n) == old(
                    self,
                ).topic_at(n),
    {
        let ghost pre = *old(self);
        let found = self.find_topic(topic_name);
        match found {
            None => {},
            Some(i) => {
                proof {
                    lemma_topic_entry_at(pre, i as int);
                }
                let mut pair = self.topic_caches.remove(i);
                pair.1.add_change(instant, cache_change);
                let ghost updated = pair;
                self.topic_caches.insert(i, pair);
                proof {
                    let posta = *self;
                    assert(posta.topics() == pre.topics().remove(i as int).insert(
                        i as int,
                        updated,
                    ));
                    assert forall|j: int| 0 <= j < posta.topics().len() implies
                        #[trigger] posta.topics()[j] == if j == i as int {
                        updated
                    } else {
                        pre.topics()[j]
                    } by {}
                    assert(updated.0@ == topic_name@);
                    assert forall|p: int, q: int| 0 <= p < q < posta.topics().len() implies (
                    #[trigger] posta.topics()[p]).0@ != (#[trigger] posta.topics()[q]).0@ by {
                        assert((pre.topics()[p]).0@ != (pre.topics()[q]).0@);
                    }
                    assert(posta.wf());
                    lemma_topic_entry_at(posta, i as int);
                    assert forall|n: Seq<char>| n != topic_name@ implies posta.has_topic(n)
                        == pre.has_topic(n) by {
                        if pre.has_topic(n) {
                            let j = pre.topic_index(n);
                            lemma_topic_entry_at(pre, j);
                            assert(posta.topics()[j].0@ == n);
                        }
                        if posta.has_topic(n) {
                            let j2 = posta.topic_index(n);
                            lemma_topic_entry_at(posta, j2);
                            assert(pre.topics()[j2].0@ == n);
                        }
                    }
                    assert forall|n: Seq<char>| n != topic_name@ && pre.has_topic(n) implies
                        posta.topic_at(n) == pre.topic_at(n) by {
                        let j = pre.topic_index(n);
                        lemma_topic_entry_at(pre, j);
                        assert(posta.topics()[j].0@ == n);
                        lemma_topic_entry_at(posta, j);
                    }
                }
            },
        }
    }

    /// Borrows the topic's QoS for writing.
    pub fn get_topic_qos_mut(&mut self, topic_name: &String) -> (r: Option<&mut QosPolicies>)
        requires
            old(self).wf(),
        ensures
            match r {
                Some(q) => ({
                    let i = old(self).topic_index(topic_name@);
                    &&& old(self).has_topic(topic_name@)
                    &&& 0 <= i < old(self).topics().len()
                    &&& (old(self).topics()[i]).0@ == topic_name@
                    &&& *q == (old(self).topics()[i]).1.qos()
                    &&& final(self).topics().len() == old(self).topics().len()
                    &&& forall|j: int|
                        0 <= j < old(self).topics().len() && j != i ==> final(self).topics()[j]
                            == old(self).topics()[j]
                    &&& (final(self).topics()[i]).0 == (old(self).topics()[i]).0
                    &&& (final(self).topics()[i]).1.qos() == *final(q)
                    &&& (final(self).topics()[i]).1.kind() == (old(self).topics()[i]).1.kind()
                    &&& (final(self).topics()[i]).1.data_type_name() == (old(
                        self,
                    ).topics()[i]).1.data_type_name()
                    &&& (final(self).topics()[i]).1.history() == (old(self).topics()[i]).1.history()
                }),
                None => !old(self).has_topic(topic_name@) && *final(self) == *old(self),
            },
    {
        let ghost pre = *old(self);
        let found = self.find_topic(topic_name);
        match found {
            Some(i) => {
                proof {
                    lemma_topic_entry_at(pre, i as int);
                }
                let entry = &mut self.topic_caches[i];
                Some(&mut entry.1.topic_qos)
            },
            None => None,
        }
    }
}

/// Law: a range query over the instants of two stored changes lists
/// both, the earlier before the later. `r` is any snapshot with the
/// properties `get_range_of_changes_vec` ensures for the bounds
/// `[t1, t2]`.
pub proof fn lemma_range_query_ordered(
    h: DDSHistoryCache,
    r: Seq<(Timestamp, CacheChange)>,
    t1: Timestamp,
    t2: Timestamp,
)
    requires
        h.wf(),
        h.contains_instant(t1),
        h.contains_instant(t2),
        t1.nanos < t2.nanos,
        entry_keys_sorted(r),
        forall|t: Timestamp|
            h.contains_instant(t) && t1.nanos <= t.nanos <= t2.nanos ==> exists|p: int|
                0 <= p < r.len() && (#[trigger] r[p]).0 == t,
    ensures
        exists|p: int, q: int|
            0 <= p < q < r.len() && (#[trigger] r[p]).0 == t1 && (#[trigger] r[q]).0 == t2,
{
    let p = choose|p: int| 0 <= p < r.len() && (#[trigger] r[p]).0 == t1;
    let q = choose|q: int| 0 <= q < r.len() && (#[trigger] r[q]).0 == t2;
    if q < p {
        assert((r[q]).0.nanos < (r[p]).0.nanos);
    }
    assert(p < q);
    assert(0 <= p < q < r.len() && (r[p]).0 == t1 && (r[q]).0 == t2);
}

/// In a well-formed registry the topic index of a stored pair is that
/// pair's own index, and `topic_at` yields its cache.
proof fn lemma_topic_entry_at(c: DDSCache, i: int)
    requires
        c.wf(),
        0 <= i < c.topics().len(),
    ensures
        c.has_topic(c.topics()[i].0@),
        c.topic_index(c.topics()[i].0@) == i,
        c.topic_at(c.topics()[i].0@) == c.topics()[i].1,
{
    let n = c.topics()[i].0@;
    assert(c.has_topic(n));
    let j = c.topic_index(n);
    if i < j {
        assert((c.topics()[i]).0@ != (c.topics()[j]).0@);
    } else if j < i {
        assert((c.topics()[j]).0@ != (c.topics()[i]).0@);
    }
}

/// In a well-formed history the index of a stored entry is that entry's
/// own index, and `change_of` yields its change.
proof fn lemma_entry_at(h: DDSHistoryCache, i: int)
    requires
        h.wf(),
        0 <= i < h.entries().len(),
    ensures
        h.contains_instant(h.entries()[i].0),
        h.index_of(h.entries()[i].0) == i,
        h.change_of(h.entries()[i].0) == h.entries()[i].1,
{
    let t = h.entries()[i].0;
    assert(h.contains_instant(t));
    let j = h.index_of(t);
    if i < j {
        assert((h.entries()[i]).0.nanos < (h.entries()[j]).0.nanos);
    } else if j < i {
        assert((h.entries()[j]).0.nanos < (h.entries()[i]).0.nanos);
    }
}

} // verus!
