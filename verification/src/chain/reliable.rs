//! At-least-once submission, one prepared submission at a time.

use crate::order::{Key, KeyPredicate};
use crate::ordered_map::OrderedMap;
use crate::reliable::message::same_key;
use vstd::prelude::*;

verus! {

/// What became of a prepared submission that was looked at again.
pub enum PreparedState<Prepared> {
    /// It is sent again as it is.
    Current,
    /// Another one takes its place.
    Replace(Prepared),
    /// It has been settled.
    Obsolete,
}

/// What is to be done after a look at a submission.
pub enum Refreshed<Value> {
    /// The submission is settled and was dropped.
    Retired(Value),
    /// The prepared submission is to be sent.
    Send,
}

/// The submissions of a node.
pub struct ReliableSubmitter<K, Value, Prepared> {
    pending: OrderedMap<K, Value>,
    prepared: Option<(K, Prepared)>,
    finalized: OrderedMap<K, ()>,
}

/// The model of the submissions.
#[verifier::ext_equal]
#[verifier::reject_recursive_types(K)]
pub struct SubmissionsView<K, Value, Prepared> {
    pub pending: Map<K, Value>,
    pub prepared: Option<(K, Prepared)>,
    pub finalized: Set<K>,
}

impl<K: Key, Value, Prepared> SubmissionsView<K, Value, Prepared> {
    /// No submission is both pending and settled, and the prepared one is pending.
    pub open spec fn consistent(self) -> bool {
        &&& forall|key: K| #[trigger] self.pending.contains_key(key) ==> !self.finalized.contains(key)
        &&& self.prepared matches Some((key, _)) ==> self.pending.contains_key(key)
    }

    /// The submissions once `key` is settled.
    pub open spec fn settled(self, key: K) -> Self {
        SubmissionsView {
            pending: self.pending.remove(key),
            prepared: match self.prepared {
                Some((prepared_key, prepared)) if prepared_key != key => Some((prepared_key, prepared)),
                _ => None,
            },
            finalized: self.finalized.insert(key),
        }
    }

    /// The prepared submission, unless it is no longer pending.
    pub open spec fn prepared_within(self, pending: Map<K, Value>) -> Option<(K, Prepared)> {
        match self.prepared {
            Some((key, prepared)) if pending.contains_key(key) => Some((key, prepared)),
            _ => None,
        }
    }

    /// The submissions with the keys `kept`.
    pub open spec fn retained(self, kept: Set<K>) -> Self {
        SubmissionsView {
            pending: self.pending.restrict(kept),
            prepared: self.prepared_within(self.pending.restrict(kept)),
            finalized: self.finalized.intersect(kept),
        }
    }

    /// The submissions once only those with the keys `kept` are pending.
    pub open spec fn pending_within(self, kept: Set<K>) -> Self {
        SubmissionsView {
            pending: self.pending.restrict(kept),
            prepared: self.prepared_within(self.pending.restrict(kept)),
            finalized: self.finalized,
        }
    }

    /// The submission to look at next, of those with the keys `keys`: the
    /// prepared one where there is one, else the first that is pending.
    pub open spec fn selected(self, keys: Seq<K>) -> Option<K> {
        match self.prepared {
            Some((key, _)) => if keys.contains(key) {
                Some(key)
            } else {
                None
            },
            None => self.first_pending(keys),
        }
    }

    /// The first of `keys` that is pending.
    pub open spec fn first_pending(self, keys: Seq<K>) -> Option<K>
        decreases keys.len(),
    {
        if keys.len() == 0 {
            None
        } else if self.pending.contains_key(keys[0]) {
            Some(keys[0])
        } else {
            self.first_pending(keys.skip(1))
        }
    }
}

impl<K: Key, Value, Prepared> View for ReliableSubmitter<K, Value, Prepared> {
    type V = SubmissionsView<K, Value, Prepared>;

    closed spec fn view(&self) -> SubmissionsView<K, Value, Prepared> {
        SubmissionsView {
            pending: self.pending@,
            prepared: self.prepared,
            finalized: self.finalized@.dom(),
        }
    }
}

impl<K: Key, Value, Prepared> ReliableSubmitter<K, Value, Prepared> {
    pub closed spec fn maps_wf(self) -> bool {
        self.pending.wf() && self.finalized.wf()
    }

    /// The submissions are consistent.
    pub open spec fn wf(self) -> bool {
        self.maps_wf() && self@.consistent()
    }

    /// Only finitely many submissions are pending.
    pub proof fn lemma_pending_is_finite(self)
        requires
            self.wf(),
        ensures
            self@.pending.dom().finite(),
    {
        crate::ordered_map::lemma_entries(self.pending.entries());
    }

    pub fn new() -> (submitter: Self)
        ensures
            submitter.wf(),
            submitter@ == (SubmissionsView::<K, Value, Prepared> {
                pending: Map::empty(),
                prepared: None,
                finalized: Set::empty(),
            }),
    {
        let submitter = ReliableSubmitter {
            pending: OrderedMap::new(),
            prepared: None,
            finalized: OrderedMap::new(),
        };
        assert(submitter@.finalized =~= Set::empty());
        submitter
    }

    /// Adds a submission, unless it is pending or settled. Returns whether it was added.
    pub fn enqueue(&mut self, key: K, value: Value) -> (added: bool)
        requires
            old(self).wf(),
        ensures
            final(self).wf(),
            added == !(old(self)@.finalized.contains(key) || old(self)@.pending.contains_key(key)),
            final(self)@ == (if added {
                SubmissionsView { pending: old(self)@.pending.insert(key, value), ..old(self)@ }
            } else {
                old(self)@
            }),
    {
        if self.finalized.contains_key(&key) || self.pending.contains_key(&key) {
            return false;
        }
        self.pending.insert(key, value);
        true
    }

    /// Settles a submission: it is dropped and will not be taken again.
    pub fn confirm(&mut self, key: K)
        requires
            old(self).wf(),
        ensures
            final(self).wf(),
            final(self)@ == old(self)@.settled(key),
    {
        let ghost before = self@;
        self.finalized.insert(key.duplicate(), ());
        self.pending.remove(&key);
        let orphaned: bool = match &self.prepared {
            Some((prepared_key, _)) => same_key(prepared_key, &key),
            None => false,
        };
        if orphaned {
            self.prepared = None;
        }
        assert(self@ =~= before.settled(key));
    }

    /// Forgets the submissions whose keys do not meet a condition.
    pub fn retain<P: KeyPredicate<K>>(&mut self, keep: &P)
        requires
            old(self).wf(),
        ensures
            final(self).wf(),
            final(self)@ == old(self)@.retained(Set::new(|key: K| keep.holds(key))),
    {
        let ghost before = self@;
        let ghost kept = Set::new(|key: K| keep.holds(key));
        self.pending.retain(keep);
        self.finalized.retain(keep);
        self.clear_orphaned_prepared();
        assert(self@ =~= before.retained(kept));
    }

    /// Drops the pending submissions whose keys do not meet a condition. What is
    /// settled stays settled.
    pub fn keep_pending<P: KeyPredicate<K>>(&mut self, keep: &P)
        requires
            old(self).wf(),
        ensures
            final(self).wf(),
            final(self)@ == old(self)@.pending_within(Set::new(|key: K| keep.holds(key))),
    {
        self.pending.retain(keep);
        self.clear_orphaned_prepared();
    }

    fn clear_orphaned_prepared(&mut self)
        requires
            old(self).maps_wf(),
        ensures
            final(self).maps_wf(),
            final(self)@ == (SubmissionsView {
                prepared: old(self)@.prepared_within(old(self)@.pending),
                ..old(self)@
            }),
    {
        let orphaned: bool = match &self.prepared {
            Some((key, _)) => !self.pending.contains_key(key),
            None => false,
        };
        if orphaned {
            self.prepared = None;
        }
    }

    /// The keys of pending submissions that meet a condition, in ascending order.
    pub fn pending_keys<P: KeyPredicate<K>>(&self, wanted: &P) -> (keys: Vec<K>)
        requires
            self.wf(),
        ensures
            crate::order::ascending(keys@),
            forall|key: K| #[trigger]
                keys@.contains(key) <==> self@.pending.contains_key(key) && wanted.holds(key),
    {
        let all: Vec<K> = self.pending.key_list();
        let mut keys: Vec<K> = Vec::new();
        let ghost mut places: Seq<int> = Seq::empty();
        let mut i: usize = 0;
        while i < all.len()
            invariant
                i <= all@.len(),
                crate::order::ascending(all@),
                places.len() == keys@.len(),
                forall|k: int| #![trigger places[k]]
                    0 <= k < places.len() ==> 0 <= places[k] < i && keys@[k] == all@[places[k]],
                forall|a: int, b: int|
                    0 <= a < b < places.len() ==> #[trigger] places[a] < #[trigger] places[b],
                forall|k: int| 0 <= k < keys@.len() ==> wanted.holds(#[trigger] keys@[k]),
                forall|j: int| 0 <= j < i && wanted.holds(#[trigger] all@[j]) ==> keys@.contains(all@[j]),
            decreases all@.len() - i,
        {
            let ghost earlier = keys@;
            if wanted.test(&all[i]) {
                keys.push(all[i].duplicate());
                proof {
                    places = places.push(i as int);
                    assert forall|j: int| 0 <= j < i + 1 && wanted.holds(#[trigger] all@[j]) implies keys@.contains(
                    all@[j]) by {
                        if j < i {
                            assert(earlier.contains(all@[j]));
                            let k = choose|k: int| 0 <= k < earlier.len() && earlier[k] == all@[j];
                            assert(keys@[k] == all@[j]);
                        } else {
                            assert(keys@[earlier.len() as int] == all@[j]);
                        }
                    }
                }
            }
            i += 1;
        }
        proof {
            assert forall|a: int, b: int| 0 <= a < b < keys@.len() implies #[trigger] keys@[a].before(
                #[trigger] keys@[b],
            ) by {
                assert(places[a] < places[b]);
                assert(all@[places[a]].before(all@[places[b]]));
            }
            assert forall|key: K| #[trigger]
                keys@.contains(key) <==> self@.pending.contains_key(key) && wanted.holds(key) by {
                if keys@.contains(key) {
                    let k = choose|k: int| 0 <= k < keys@.len() && keys@[k] == key;
                    assert(all@[places[k]] == key);
                    assert(all@.to_set().contains(key));
                }
                if self@.pending.contains_key(key) && wanted.holds(key) {
                    assert(all@.to_set().contains(key));
                    let j = choose|j: int| 0 <= j < all@.len() && all@[j] == key;
                    assert(wanted.holds(all@[j]));
                }
            }
        }
        keys
    }

    /// The pending submission with a key.
    pub fn pending(&self, key: &K) -> (value: Option<&Value>)
        requires
            self.wf(),
        ensures
            match value {
                Some(value) => self@.pending.contains_key(*key) && *value == self@.pending[*key],
                None => !self@.pending.contains_key(*key),
            },
    {
        self.pending.get(key)
    }

    /// The prepared submission, if it is the one with `key`.
    pub fn prepared(&self, key: &K) -> (prepared: Option<&Prepared>)
        ensures
            match prepared {
                Some(prepared) => self@.prepared == Some((*key, *prepared)),
                None => self@.prepared is None || self@.prepared->Some_0.0 != *key,
            },
    {
        match &self.prepared {
            Some((prepared_key, prepared)) => {
                if same_key(prepared_key, key) {
                    Some(prepared)
                } else {
                    None
                }
            },
            None => None,
        }
    }

    /// Whether a submission is prepared.
    pub fn has_prepared(&self) -> (found: bool)
        ensures
            found == self@.prepared is Some,
    {
        self.prepared.is_some()
    }

    /// The submission to look at next, of those with the keys `keys`.
    pub fn select(&self, keys: &Vec<K>) -> (key: Option<K>)
        requires
            self.wf(),
        ensures
            key == self@.selected(keys@),
            key matches Some(key) ==> self@.pending.contains_key(key) && (self@.prepared is Some
                ==> self@.prepared->Some_0.0 == key),
    {
        match &self.prepared {
            Some((prepared_key, _)) => {
                let mut i: usize = 0;
                while i < keys.len()
                    invariant
                        self.wf(),
                        self@.prepared is Some,
                        self@.prepared->Some_0.0 == *prepared_key,
                        i <= keys@.len(),
                        forall|j: int| 0 <= j < i ==> #[trigger] keys@[j] != *prepared_key,
                    decreases keys@.len() - i,
                {
                    if same_key(&keys[i], prepared_key) {
                        assert(keys@[i as int] == *prepared_key);
                        return Some(prepared_key.duplicate());
                    }
                    i += 1;
                }
                None
            },
            None => {
                let mut i: usize = 0;
                assert(keys@.skip(0) =~= keys@);
                while i < keys.len()
                    invariant
                        self.wf(),
                        self@.prepared is None,
                        i <= keys@.len(),
                        self@.first_pending(keys@) == self@.first_pending(keys@.skip(i as int)),
                    decreases keys@.len() - i,
                {
                    assert(keys@.skip(i as int)[0] == keys@[i as int]);
                    assert(keys@.skip(i as int).skip(1) =~= keys@.skip(i + 1));
                    if self.pending.contains_key(&keys[i]) {
                        return Some(keys[i].duplicate());
                    }
                    i += 1;
                }
                None
            },
        }
    }

    /// Notes what became of the selected submission.
    pub fn refresh(&mut self, key: K, state: PreparedState<Prepared>) -> (refreshed: Refreshed<Value>)
        requires
            old(self).wf(),
            old(self)@.pending.contains_key(key),
            old(self)@.prepared is Some ==> old(self)@.prepared->Some_0.0 == key,
            state is Current ==> old(self)@.prepared is Some,
        ensures
            final(self).wf(),
            match state {
                PreparedState::Current => refreshed is Send && final(self)@ == old(self)@,
                PreparedState::Replace(prepared) => refreshed is Send && final(self)@
                    == (SubmissionsView { prepared: Some((key, prepared)), ..old(self)@ }),
                PreparedState::Obsolete => refreshed == Refreshed::Retired(
                    old(self)@.pending[key],
                ) && final(self)@ == old(self)@.settled(key),
            },
    {
        let ghost before = self@;
        match state {
            PreparedState::Current => Refreshed::Send,
            PreparedState::Replace(prepared) => {
                self.prepared = Some((key, prepared));
                Refreshed::Send
            },
            PreparedState::Obsolete => {
                self.prepared = None;
                let removed: Option<Value> = self.pending.remove(&key);
                let ghost settled_key = key;
                self.finalized.insert(key, ());
                assert(self@ =~= before.settled(settled_key));
                match removed {
                    Some(value) => Refreshed::Retired(value),
                    None => Refreshed::Send,
                }
            },
        }
    }
}

/// A settled submission is never taken again.
pub proof fn law_settled_submission_stays_settled<K: Key, Value, Prepared>(
    submissions: SubmissionsView<K, Value, Prepared>,
    key: K,
    other: K,
)
    ensures
        submissions.settled(key).finalized.contains(key),
        !submissions.settled(key).pending.contains_key(key),
        submissions.settled(key).settled(other).finalized.contains(key),
{
}

/// While a submission is prepared, no other one is selected.
pub proof fn law_prepared_submission_goes_first<K: Key, Value, Prepared>(
    submissions: SubmissionsView<K, Value, Prepared>,
    keys: Seq<K>,
)
    requires
        submissions.prepared is Some,
    ensures
        submissions.selected(keys) matches Some(key) ==> key == submissions.prepared->Some_0.0,
{
}

/// Settling a submission touches no other one, and drops the prepared submission
/// exactly where it is the settled one.
pub proof fn law_settling_spares_the_others<K: Key, Value, Prepared>(
    submissions: SubmissionsView<K, Value, Prepared>,
    key: K,
    other: K,
)
    requires
        other != key,
    ensures
        submissions.settled(key).pending.contains_key(other) <==> submissions.pending.contains_key(other),
        submissions.pending.contains_key(other) ==> submissions.settled(key).pending[other]
            == submissions.pending[other],
        submissions.settled(key).finalized.contains(other) <==> submissions.finalized.contains(other),
        submissions.prepared matches Some((prepared, _)) ==> if prepared == key {
            submissions.settled(key).prepared is None
        } else {
            submissions.settled(key).prepared == submissions.prepared
        },
{
}

/// Keeping some submissions drops exactly the others; a prepared submission goes
/// where its submission goes, and cancelling keeps what is settled.
pub proof fn law_retention_keeps_exactly_what_is_named<K: Key, Value, Prepared>(
    submissions: SubmissionsView<K, Value, Prepared>,
    kept: Set<K>,
    key: K,
)
    ensures
        submissions.retained(kept).pending.contains_key(key) <==> submissions.pending.contains_key(key)
            && kept.contains(key),
        submissions.retained(kept).finalized.contains(key) <==> submissions.finalized.contains(key)
            && kept.contains(key),
        submissions.pending_within(kept).pending.contains_key(key)
            <==> submissions.pending.contains_key(key) && kept.contains(key),
        submissions.pending_within(kept).finalized == submissions.finalized,
        submissions.consistent() ==> (submissions.prepared matches Some((prepared, _)) ==> {
            &&& kept.contains(prepared) ==> submissions.retained(kept).prepared == submissions.prepared
                && submissions.pending_within(kept).prepared == submissions.prepared
            &&& !kept.contains(prepared) ==> submissions.retained(kept).prepared is None
                && submissions.pending_within(kept).prepared is None
        }),
        submissions.prepared is None ==> submissions.retained(kept).prepared is None
            && submissions.pending_within(kept).prepared is None,
{
}

/// Where nothing is prepared, the first pending one of the given submissions is
/// selected; a prepared submission blocks all others.
pub proof fn law_first_pending_submission_is_selected<K: Key, Value, Prepared>(
    submissions: SubmissionsView<K, Value, Prepared>,
    keys: Seq<K>,
    i: int,
)
    requires
        submissions.prepared is None,
        0 <= i < keys.len(),
        submissions.pending.contains_key(keys[i]),
        forall|j: int| 0 <= j < i ==> !submissions.pending.contains_key(#[trigger] keys[j]),
    ensures
        submissions.selected(keys) == Some(keys[i]),
    decreases keys.len(),
{
    if i > 0 {
        assert(!submissions.pending.contains_key(keys[0]));
        let rest = keys.skip(1);
        assert(rest[i - 1] == keys[i]);
        assert forall|j: int| 0 <= j < i - 1 implies !submissions.pending.contains_key(
            #[trigger] rest[j],
        ) by {
            assert(rest[j] == keys[j + 1]);
        }
        law_first_pending_submission_is_selected(submissions, rest, i - 1);
    }
}

/// A prepared submission is selected exactly where it is among the given ones.
pub proof fn law_prepared_submission_is_selected_alone<K: Key, Value, Prepared>(
    submissions: SubmissionsView<K, Value, Prepared>,
    keys: Seq<K>,
    key: K,
    prepared: Prepared,
)
    requires
        submissions.prepared == Some((key, prepared)),
    ensures
        keys.contains(key) ==> submissions.selected(keys) == Some(key),
        !keys.contains(key) ==> submissions.selected(keys) is None,
{
}

} // verus!
