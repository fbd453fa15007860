//! The registry store: the authoritative mapping from service name to entry.
//!
//! Entries are held in a vector kept strictly sorted by name, which makes the
//! name the unique key and makes listings deterministic. Registration upserts
//! an entry with a fresh timestamp; a sweep removes every entry whose age at
//! one consistent instant exceeds the expiry threshold.

use vstd::prelude::*;
use crate::order::{lex_lt, str_lt, lemma_lex_irreflexive, lemma_lex_trichotomy,
    lemma_lex_transitive};
use crate::clock::now_millis;

verus! {

/// How long an entry may go unrefreshed before a sweep removes it.
pub const EXPIRY_THRESHOLD_MILLIS: i64 = 300000;

/// How often the background sweeper is meant to run.
pub const SWEEP_INTERVAL_SECS: u64 = 5;

/// Mathematical model of one registered service: its name, the instant of its
/// last registration (milliseconds since the Unix epoch), and its metadata
/// key/value pairs in the order they were supplied.
pub ghost struct EntryModel {
    pub name: Seq<char>,
    pub last_update: int,
    pub metadata: Seq<(Seq<char>, Seq<char>)>,
}

/// One registered service: name, last-refresh timestamp in milliseconds since
/// the Unix epoch, and arbitrary string key/value metadata.
pub struct ServiceEntry {
    pub name: String,
    pub last_update: i64,
    pub metadata: Vec<(String, String)>,
}

impl View for ServiceEntry {
    type V = EntryModel;

    open spec fn view(&self) -> EntryModel {
        EntryModel {
            name: self.name@,
            last_update: self.last_update as int,
            metadata: self.metadata.deep_view(),
        }
    }
}

impl DeepView for ServiceEntry {
    type V = EntryModel;

    open spec fn deep_view(&self) -> EntryModel {
        self.view()
    }
}

/// The entries stand in strictly ascending name order: names are unique and
/// every listing comes out sorted.
pub open spec fn entries_sorted(s: Seq<EntryModel>) -> bool {
    forall|i: int, j: int|
        #![trigger s[i], s[j]]
        0 <= i < j < s.len() ==> lex_lt(s[i].name, s[j].name)
}

/// Registration at the model level: place `e` at its name's position,
/// replacing the entry of the same name if one is present.
pub open spec fn spec_register(s: Seq<EntryModel>, e: EntryModel) -> Seq<EntryModel>
    decreases s.len(),
{
    if s.len() == 0 {
        seq![e]
    } else if lex_lt(e.name, s[0].name) {
        seq![e] + s
    } else if e.name == s[0].name {
        seq![e] + s.skip(1)
    } else {
        seq![s[0]] + spec_register(s.skip(1), e)
    }
}

/// An entry is live at instant `now` when its age does not exceed the
/// threshold.
pub open spec fn live_at(e: EntryModel, threshold: int, now: int) -> bool {
    now - e.last_update <= threshold
}

/// A sweep at the model level: keep exactly the entries live at `now`.
pub open spec fn spec_sweep(s: Seq<EntryModel>, threshold: int, now: int) -> Seq<EntryModel> {
    s.filter(|e: EntryModel| live_at(e, threshold, now))
}

/// The entry registered under name `n`, if any: the first one in `s` whose
/// name is `n`.
pub open spec fn lookup(s: Seq<EntryModel>, n: Seq<char>) -> Option<EntryModel>
    decreases s.len(),
{
    if s.len() == 0 {
        None
    } else if s[0].name == n {
        Some(s[0])
    } else {
        lookup(s.skip(1), n)
    }
}

/// A name is absent exactly when no entry carries it.
pub proof fn lemma_lookup_none(s: Seq<EntryModel>, n: Seq<char>)
    ensures
        lookup(s, n) is None <==> (forall|i: int| 0 <= i < s.len() ==> (#[trigger] s[i]).name != n),
    decreases s.len(),
{
    if s.len() > 0 {
        lemma_lookup_none(s.skip(1), n);
        if lookup(s, n) is None {
            assert forall|i: int| 0 <= i < s.len() implies (#[trigger] s[i]).name != n by {
                if i > 0 {
                    assert(s.skip(1)[i - 1] == s[i]);
                }
            }
        } else {
            if s[0].name != n {
                let i = choose|i: int| 0 <= i < s.skip(1).len() && (#[trigger] s.skip(1)[i]).name == n;
                assert(s[i + 1] == s.skip(1)[i]);
            }
        }
    }
}

/// An entry found under a name carries that name and stands in the sequence.
pub proof fn lemma_lookup_some(s: Seq<EntryModel>, n: Seq<char>)
    ensures
        lookup(s, n) matches Some(e) ==> e.name == n && s.contains(e),
    decreases s.len(),
{
    if s.len() > 0 && lookup(s, n) is Some {
        if s[0].name == n {
            assert(s[0] == lookup(s, n)->Some_0);
        } else {
            lemma_lookup_some(s.skip(1), n);
            let e = lookup(s, n)->Some_0;
            let i = choose|i: int| 0 <= i < s.skip(1).len() && s.skip(1)[i] == e;
            assert(s[i + 1] == s.skip(1)[i]);
        }
    }
}

/// In a sorted sequence the entry under `n`, when present, is the only one
/// named `n`.
pub proof fn lemma_lookup_found(s: Seq<EntryModel>, n: Seq<char>)
    requires
        entries_sorted(s),
    ensures
        lookup(s, n) matches Some(e) ==> forall|i: int|
            0 <= i < s.len() ==> ((#[trigger] s[i]).name == n <==> s[i] == e),
    decreases s.len(),
{
    if s.len() > 0 && lookup(s, n) is Some {
        let e = lookup(s, n)->Some_0;
        if s[0].name == n {
            assert forall|i: int| 0 <= i < s.len() implies ((#[trigger] s[i]).name == n <==> s[i] == e) by {
                if i > 0 {
                    lemma_lex_irreflexive(n);
                    assert(lex_lt(s[0].name, s[i].name));
                }
            }
        } else {
            lemma_sorted_skip(s);
            lemma_lookup_found(s.skip(1), n);
            lemma_lookup_some(s.skip(1), n);
            assert forall|i: int| 0 <= i < s.len() implies ((#[trigger] s[i]).name == n <==> s[i] == e) by {
                if i > 0 {
                    assert(s.skip(1)[i - 1] == s[i]);
                } else {
                    assert(e.name == n);
                }
            }
        }
    }
}

/// Sorted order survives dropping the first entry.
pub proof fn lemma_sorted_skip(s: Seq<EntryModel>)
    requires
        entries_sorted(s),
        s.len() > 0,
    ensures
        entries_sorted(s.skip(1)),
{
    assert forall|i: int, j: int|
        #![trigger s.skip(1)[i], s.skip(1)[j]]
        0 <= i < j < s.skip(1).len() implies lex_lt(s.skip(1)[i].name, s.skip(1)[j].name) by {
        assert(s.skip(1)[i] == s[i + 1]);
        assert(s.skip(1)[j] == s[j + 1]);
    }
}

/// Every entry of a registration's result is the new entry or one carried
/// over, and the new entry is present.
pub proof fn lemma_register_elements(s: Seq<EntryModel>, e: EntryModel)
    ensures
        spec_register(s, e).contains(e),
        forall|x: EntryModel| #[trigger] spec_register(s, e).contains(x) ==> x == e || s.contains(x),
    decreases s.len(),
{
    let r = spec_register(s, e);
    if s.len() == 0 {
        assert(r[0] == e);
    } else if lex_lt(e.name, s[0].name) {
        assert(r[0] == e);
        assert forall|x: EntryModel| #[trigger] r.contains(x) implies x == e || s.contains(x) by {
            let i = choose|i: int| 0 <= i < r.len() && r[i] == x;
            if i > 0 {
                assert(s[i - 1] == r[i]);
            }
        }
    } else if e.name == s[0].name {
        assert(r[0] == e);
        assert forall|x: EntryModel| #[trigger] r.contains(x) implies x == e || s.contains(x) by {
            let i = choose|i: int| 0 <= i < r.len() && r[i] == x;
            if i > 0 {
                assert(s.skip(1)[i - 1] == r[i]);
                assert(s[i] == s.skip(1)[i - 1]);
            }
        }
    } else {
        lemma_register_elements(s.skip(1), e);
        let rr = spec_register(s.skip(1), e);
        let j = choose|j: int| 0 <= j < rr.len() && rr[j] == e;
        assert(r[j + 1] == e);
        assert forall|x: EntryModel| #[trigger] r.contains(x) implies x == e || s.contains(x) by {
            let i = choose|i: int| 0 <= i < r.len() && r[i] == x;
            if i == 0 {
                assert(s[0] == x);
            } else {
                assert(rr[i - 1] == r[i]);
                assert(rr.contains(x));
                if x != e {
                    let k = choose|k: int| 0 <= k < s.skip(1).len() && s.skip(1)[k] == x;
                    assert(s[k + 1] == s.skip(1)[k]);
                }
            }
        }
    }
}

/// Registration keeps the entries sorted by name.
pub proof fn lemma_register_sorted(s: Seq<EntryModel>, e: EntryModel)
    requires
        entries_sorted(s),
    ensures
        entries_sorted(spec_register(s, e)),
    decreases s.len(),
{
    let r = spec_register(s, e);
    if s.len() == 0 {
    } else if lex_lt(e.name, s[0].name) {
        assert forall|i: int, j: int|
            #![trigger r[i], r[j]]
            0 <= i < j < r.len() implies lex_lt(r[i].name, r[j].name) by {
            if i == 0 {
                assert(r[j] == s[j - 1]);
                if j > 1 {
                    lemma_lex_transitive(e.name, s[0].name, s[j - 1].name);
                }
            } else {
                assert(r[i] == s[i - 1]);
                assert(r[j] == s[j - 1]);
            }
        }
    } else if e.name == s[0].name {
        assert forall|i: int, j: int|
            #![trigger r[i], r[j]]
            0 <= i < j < r.len() implies lex_lt(r[i].name, r[j].name) by {
            if i == 0 {
                assert(r[j] == s.skip(1)[j - 1]);
                assert(s.skip(1)[j - 1] == s[j]);
            } else {
                assert(r[i] == s[i]);
                assert(r[j] == s[j]);
            }
        }
    } else {
        lemma_lex_trichotomy(e.name, s[0].name);
        assert(lex_lt(s[0].name, e.name));
        lemma_sorted_skip(s);
        lemma_register_sorted(s.skip(1), e);
        lemma_register_elements(s.skip(1), e);
        let rr = spec_register(s.skip(1), e);
        assert forall|i: int, j: int|
            #![trigger r[i], r[j]]
            0 <= i < j < r.len() implies lex_lt(r[i].name, r[j].name) by {
            if i == 0 {
                assert(r[j] == rr[j - 1]);
                assert(rr.contains(rr[j - 1]));
                if rr[j - 1] == e {
                } else {
                    let k = choose|k: int| 0 <= k < s.skip(1).len() && s.skip(1)[k] == rr[j - 1];
                    assert(s[k + 1] == s.skip(1)[k]);
                    assert(lex_lt(s[0].name, s[k + 1].name));
                }
            } else {
                assert(r[i] == rr[i - 1]);
                assert(r[j] == rr[j - 1]);
            }
        }
    }
}

/// What registration does to each name: the registered name now maps to the
/// new entry; every other name keeps its binding.
pub proof fn lemma_lookup_register(s: Seq<EntryModel>, e: EntryModel, n: Seq<char>)
    requires
        entries_sorted(s),
    ensures
        lookup(spec_register(s, e), n) == if n == e.name {
            Some(e)
        } else {
            lookup(s, n)
        },
    decreases s.len(),
{
    let r = spec_register(s, e);
    if s.len() == 0 {
        assert(r == seq![e]);
        assert(r[0] == e);
        if r[0].name != n {
            assert(r.skip(1) =~= Seq::<EntryModel>::empty());
            assert(lookup(r, n) == lookup(r.skip(1), n));
        }
    } else if lex_lt(e.name, s[0].name) {
        assert(r == seq![e] + s);
        assert(r[0] == e);
        if n == e.name {
            assert(lookup(r, n) == Some(e));
        } else {
            assert(r.skip(1) =~= s);
            assert(lookup(r, n) == lookup(s, n));
        }
    } else if e.name == s[0].name {
        assert(r == seq![e] + s.skip(1));
        assert(r[0] == e);
        if n == e.name {
            assert(lookup(r, n) == Some(e));
        } else {
            assert(r.skip(1) =~= s.skip(1));
            assert(lookup(r, n) == lookup(s.skip(1), n));
            assert(lookup(s, n) == lookup(s.skip(1), n));
        }
    } else {
        lemma_lex_trichotomy(e.name, s[0].name);
        lemma_sorted_skip(s);
        lemma_lookup_register(s.skip(1), e, n);
        assert(r == seq![s[0]] + spec_register(s.skip(1), e));
        assert(r[0] == s[0]);
        assert(r.skip(1) =~= spec_register(s.skip(1), e));
        if s[0].name == n {
            // n is bound at the head and e sorts strictly after it, so the
            // head stays and answers the lookup on both sides.
            lemma_lex_irreflexive(e.name);
            assert(n != e.name);
            assert(lookup(r, n) == Some(s[0]));
            assert(lookup(s, n) == Some(s[0]));
        } else {
            assert(lookup(r, n) == lookup(spec_register(s.skip(1), e), n));
            assert(lookup(s, n) == lookup(s.skip(1), n));
        }
    }
}

/// What a sweep does to each name: a live binding is kept unchanged, a stale
/// one is dropped.
pub proof fn lemma_lookup_sweep(s: Seq<EntryModel>, threshold: int, now: int, n: Seq<char>)
    requires
        entries_sorted(s),
    ensures
        lookup(spec_sweep(s, threshold, now), n) == match lookup(s, n) {
            Some(e) => if live_at(e, threshold, now) {
                Some(e)
            } else {
                None
            },
            None => None::<EntryModel>,
        },
    decreases s.len(),
{
    reveal(Seq::filter);
    let pred = |e: EntryModel| live_at(e, threshold, now);
    if s.len() == 0 {
        assert(s.filter(pred) =~= s);
    } else {
        lemma_sorted_skip(s);
        lemma_lookup_sweep(s.skip(1), threshold, now, n);
        assert(s =~= seq![s[0]] + s.skip(1));
        Seq::filter_distributes_over_add(seq![s[0]], s.skip(1), pred);
        let head = seq![s[0]];
        assert(head.drop_last() =~= Seq::<EntryModel>::empty());
        if pred(s[0]) {
            assert(head.filter(pred) =~= seq![s[0]]);
            let f = s.filter(pred);
            assert(f == seq![s[0]] + s.skip(1).filter(pred));
            assert(f[0] == s[0]);
            assert(f.skip(1) =~= s.skip(1).filter(pred));
            if s[0].name != n {
                assert(lookup(f, n) == lookup(s.skip(1).filter(pred), n));
            }
        } else {
            assert(head.last() == s[0]);
            assert(head.drop_last() =~= Seq::<EntryModel>::empty());
            assert(Seq::<EntryModel>::empty().filter(pred) == Seq::<EntryModel>::empty());
            assert(head.filter(pred) =~= Seq::<EntryModel>::empty());
            assert(s.filter(pred) =~= s.skip(1).filter(pred));
            if s[0].name == n {
                // The head is stale and no later entry reuses its name.
                lemma_lookup_none(s.skip(1), n);
                assert forall|i: int| 0 <= i < s.skip(1).len() implies (#[trigger] s.skip(1)[i]).name != n by {
                    assert(s.skip(1)[i] == s[i + 1]);
                    assert(lex_lt(s[0].name, s[i + 1].name));
                    lemma_lex_irreflexive(n);
                }
                lemma_lookup_none(s.skip(1).filter(pred), n);
                assert forall|i: int| 0 <= i < s.skip(1).filter(pred).len()
                    implies (#[trigger] s.skip(1).filter(pred)[i]).name != n by {
                    lemma_filter_subset(s.skip(1), pred, i);
                    let x = s.skip(1).filter(pred)[i];
                    let k = choose|k: int| 0 <= k < s.skip(1).len() && s.skip(1)[k] == x;
                }
            }
        }
    }
}

/// Every element a filter keeps comes from the underlying sequence.
pub proof fn lemma_filter_subset(s: Seq<EntryModel>, pred: spec_fn(EntryModel) -> bool, i: int)
    requires
        0 <= i < s.filter(pred).len(),
    ensures
        s.contains(s.filter(pred)[i]),
    decreases s.len(),
{
    reveal(Seq::filter);
    if s.len() > 0 {
        let f = s.filter(pred);
        let fd = s.drop_last().filter(pred);
        if pred(s.last()) {
            if i < f.len() - 1 {
                assert(f[i] == fd[i]);
                lemma_filter_subset(s.drop_last(), pred, i);
                let k = choose|k: int| 0 <= k < s.drop_last().len() && s.drop_last()[k] == fd[i];
                assert(s[k] == s.drop_last()[k]);
            } else {
                assert(f[i] == s.last());
                assert(s[s.len() - 1] == s.last());
            }
        } else {
            lemma_filter_subset(s.drop_last(), pred, i);
            let k = choose|k: int| 0 <= k < s.drop_last().len() && s.drop_last()[k] == fd[i];
            assert(s[k] == s.drop_last()[k]);
        }
    }
}

/// A sweep keeps the entries sorted by name.
pub proof fn lemma_sweep_sorted(s: Seq<EntryModel>, threshold: int, now: int)
    requires
        entries_sorted(s),
    ensures
        entries_sorted(spec_sweep(s, threshold, now)),
{
    lemma_filter_sorted(s, |e: EntryModel| live_at(e, threshold, now));
}

/// Filtering preserves strictly ascending name order.
pub proof fn lemma_filter_sorted(s: Seq<EntryModel>, pred: spec_fn(EntryModel) -> bool)
    requires
        entries_sorted(s),
    ensures
        entries_sorted(s.filter(pred)),
    decreases s.len(),
{
    reveal(Seq::filter);
    if s.len() > 0 {
        assert(entries_sorted(s.drop_last())) by {
            assert forall|i: int, j: int|
                #![trigger s.drop_last()[i], s.drop_last()[j]]
                0 <= i < j < s.drop_last().len()
                implies lex_lt(s.drop_last()[i].name, s.drop_last()[j].name) by {
                assert(s.drop_last()[i] == s[i]);
                assert(s.drop_last()[j] == s[j]);
            }
        }
        lemma_filter_sorted(s.drop_last(), pred);
        let f = s.filter(pred);
        let fd = s.drop_last().filter(pred);
        if pred(s.last()) {
            assert(f == fd.push(s.last()));
            assert forall|i: int, j: int|
                #![trigger f[i], f[j]]
                0 <= i < j < f.len() implies lex_lt(f[i].name, f[j].name) by {
                if j < f.len() - 1 {
                    assert(f[i] == fd[i]);
                    assert(f[j] == fd[j]);
                } else {
                    assert(f[j] == s.last());
                    assert(f[i] == fd[i]);
                    lemma_filter_subset(s.drop_last(), pred, i);
                    let k = choose|k: int|
                        0 <= k < s.drop_last().len() && s.drop_last()[k] == fd[i];
                    assert(s[k] == s.drop_last()[k]);
                    assert(lex_lt(s[k].name, s[s.len() - 1].name));
                }
            }
        }
    }
}

/// The registry store. All registration, expiry and listing state lives here;
/// entries are kept strictly sorted by name.
pub struct ServiceRegistry {
    services: Vec<ServiceEntry>,
}

impl View for ServiceRegistry {
    type V = Seq<EntryModel>;

    closed spec fn view(&self) -> Seq<EntryModel> {
        self.services.deep_view()
    }
}

impl ServiceRegistry {
    /// The store's invariant: entries stand in strictly ascending name order.
    pub open spec fn wf(&self) -> bool {
        entries_sorted(self@)
    }

    /// Creates an empty registry.
    pub fn new() -> (r: Self)
        ensures
            r@ == Seq::<EntryModel>::empty(),
            r.wf(),
    {
        let r = ServiceRegistry { services: Vec::new() };
        proof {
            assert(r@ =~= Seq::<EntryModel>::empty());
        }
        r
    }

    /// Upserts the entry for `name` with the given metadata and the timestamp
    /// `now` (milliseconds since the Unix epoch). Any previous entry under
    /// the same name is replaced wholesale; every other entry is untouched.
    pub fn register_at(&mut self, name: String, metadata: Vec<(String, String)>, now: i64)
        requires
            old(self).wf(),
        ensures
            final(self).wf(),
            final(self)@ == spec_register(
                old(self)@,
                EntryModel { name: name@, last_update: now as int, metadata: metadata.deep_view() },
            ),
    {
        let ghost e = EntryModel {
            name: name@,
            last_update: now as int,
            metadata: metadata.deep_view(),
        };
        let ghost s = self@;
        let i = find_slot(&self.services, name.as_str());
        let len = self.services.len();
        let replace = i < len && self.services[i].name == name;
        let entry = ServiceEntry { name, last_update: now, metadata };
        proof {
            lemma_register_position(s, e, i as int);
            lemma_register_sorted(s, e);
        }
        if replace {
            self.services.remove(i);
            self.services.insert(i, entry);
            proof {
                assert(self@ =~= s.update(i as int, e)) by {
                    assert(self.services@ =~= old(self).services@.remove(i as int).insert(i as int, entry));
                }
            }
        } else {
            proof {
                if i < len {
                    lemma_lex_trichotomy(e.name, s[i as int].name);
                }
            }
            self.services.insert(i, entry);
            proof {
                assert(self@ =~= s.insert(i as int, e)) by {
                    assert(self.services@ =~= old(self).services@.insert(i as int, entry));
                }
            }
        }
    }

    /// Removes every entry whose age at the single instant `now` exceeds
    /// `threshold_millis`; all entries live at `now` stay, in order.
    pub fn sweep_at(&mut self, threshold_millis: i64, now: i64)
        requires
            old(self).wf(),
        ensures
            final(self).wf(),
            final(self)@ == spec_sweep(old(self)@, threshold_millis as int, now as int),
    {
        let ghost pred = |e: EntryModel| live_at(e, threshold_millis as int, now as int);
        let ghost orig = self@;
        let mut kept: Vec<ServiceEntry> = Vec::new();
        proof {
            reveal(Seq::filter);
            assert(Seq::<EntryModel>::empty().filter(pred) =~= Seq::<EntryModel>::empty());
            assert(kept.deep_view() =~= Seq::<EntryModel>::empty());
            assert(orig.take(0) =~= Seq::<EntryModel>::empty());
        }
        let len = self.services.len();
        let mut i: usize = 0;
        while i < len
            invariant
                i <= len,
                len == self.services.len(),
                *self == *old(self),
                orig == self@,
                pred == (|e: EntryModel| live_at(e, threshold_millis as int, now as int)),
                kept.deep_view() == orig.take(i as int).filter(pred),
            decreases len - i,
        {
            let e = &self.services[i];
            proof {
                assert(orig[i as int] == self.services@[i as int]@);
                assert(orig[i as int].last_update == e.last_update as int);
            }
            let age = (now as i128) - (e.last_update as i128);
            proof {
                assert(age as int == now as int - e.last_update as int);
                assert(pred(orig[i as int]) == live_at(
                    orig[i as int],
                    threshold_millis as int,
                    now as int,
                ));
            }
            let ghost prefix = orig.take(i as int);
            if age <= threshold_millis as i128 {
                let copy = clone_entry(e);
                kept.push(copy);
                proof {
                    assert(copy@ == orig[i as int]);
                    assert(pred(orig[i as int]));
                    lemma_filter_take_step(orig, pred, i as int);
                    assert(kept.deep_view() =~= prefix.filter(pred).push(orig[i as int]));
                }
            } else {
                proof {
                    assert(!pred(orig[i as int]));
                    lemma_filter_take_step(orig, pred, i as int);
                }
            }
            i = i + 1;
        }
        proof {
            assert(orig.take(len as int) =~= orig);
        }
        self.services = kept;
        proof {
            lemma_sweep_sorted(orig, threshold_millis as int, now as int);
        }
    }

    /// Upserts the entry for `name` with the given metadata, stamped with the
    /// current wall-clock time. Any string is accepted as a name; rejecting
    /// empty names is left to the transport layer.
    pub fn add_service(&mut self, name: String, metadata: Vec<(String, String)>)
        requires
            old(self).wf(),
        ensures
            final(self).wf(),
            exists|t: int|
                final(self)@ == spec_register(
                    old(self)@,
                    EntryModel {
                        name: name@,
                        last_update: t,
                        metadata: metadata.deep_view(),
                    },
                ),
    {
        let now = now_millis();
        self.register_at(name, metadata, now);
    }

    /// A point-in-time listing: every entry's name and metadata, in
    /// ascending name order (the storage order).
    pub fn snapshot(&self) -> (r: Vec<(String, Vec<(String, String)>)>)
        ensures
            r.deep_view() == crate::render::listing_of(self@),
    {
        let mut out: Vec<(String, Vec<(String, String)>)> = Vec::new();
        let len = self.services.len();
        let mut i: usize = 0;
        proof {
            assert(out.deep_view() =~= crate::render::listing_of(self@.take(0)));
        }
        while i < len
            invariant
                i <= len,
                len == self.services@.len(),
                out.deep_view() == crate::render::listing_of(self@.take(i as int)),
            decreases len - i,
        {
            let e = &self.services[i];
            proof {
                assert(self@[i as int] == self.services@[i as int]@);
            }
            let name = e.name.clone();
            let metadata = clone_pairs(&e.metadata);
            let ghost nm = name@;
            let ghost md = metadata.deep_view();
            let ghost pair = (name, metadata);
            let ghost prev = out@;
            let ghost odv = out.deep_view();
            proof {
                assert(nm == self@[i as int].name);
                assert(md == self@[i as int].metadata);
                assert(out.deep_view().len() == out@.len());
                assert(prev.len() == i as int);
            }
            out.push((name, metadata));
            proof {
                let dv = out.deep_view();
                let tgt = crate::render::listing_of(self@.take(i + 1));
                assert(out@ == prev.push(pair));
                assert(out@[i as int] == pair);
                assert(dv.len() == i + 1);
                assert(tgt.len() == i + 1);
                assert forall|k: int| 0 <= k < i + 1 implies dv[k] == tgt[k] by {
                    assert(dv[k] == out@[k].deep_view());
                    if k < i as int {
                        assert(out@[k] == prev[k]);
                        assert(odv[k] == prev[k].deep_view());
                        assert(odv[k] == crate::render::listing_of(self@.take(i as int))[k]);
                        assert(tgt[k] == (self@[k].name, self@[k].metadata));
                    } else {
                        assert(out@[k].deep_view() == (nm, md));
                        assert(tgt[k] == (self@[i as int].name, self@[i as int].metadata));
                    }
                }
                assert(dv =~= tgt);
            }
            i = i + 1;
        }
        proof {
            assert(self@.take(len as int) =~= self@);
        }
        out
    }

    /// Renders the current entries: the serializer applied to a snapshot.
    pub fn dump(&self) -> (r: String)
        ensures
            r@ == crate::render::render(crate::render::listing_of(self@)),
    {
        let snap = self.snapshot();
        crate::render::render_listing(&snap)
    }

    /// Removes every entry older than `expiry_millis` as of the current
    /// wall-clock time, read once for the whole sweep.
    pub fn cleanup(&mut self, expiry_millis: i64)
        requires
            old(self).wf(),
        ensures
            final(self).wf(),
            exists|t: int| final(self)@ == spec_sweep(old(self)@, expiry_millis as int, t),
    {
        let now = now_millis();
        self.sweep_at(expiry_millis, now);
    }
}

/// Extending the taken prefix by one element extends its filtered image by
/// that element exactly when the predicate holds of it.
proof fn lemma_filter_take_step(s: Seq<EntryModel>, pred: spec_fn(EntryModel) -> bool, i: int)
    requires
        0 <= i < s.len(),
    ensures
        s.take(i + 1).filter(pred) == if pred(s[i]) {
            s.take(i).filter(pred).push(s[i])
        } else {
            s.take(i).filter(pred)
        },
{
    reveal(Seq::filter);
    assert(s.take(i + 1).drop_last() =~= s.take(i));
    assert(s.take(i + 1).last() == s[i]);
}

/// Scans for the slot of `name`: the index of the first entry whose name does
/// not sort strictly before it.
fn find_slot(v: &Vec<ServiceEntry>, name: &str) -> (r: usize)
    ensures
        r <= v@.len(),
        forall|k: int| 0 <= k < r ==> lex_lt((#[trigger] v.deep_view()[k]).name, name@),
        r < v@.len() ==> !lex_lt(v.deep_view()[r as int].name, name@),
{
    let len = v.len();
    let mut i: usize = 0;
    while i < len
        invariant
            i <= len,
            len == v@.len(),
            forall|k: int| 0 <= k < i ==> lex_lt((#[trigger] v.deep_view()[k]).name, name@),
        decreases len - i,
    {
        proof {
            assert(v.deep_view()[i as int] == v@[i as int]@);
        }
        if !str_lt(v[i].name.as_str(), name) {
            return i;
        }
        i = i + 1;
    }
    i
}

/// Copies one entry, field by field.
fn clone_entry(e: &ServiceEntry) -> (r: ServiceEntry)
    ensures
        r@ == e@,
{
    let name = e.name.clone();
    let last_update = e.last_update;
    let metadata = clone_pairs(&e.metadata);
    let r = ServiceEntry { name, last_update, metadata };
    proof {
        assert(r.metadata.deep_view() =~= e.metadata.deep_view());
    }
    r
}

/// Copies a metadata vector, pair by pair.
fn clone_pairs(v: &Vec<(String, String)>) -> (r: Vec<(String, String)>)
    ensures
        r@ == v@,
        r.deep_view() == v.deep_view(),
{
    let mut out: Vec<(String, String)> = Vec::new();
    let len = v.len();
    let mut i: usize = 0;
    while i < len
        invariant
            i <= len,
            len == v@.len(),
            out@ == v@.take(i as int),
        decreases len - i,
    {
        let k = v[i].0.clone();
        let val = v[i].1.clone();
        out.push((k, val));
        proof {
            assert(out@ =~= v@.take(i + 1));
        }
        i = i + 1;
    }
    proof {
        assert(v@.take(len as int) =~= v@);
        assert(out.deep_view() =~= v.deep_view());
    }
    out
}

/// Where the scan of a registration lands: at the slot of the matching name,
/// the result replaces in place; at a fresh slot, it inserts there.
proof fn lemma_register_position(s: Seq<EntryModel>, e: EntryModel, i: int)
    requires
        entries_sorted(s),
        0 <= i <= s.len(),
        forall|k: int| 0 <= k < i ==> lex_lt((#[trigger] s[k]).name, e.name),
        i < s.len() ==> !lex_lt(s[i].name, e.name),
    ensures
        i < s.len() && s[i].name == e.name ==> spec_register(s, e) == s.update(i, e),
        (i == s.len() || lex_lt(e.name, s[i].name)) ==> spec_register(s, e) == s.insert(i, e),
    decreases s.len(),
{
    if s.len() == 0 {
        assert(spec_register(s, e) =~= s.insert(0, e));
    } else if i == 0 {
        if lex_lt(e.name, s[0].name) {
            assert(seq![e] + s =~= s.insert(0, e));
        } else if e.name == s[0].name {
            assert(seq![e] + s.skip(1) =~= s.update(0, e));
        } else {
            lemma_lex_trichotomy(e.name, s[0].name);
        }
    } else {
        // The head sorts before e, so registration recurses past it.
        assert(lex_lt(s[0].name, e.name));
        lemma_lex_irreflexive(s[0].name);
        assert(s[0].name != e.name);
        if lex_lt(e.name, s[0].name) {
            lemma_lex_transitive(e.name, s[0].name, e.name);
            lemma_lex_irreflexive(e.name);
        }
        lemma_sorted_skip(s);
        assert forall|k: int| 0 <= k < i - 1 implies lex_lt((#[trigger] s.skip(1)[k]).name, e.name) by {
            assert(s.skip(1)[k] == s[k + 1]);
        }
        assert(i - 1 < s.skip(1).len() ==> !lex_lt(s.skip(1)[i - 1].name, e.name)) by {
            if i - 1 < s.skip(1).len() {
                assert(s.skip(1)[i - 1] == s[i]);
            }
        }
        lemma_register_position(s.skip(1), e, i - 1);
        if i < s.len() && s[i].name == e.name {
            assert(s.skip(1)[i - 1] == s[i]);
            assert(spec_register(s, e) == seq![s[0]] + spec_register(s.skip(1), e));
            assert(seq![s[0]] + s.skip(1).update(i - 1, e) =~= s.update(i, e));
        }
        if i == s.len() || lex_lt(e.name, s[i].name) {
            if i < s.len() {
                assert(s.skip(1)[i - 1] == s[i]);
            }
            assert(spec_register(s, e) == seq![s[0]] + spec_register(s.skip(1), e));
            assert(seq![s[0]] + s.skip(1).insert(i - 1, e) =~= s.insert(i, e));
        }
    }
}

} // verus!
