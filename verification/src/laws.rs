//! Laws of the registry, stated once over the model and proved.
//!
//! These relate the model-level transitions that the store's contracts speak
//! of: `spec_register`, `spec_sweep` and `lookup`.

use vstd::prelude::*;
use crate::order::{lex_lt, lemma_lex_irreflexive, lemma_lex_trichotomy, lemma_lex_transitive};
use crate::registry::{EntryModel, entries_sorted, spec_register, spec_sweep, live_at, lookup,
    lemma_lookup_register, lemma_lookup_sweep, lemma_lookup_some, lemma_lookup_none,
    lemma_lookup_found, lemma_register_sorted, lemma_sweep_sorted, lemma_sorted_skip};
use crate::render::listing_of;

verus! {

/// Listings are deterministically ordered: in a well-formed store the
/// snapshot's names ascend strictly, whatever order registrations arrived in.
pub proof fn lemma_listing_sorted(s: Seq<EntryModel>)
    requires
        entries_sorted(s),
    ensures
        forall|i: int, j: int|
            #![trigger listing_of(s)[i], listing_of(s)[j]]
            0 <= i < j < listing_of(s).len() ==> lex_lt(listing_of(s)[i].0, listing_of(s)[j].0),
{
    assert forall|i: int, j: int|
        #![trigger listing_of(s)[i], listing_of(s)[j]]
        0 <= i < j < listing_of(s).len() implies lex_lt(listing_of(s)[i].0, listing_of(s)[j].0) by {
        assert(listing_of(s)[i].0 == s[i].name);
        assert(listing_of(s)[j].0 == s[j].name);
    }
}

/// A sorted store is determined by what it binds: two sorted entry sequences
/// that answer every lookup alike are the same sequence. Listings therefore
/// depend on the content alone, never on the order of the calls that built it.
pub proof fn lemma_sorted_lookup_determines(s1: Seq<EntryModel>, s2: Seq<EntryModel>)
    requires
        entries_sorted(s1),
        entries_sorted(s2),
        forall|n: Seq<char>| lookup(s1, n) == lookup(s2, n),
    ensures
        s1 == s2,
    decreases s1.len(),
{
    if s1.len() == 0 {
        if s2.len() > 0 {
            assert(lookup(s2, s2[0].name) == Some(s2[0]));
            assert(lookup(s1, s2[0].name) is None);
        }
        assert(s1 =~= s2);
    } else if s2.len() == 0 {
        assert(lookup(s1, s1[0].name) == Some(s1[0]));
        assert(lookup(s2, s1[0].name) is None);
        assert(s1 =~= s2);
    } else {
        let h1 = s1[0];
        let h2 = s2[0];
        assert(lookup(s1, h1.name) == Some(h1));
        assert(lookup(s2, h2.name) == Some(h2));
        // The heads carry the same name: otherwise the strictly smaller head
        // name would be bound on one side and unbound on the other.
        assert(h1.name == h2.name) by {
            lemma_lex_trichotomy(h1.name, h2.name);
            if lex_lt(h1.name, h2.name) {
                lemma_lookup_some(s2, h1.name);
                let e = lookup(s2, h1.name)->Some_0;
                let i = choose|i: int| 0 <= i < s2.len() && s2[i] == e;
                if i == 0 {
                    lemma_lex_irreflexive(h1.name);
                } else {
                    lemma_lex_transitive(h1.name, h2.name, e.name);
                    lemma_lex_irreflexive(h1.name);
                }
            } else if lex_lt(h2.name, h1.name) {
                lemma_lookup_some(s1, h2.name);
                let e = lookup(s1, h2.name)->Some_0;
                let i = choose|i: int| 0 <= i < s1.len() && s1[i] == e;
                if i == 0 {
                    lemma_lex_irreflexive(h2.name);
                } else {
                    lemma_lex_transitive(h2.name, h1.name, e.name);
                    lemma_lex_irreflexive(h2.name);
                }
            }
        }
        assert(h1 == h2) by {
            assert(lookup(s2, h1.name) == Some(h2));
        }
        lemma_sorted_skip(s1);
        lemma_sorted_skip(s2);
        assert forall|n: Seq<char>| lookup(s1.skip(1), n) == lookup(s2.skip(1), n) by {
            if n == h1.name {
                lemma_lookup_none(s1.skip(1), n);
                lemma_lookup_none(s2.skip(1), n);
                assert forall|i: int| 0 <= i < s1.skip(1).len()
                    implies (#[trigger] s1.skip(1)[i]).name != n by {
                    assert(s1.skip(1)[i] == s1[i + 1]);
                    assert(lex_lt(s1[0].name, s1[i + 1].name));
                    lemma_lex_irreflexive(n);
                }
                assert forall|i: int| 0 <= i < s2.skip(1).len()
                    implies (#[trigger] s2.skip(1)[i]).name != n by {
                    assert(s2.skip(1)[i] == s2[i + 1]);
                    assert(lex_lt(s2[0].name, s2[i + 1].name));
                    lemma_lex_irreflexive(n);
                }
            } else {
                assert(lookup(s1, n) == lookup(s1.skip(1), n));
                assert(lookup(s2, n) == lookup(s2.skip(1), n));
            }
        }
        lemma_sorted_lookup_determines(s1.skip(1), s2.skip(1));
        assert forall|i: int| 0 <= i < s1.len() implies s1[i] == s2[i] by {
            if i > 0 {
                assert(s1[i] == s1.skip(1)[i - 1]);
                assert(s2[i] == s2.skip(1)[i - 1]);
            }
        }
        assert(s1 =~= s2);
    }
}

/// Registering a name twice keeps a single entry for it: the store equals the
/// one built by the second registration alone, the name is bound to the
/// second entry, and no other entry carries the name.
pub proof fn lemma_register_twice(s: Seq<EntryModel>, e1: EntryModel, e2: EntryModel)
    requires
        entries_sorted(s),
        e1.name == e2.name,
    ensures
        spec_register(spec_register(s, e1), e2) == spec_register(s, e2),
        lookup(spec_register(spec_register(s, e1), e2), e2.name) == Some(e2),
        forall|i: int| 0 <= i < spec_register(spec_register(s, e1), e2).len() ==>
            ((#[trigger] spec_register(spec_register(s, e1), e2)[i]).name == e2.name
                <==> spec_register(spec_register(s, e1), e2)[i] == e2),
{
    let r1 = spec_register(s, e1);
    let twice = spec_register(r1, e2);
    let once = spec_register(s, e2);
    lemma_register_sorted(s, e1);
    lemma_register_sorted(r1, e2);
    lemma_register_sorted(s, e2);
    assert forall|n: Seq<char>| lookup(twice, n) == lookup(once, n) by {
        lemma_lookup_register(s, e1, n);
        lemma_lookup_register(r1, e2, n);
        lemma_lookup_register(s, e2, n);
    }
    lemma_sorted_lookup_determines(twice, once);
    lemma_lookup_register(r1, e2, e2.name);
    lemma_lookup_found(twice, e2.name);
}

/// Re-registering refreshes the timestamp: an entry whose last registration
/// stands within the threshold of `now` survives a sweep at `now`.
pub proof fn lemma_refresh_extends_life(s: Seq<EntryModel>, e: EntryModel, threshold: int, now: int)
    requires
        entries_sorted(s),
        now - e.last_update <= threshold,
    ensures
        lookup(spec_sweep(spec_register(s, e), threshold, now), e.name) == Some(e),
{
    lemma_register_sorted(s, e);
    lemma_lookup_register(s, e, e.name);
    lemma_lookup_sweep(spec_register(s, e), threshold, now, e.name);
}

/// A sweep removes stale entries: a name whose entry's age exceeds the
/// threshold at `now` is bound to nothing afterwards, and no remaining entry
/// carries it.
pub proof fn lemma_sweep_removes_stale(s: Seq<EntryModel>, n: Seq<char>, threshold: int, now: int)
    requires
        entries_sorted(s),
        lookup(s, n) matches Some(e) && now - e.last_update > threshold,
    ensures
        lookup(spec_sweep(s, threshold, now), n) is None,
        forall|i: int| 0 <= i < spec_sweep(s, threshold, now).len() ==>
            (#[trigger] spec_sweep(s, threshold, now)[i]).name != n,
{
    lemma_lookup_sweep(s, threshold, now, n);
    lemma_sweep_sorted(s, threshold, now);
    lemma_lookup_none(spec_sweep(s, threshold, now), n);
}

/// Filtering keeps a sequence whose elements all pass the predicate intact.
proof fn lemma_filter_all(t: Seq<EntryModel>, pred: spec_fn(EntryModel) -> bool)
    requires
        forall|i: int| 0 <= i < t.len() ==> pred(#[trigger] t[i]),
    ensures
        t.filter(pred) == t,
    decreases t.len(),
{
    reveal(Seq::filter);
    if t.len() > 0 {
        assert forall|i: int| 0 <= i < t.drop_last().len() implies pred(#[trigger] t.drop_last()[i]) by {
            assert(t.drop_last()[i] == t[i]);
        }
        lemma_filter_all(t.drop_last(), pred);
        assert(pred(t.last()));
        assert(t.filter(pred) =~= t);
    } else {
        assert(t.filter(pred) =~= t);
    }
}

/// Sweeping is idempotent: a second sweep at the same instant, with no
/// intervening registrations, removes nothing further.
pub proof fn lemma_sweep_idempotent(s: Seq<EntryModel>, threshold: int, now: int)
    ensures
        spec_sweep(spec_sweep(s, threshold, now), threshold, now) == spec_sweep(s, threshold, now),
{
    let pred = |e: EntryModel| live_at(e, threshold, now);
    let once = s.filter(pred);
    assert forall|i: int| 0 <= i < once.len() implies pred(#[trigger] once[i]) by {
        s.lemma_filter_pred(pred, i);
    }
    lemma_filter_all(once, pred);
}

/// Registrations of distinct names commute: the store depends on what was
/// registered, not on the order of the calls.
pub proof fn lemma_register_commutes(s: Seq<EntryModel>, e1: EntryModel, e2: EntryModel)
    requires
        entries_sorted(s),
        e1.name != e2.name,
    ensures
        spec_register(spec_register(s, e1), e2) == spec_register(spec_register(s, e2), e1),
{
    let a = spec_register(spec_register(s, e1), e2);
    let b = spec_register(spec_register(s, e2), e1);
    lemma_register_sorted(s, e1);
    lemma_register_sorted(s, e2);
    lemma_register_sorted(spec_register(s, e1), e2);
    lemma_register_sorted(spec_register(s, e2), e1);
    assert forall|n: Seq<char>| lookup(a, n) == lookup(b, n) by {
        lemma_lookup_register(s, e1, n);
        lemma_lookup_register(s, e2, n);
        lemma_lookup_register(spec_register(s, e1), e2, n);
        lemma_lookup_register(spec_register(s, e2), e1, n);
    }
    lemma_sorted_lookup_determines(a, b);
}

} // verus!
