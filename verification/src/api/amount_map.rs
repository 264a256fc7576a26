//! A map from field-element addresses to token amounts, held as an
//! association list sorted strictly ascending by address value. The sorted
//! order doubles as the leaf order of the Merkle tree built from a snapshot.

use vstd::prelude::*;

use crate::api::field::FieldElement;
use crate::api::field::lemma_felt_val_order;

verus! {

/// Keys are canonical field elements in strictly ascending value order.
pub open spec fn entries_wf(s: Seq<(FieldElement, u128)>) -> bool {
    &&& forall|i: int| 0 <= i < s.len() ==> (#[trigger] s[i]).0.wf()
    &&& forall|i: int, j: int| 0 <= i < j < s.len() ==> s[i].0@ < s[j].0@
}

pub open spec fn contains_addr(s: Seq<(FieldElement, u128)>, a: int) -> bool {
    exists|i: int| 0 <= i < s.len() && s[i].0@ == a
}

/// The amount stored under an address, zero when the address is absent.
pub open spec fn lookup(s: Seq<(FieldElement, u128)>, a: int) -> u128 {
    if contains_addr(s, a) {
        s[choose|i: int| 0 <= i < s.len() && s[i].0@ == a].1
    } else {
        0
    }
}

/// The sum of all stored amounts.
pub open spec fn sum_values(s: Seq<(FieldElement, u128)>) -> int
    decreases s.len(),
{
    if s.len() == 0 {
        0
    } else {
        sum_values(s.drop_last()) + s.last().1
    }
}

/// In a well-formed list the entry at an index is what lookup finds.
pub proof fn lemma_lookup_at(s: Seq<(FieldElement, u128)>, i: int)
    requires
        entries_wf(s),
        0 <= i < s.len(),
    ensures
        contains_addr(s, s[i].0@),
        lookup(s, s[i].0@) == s[i].1,
{
    let a = s[i].0@;
    assert(contains_addr(s, a));
    let k = choose|k: int| 0 <= k < s.len() && s[k].0@ == a;
    if k != i {
        if k < i {
            assert(s[k].0@ < s[i].0@);
        } else {
            assert(s[i].0@ < s[k].0@);
        }
    }
}

pub proof fn lemma_sum_nonneg(s: Seq<(FieldElement, u128)>)
    ensures
        sum_values(s) >= 0,
    decreases s.len(),
{
    if s.len() > 0 {
        lemma_sum_nonneg(s.drop_last());
    }
}

proof fn lemma_sum_update(s: Seq<(FieldElement, u128)>, i: int, e: (FieldElement, u128))
    requires
        0 <= i < s.len(),
    ensures
        sum_values(s.update(i, e)) == sum_values(s) - s[i].1 + e.1,
    decreases s.len(),
{
    let t = s.update(i, e);
    if i == s.len() - 1 {
        assert(t.drop_last() =~= s.drop_last());
    } else {
        assert(t.drop_last() =~= s.drop_last().update(i, e));
        lemma_sum_update(s.drop_last(), i, e);
        assert(t.last() == s.last());
    }
}

proof fn lemma_sum_insert(s: Seq<(FieldElement, u128)>, i: int, e: (FieldElement, u128))
    requires
        0 <= i <= s.len(),
    ensures
        sum_values(s.insert(i, e)) == sum_values(s) + e.1,
    decreases s.len(),
{
    let t = s.insert(i, e);
    if i == s.len() {
        assert(t.drop_last() =~= s);
        assert(t.last() == e);
    } else {
        assert(t.drop_last() =~= s.drop_last().insert(i, e));
        lemma_sum_insert(s.drop_last(), i, e);
        assert(t.last() == s.last());
    }
}

/// A sorted address-to-amount map.
pub struct AmountMap {
    pub entries: Vec<(FieldElement, u128)>,
}

impl AmountMap {
    pub open spec fn wf(self) -> bool {
        entries_wf(self.entries@)
    }

    pub open spec fn spec_contains(self, a: int) -> bool {
        contains_addr(self.entries@, a)
    }

    pub open spec fn spec_get(self, a: int) -> u128 {
        lookup(self.entries@, a)
    }

    pub open spec fn spec_sum(self) -> int {
        sum_values(self.entries@)
    }

    pub fn new() -> (r: AmountMap)
        ensures
            r.wf(),
            r.entries@.len() == 0,
            forall|a: int| !r.spec_contains(a) && r.spec_get(a) == 0,
            r.spec_sum() == 0,
    {
        AmountMap { entries: Vec::new() }
    }

    /// Add an amount to an address, inserting the address if absent.
    pub fn upsert_add(&mut self, address: FieldElement, amount: u128)
        requires
            old(self).wf(),
            address.wf(),
            old(self).spec_get(address@) + amount <= u128::MAX,
        ensures
            final(self).wf(),
            forall|a: int|
                final(self).spec_contains(a) <==> (old(self).spec_contains(a) || a == address@),
            final(self).spec_get(address@) == old(self).spec_get(address@) + amount,
            forall|a: int| a != address@ ==> final(self).spec_get(a) == old(self).spec_get(a),
            final(self).spec_sum() == old(self).spec_sum() + amount,
    {
        let ghost s0 = self.entries@;
        let mut i: usize = 0;
        while i < self.entries.len() && self.entries[i].0.lt(&address)
            invariant
                self.entries@ == s0,
                entries_wf(s0),
                0 <= i <= s0.len(),
                forall|j: int| 0 <= j < i ==> s0[j].0@ < address@,
            decreases s0.len() - i,
        {
            i += 1;
        }
        proof {
            if i < s0.len() {
                lemma_felt_val_order(s0[i as int].0, address);
            }
        }
        if i < self.entries.len() && self.entries[i].0 == address {
            proof {
                lemma_felt_val_order(s0[i as int].0, address);
            }
            let cur = self.entries[i].1;
            let e = (address, cur + amount);
            self.entries.remove(i);
            self.entries.insert(i, e);
            proof {
                assert(self.entries@ =~= s0.update(i as int, e));
                let t = self.entries@;
                assert(forall|j: int| 0 <= j < t.len() ==> (#[trigger] t[j]).0 == s0[j].0);
                assert(entries_wf(t));
                lemma_lookup_at(s0, i as int);
                lemma_lookup_at(t, i as int);
                assert forall|a: int| a != address@ implies lookup(t, a) == lookup(s0, a) by {
                    lemma_lookup_same_keys(s0, t, a);
                }
                assert forall|a: int|
                    contains_addr(t, a) <==> (contains_addr(s0, a) || a == address@) by {
                    if contains_addr(t, a) {
                        let k = choose|k: int| 0 <= k < t.len() && t[k].0@ == a;
                        assert(s0[k].0@ == a);
                    }
                    if contains_addr(s0, a) {
                        let k = choose|k: int| 0 <= k < s0.len() && s0[k].0@ == a;
                        assert(t[k].0@ == a);
                    }
                    if a == address@ {
                        assert(t[i as int].0@ == a);
                    }
                }
                lemma_sum_update(s0, i as int, e);
            }
        } else {
            let e = (address, amount);
            self.entries.insert(i, e);
            proof {
                let t = self.entries@;
                assert(t =~= s0.insert(i as int, e));
                let ii = i as int;
                // the new key falls strictly between its neighbours
                if ii < s0.len() {
                    lemma_felt_val_order(s0[ii].0, address);
                    assert(s0[ii].0@ > address@);
                }
                assert forall|x: int, y: int| 0 <= x < y < t.len() implies t[x].0@ < t[y].0@ by {
                    if x < ii && y > ii {
                        assert(t[x] == s0[x] && t[y] == s0[y - 1]);
                    }
                }
                assert(entries_wf(t));
                lemma_lookup_at(t, ii);
                assert(!contains_addr(s0, address@));
                assert(lookup(s0, address@) == 0);
                assert forall|a: int| a != address@ implies lookup(t, a) == lookup(s0, a) by {
                    lemma_lookup_shift(s0, t, ii, a);
                }
                assert forall|a: int|
                    contains_addr(t, a) <==> (contains_addr(s0, a) || a == address@) by {
                    if contains_addr(t, a) {
                        let k = choose|k: int| 0 <= k < t.len() && t[k].0@ == a;
                        if k < ii {
                            assert(s0[k].0@ == a);
                        } else if k > ii {
                            assert(s0[k - 1].0@ == a);
                        }
                    }
                    if contains_addr(s0, a) {
                        let k = choose|k: int| 0 <= k < s0.len() && s0[k].0@ == a;
                        if k < ii {
                            assert(t[k].0@ == a);
                        } else {
                            assert(t[k + 1].0@ == a);
                        }
                    }
                }
                lemma_sum_insert(s0, ii, e);
            }
        }
    }

    /// The stored amount, zero when the address has no entry.
    pub fn get(&self, address: &FieldElement) -> (r: u128)
        requires
            self.wf(),
        ensures
            r == self.spec_get(address@),
    {
        let ghost s = self.entries@;
        let mut i: usize = 0;
        while i < self.entries.len()
            invariant
                self.entries@ == s,
                entries_wf(s),
                0 <= i <= s.len(),
                forall|j: int| 0 <= j < i ==> s[j].0@ != address@,
            decreases s.len() - i,
        {
            if self.entries[i].0 == *address {
                proof {
                    lemma_felt_val_order(s[i as int].0, *address);
                    lemma_lookup_at(s, i as int);
                }
                return self.entries[i].1;
            }
            proof {
                lemma_felt_val_order(s[i as int].0, *address);
            }
            i += 1;
        }
        proof {
            assert(!contains_addr(s, address@));
        }
        0
    }

    /// The sum of all stored amounts.
    pub fn total(&self) -> (r: u128)
        requires
            sum_values(self.entries@) <= u128::MAX,
        ensures
            r == self.spec_sum(),
    {
        let ghost s = self.entries@;
        let mut acc: u128 = 0;
        let mut i: usize = 0;
        while i < self.entries.len()
            invariant
                self.entries@ == s,
                sum_values(s) <= u128::MAX,
                0 <= i <= s.len(),
                acc == sum_values(s.take(i as int)),
            decreases s.len() - i,
        {
            proof {
                lemma_sum_take_step(s, i as int);
                lemma_sum_take_le(s, i + 1);
            }
            acc = acc + self.entries[i].1;
            i += 1;
        }
        proof {
            assert(s.take(s.len() as int) =~= s);
        }
        acc
    }

    pub fn len(&self) -> (r: usize)
        ensures
            r == self.entries@.len(),
    {
        self.entries.len()
    }

    /// An identical copy.
    pub fn duplicate(&self) -> (r: AmountMap)
        ensures
            r.entries@ == self.entries@,
    {
        let mut v: Vec<(FieldElement, u128)> = Vec::new();
        let mut i: usize = 0;
        while i < self.entries.len()
            invariant
                0 <= i <= self.entries@.len(),
                v@ == self.entries@.take(i as int),
            decreases self.entries@.len() - i,
        {
            v.push(self.entries[i]);
            proof {
                assert(v@ =~= self.entries@.take(i + 1 as int));
            }
            i += 1;
        }
        proof {
            assert(v@ =~= self.entries@);
        }
        AmountMap { entries: v }
    }
}

pub proof fn lemma_sum_take_step(s: Seq<(FieldElement, u128)>, i: int)
    requires
        0 <= i < s.len(),
    ensures
        sum_values(s.take(i + 1)) == sum_values(s.take(i)) + s[i].1,
{
    assert(s.take(i + 1).drop_last() =~= s.take(i));
    assert(s.take(i + 1).last() == s[i]);
}

/// A prefix sum never exceeds the whole: amounts are unsigned.
pub proof fn lemma_sum_take_le(s: Seq<(FieldElement, u128)>, i: int)
    requires
        0 <= i <= s.len(),
    ensures
        sum_values(s.take(i)) <= sum_values(s),
        sum_values(s.take(i)) >= 0,
    decreases s.len() - i,
{
    lemma_sum_nonneg(s.take(i));
    if i == s.len() {
        assert(s.take(i) =~= s);
    } else {
        lemma_sum_take_step(s, i);
        lemma_sum_take_le(s, i + 1);
    }
}

/// Lookup agrees on two lists whose keys match position for position.
proof fn lemma_lookup_same_keys(s: Seq<(FieldElement, u128)>, t: Seq<(FieldElement, u128)>, a: int)
    requires
        s.len() == t.len(),
        forall|j: int| 0 <= j < s.len() ==> (#[trigger] s[j]).0 == t[j].0,
        entries_wf(s),
        entries_wf(t),
        forall|j: int| 0 <= j < s.len() ==> (#[trigger] s[j]).0@ != a || s[j].1 == t[j].1,
    ensures
        lookup(t, a) == lookup(s, a),
{
    if contains_addr(s, a) {
        let k = choose|k: int| 0 <= k < s.len() && s[k].0@ == a;
        lemma_lookup_at(s, k);
        lemma_lookup_at(t, k);
    } else {
        assert(!contains_addr(t, a)) by {
            if contains_addr(t, a) {
                let k = choose|k: int| 0 <= k < t.len() && t[k].0@ == a;
                assert(s[k].0@ == a);
            }
        }
    }
}

/// Lookup of any other address is unchanged by inserting one entry.
proof fn lemma_lookup_shift(
    s: Seq<(FieldElement, u128)>,
    t: Seq<(FieldElement, u128)>,
    i: int,
    a: int,
)
    requires
        0 <= i <= s.len(),
        t =~= s.insert(i, t[i]),
        t[i].0@ != a,
        entries_wf(s),
        entries_wf(t),
    ensures
        lookup(t, a) == lookup(s, a),
{
    if contains_addr(s, a) {
        let k = choose|k: int| 0 <= k < s.len() && s[k].0@ == a;
        lemma_lookup_at(s, k);
        if k < i {
            assert(t[k].0@ == a);
            lemma_lookup_at(t, k);
        } else {
            assert(t[k + 1].0@ == a);
            lemma_lookup_at(t, k + 1);
        }
    } else {
        assert(!contains_addr(t, a)) by {
            if contains_addr(t, a) {
                let k = choose|k: int| 0 <= k < t.len() && t[k].0@ == a;
                if k < i {
                    assert(s[k].0@ == a);
                } else if k > i {
                    assert(s[k - 1].0@ == a);
                }
            }
        }
    }
}

} // verus!
