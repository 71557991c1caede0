//! The unspent outputs, found by hash; each one is marked where a pending
//! transaction spends it.

use crate::types::transaction::{TransactionOutput, TransactionOutputView};
use vstd::prelude::*;

verus! {

/// One unspent output: the hash it is known by, whether a pending
/// transaction spends it, and the output.
pub type Entry = (crate::sha256::Hash, bool, TransactionOutput);

/// No two entries have the same hash.
pub open spec fn distinct_keys(entries: Seq<Entry>) -> bool {
    forall|i: int, j: int|
        0 <= i < j < entries.len() ==> (#[trigger] entries[i]).0@ != (#[trigger] entries[j]).0@
}

/// Whether some entry has the hash `key`.
pub open spec fn has_key(entries: Seq<Entry>, key: nat) -> bool {
    exists|i: int| 0 <= i < entries.len() && (#[trigger] entries[i]).0@ == key
}

/// The place of an entry with the hash `key`.
pub open spec fn place_of(entries: Seq<Entry>, key: nat) -> int {
    choose|i: int| 0 <= i < entries.len() && (#[trigger] entries[i]).0@ == key
}

/// The entries as a map from hash to mark and output.
pub open spec fn entries_map(entries: Seq<Entry>) -> Map<nat, (bool, TransactionOutputView)> {
    Map::new(
        |key: nat| has_key(entries, key),
        |key: nat| (entries[place_of(entries, key)].1, entries[place_of(entries, key)].2@),
    )
}

proof fn lemma_entry_found(entries: Seq<Entry>, i: int)
    requires
        distinct_keys(entries),
        0 <= i < entries.len(),
    ensures
        has_key(entries, entries[i].0@),
        place_of(entries, entries[i].0@) == i,
        entries_map(entries).contains_key(entries[i].0@),
        entries_map(entries)[entries[i].0@] == (entries[i].1, entries[i].2@),
{
    let key = entries[i].0@;
    assert(0 <= i < entries.len() && entries[i].0@ == key);
    let p = place_of(entries, key);
    if p < i {
        assert(entries[p].0@ != entries[i].0@);
    } else if i < p {
        assert(entries[i].0@ != entries[p].0@);
    }
}

#[verifier::rlimit(30)]
proof fn lemma_push(entries: Seq<Entry>, entry: Entry)
    requires
        distinct_keys(entries),
        !has_key(entries, entry.0@),
    ensures
        distinct_keys(entries.push(entry)),
        entries_map(entries.push(entry)) == entries_map(entries).insert(
            entry.0@,
            (entry.1, entry.2@),
        ),
{
    let longer = entries.push(entry);
    assert forall|i: int, j: int| 0 <= i < j < longer.len() implies (#[trigger] longer[i]).0@ != (
    #[trigger] longer[j]).0@ by {
        if j == entries.len() {
            assert(longer[i] == entries[i]);
            if entries[i].0@ == entry.0@ {
                assert(has_key(entries, entry.0@));
            }
        } else {
            assert(longer[i] == entries[i] && longer[j] == entries[j]);
        }
    }
    let target = entries_map(entries).insert(entry.0@, (entry.1, entry.2@));
    assert forall|key: nat| #[trigger]
        entries_map(longer).contains_key(key) == target.contains_key(key) by {
        if has_key(longer, key) {
            let p = place_of(longer, key);
            if p < entries.len() {
                assert(entries[p] == longer[p]);
                assert(has_key(entries, key));
            }
        }
        if has_key(entries, key) {
            let p = place_of(entries, key);
            assert(longer[p] == entries[p]);
            assert(has_key(longer, key));
        }
        if key == entry.0@ {
            assert(longer[entries.len() as int] == entry);
            assert(has_key(longer, key));
        }
    }
    assert forall|key: nat| #[trigger] entries_map(longer).contains_key(key) implies entries_map(
        longer,
    )[key] == target[key] by {
        let p = place_of(longer, key);
        lemma_entry_found(longer, p);
        if p < entries.len() {
            assert(entries[p] == longer[p]);
            lemma_entry_found(entries, p);
        } else {
            assert(longer[p] == entry);
        }
    }
    assert(entries_map(longer) =~= target);
}

#[verifier::rlimit(30)]
proof fn lemma_replace(entries: Seq<Entry>, i: int, entry: Entry)
    requires
        distinct_keys(entries),
        0 <= i < entries.len(),
        entry.0@ == entries[i].0@,
    ensures
        distinct_keys(entries.update(i, entry)),
        entries_map(entries.update(i, entry)) == entries_map(entries).insert(
            entry.0@,
            (entry.1, entry.2@),
        ),
{
    let changed = entries.update(i, entry);
    assert forall|a: int, b: int| 0 <= a < b < changed.len() implies (#[trigger] changed[a]).0@ != (
    #[trigger] changed[b]).0@ by {
        assert(changed[a].0@ == entries[a].0@);
        assert(changed[b].0@ == entries[b].0@);
    }
    let target = entries_map(entries).insert(entry.0@, (entry.1, entry.2@));
    assert forall|key: nat| #[trigger]
        entries_map(changed).contains_key(key) == target.contains_key(key) by {
        if has_key(changed, key) {
            let p = place_of(changed, key);
            assert(entries[p].0@ == key);
            assert(has_key(entries, key));
        }
        if has_key(entries, key) {
            let p = place_of(entries, key);
            assert(changed[p].0@ == key);
            assert(has_key(changed, key));
        }
        if key == entry.0@ {
            assert(changed[i].0@ == key);
            assert(has_key(changed, key));
        }
    }
    assert forall|key: nat| #[trigger] entries_map(changed).contains_key(key) implies entries_map(
        changed,
    )[key] == target[key] by {
        let p = place_of(changed, key);
        lemma_entry_found(changed, p);
        if p != i {
            assert(entries[p] == changed[p]);
            lemma_entry_found(entries, p);
        }
    }
    assert(entries_map(changed) =~= target);
}

#[verifier::rlimit(30)]
proof fn lemma_remove(entries: Seq<Entry>, i: int)
    requires
        distinct_keys(entries),
        0 <= i < entries.len(),
    ensures
        distinct_keys(entries.remove(i)),
        entries_map(entries.remove(i)) == entries_map(entries).remove(entries[i].0@),
{
    let shorter = entries.remove(i);
    assert forall|a: int, b: int| 0 <= a < b < shorter.len() implies (#[trigger] shorter[a]).0@ != (
    #[trigger] shorter[b]).0@ by {
        let a0 = if a < i { a } else { a + 1 };
        let b0 = if b < i { b } else { b + 1 };
        assert(shorter[a] == entries[a0]);
        assert(shorter[b] == entries[b0]);
        assert(entries[a0].0@ != entries[b0].0@);
    }
    let gone = entries[i].0@;
    let target = entries_map(entries).remove(gone);
    assert forall|key: nat| #[trigger]
        entries_map(shorter).contains_key(key) == target.contains_key(key) by {
        if has_key(shorter, key) {
            let p = place_of(shorter, key);
            let earlier = if p < i { p } else { p + 1 };
            assert(shorter[p] == entries[earlier]);
            assert(has_key(entries, key));
            if key == gone {
                lemma_entry_found(entries, earlier);
                lemma_entry_found(entries, i);
            }
        }
        if has_key(entries, key) && key != gone {
            let p = place_of(entries, key);
            let q = if p < i { p } else { p - 1 };
            assert(shorter[q] == entries[p]);
            assert(has_key(shorter, key));
        }
    }
    assert forall|key: nat| #[trigger] entries_map(shorter).contains_key(key) implies entries_map(
        shorter,
    )[key] == target[key] by {
        let p = place_of(shorter, key);
        lemma_entry_found(shorter, p);
        let earlier = if p < i { p } else { p + 1 };
        assert(shorter[p] == entries[earlier]);
        lemma_entry_found(entries, earlier);
    }
    assert(entries_map(shorter) =~= target);
}

fn find(entries: &Vec<Entry>, key: &crate::sha256::Hash) -> (r: Option<usize>)
    ensures
        match r {
            Some(i) => i < entries@.len() && entries@[i as int].0@ == key@,
            None => !has_key(entries@, key@),
        },
{
    let mut i: usize = 0;
    while i < entries.len()
        invariant
            i <= entries.len(),
            forall|k: int| 0 <= k < i ==> (#[trigger] entries@[k]).0@ != key@,
        decreases entries.len() - i,
    {
        if entries[i].0 == *key {
            return Some(i);
        }
        proof {
            if entries@[i as int].0@ == key@ {
                crate::u256::lemma_view_injective(entries@[i as int].0.0, key.0);
            }
        }
        i = i + 1;
    }
    None
}

/// The set of unspent outputs.
#[derive(Debug)]
pub struct UtxoSet {
    entries: Vec<Entry>,
}

impl View for UtxoSet {
    type V = Map<nat, (bool, TransactionOutputView)>;

    closed spec fn view(&self) -> Map<nat, (bool, TransactionOutputView)> {
        entries_map(self.entries@)
    }
}

impl UtxoSet {
    #[verifier::type_invariant]
    pub closed spec fn wf(self) -> bool {
        distinct_keys(self.entries@)
    }

    /// The set without any output.
    pub fn new() -> (r: UtxoSet)
        ensures
            r@ == Map::<nat, (bool, TransactionOutputView)>::empty(),
            r.listing() == Seq::<(nat, bool, TransactionOutputView)>::empty(),
    {
        let r = UtxoSet { entries: Vec::new() };
        assert(r@ =~= Map::<nat, (bool, TransactionOutputView)>::empty());
        assert(r.listing() =~= Seq::<(nat, bool, TransactionOutputView)>::empty());
        r
    }

    /// The map that a listing stands for.
    pub open spec fn map_of(listing: Seq<(nat, bool, TransactionOutputView)>) -> Map<
        nat,
        (bool, TransactionOutputView),
    > {
        Map::new(
            |key: nat| exists|i: int| 0 <= i < listing.len() && (#[trigger] listing[i]).0 == key,
            |key: nat|
                {
                    let i = choose|i: int| 0 <= i < listing.len() && (#[trigger] listing[i]).0 == key;
                    (listing[i].1, listing[i].2)
                },
        )
    }

    /// The map is the one that the listing stands for.
    pub proof fn lemma_map_of(&self)
        requires
            self.wf(),
        ensures
            self@ == Self::map_of(self.listing()),
    {
        self.lemma_listing();
        let listing = self.listing();
        let m = Self::map_of(listing);
        assert forall|key: nat| self@.contains_key(key) == m.contains_key(key) by {
            if m.contains_key(key) {
                let i = choose|i: int| 0 <= i < listing.len() && (#[trigger] listing[i]).0 == key;
                assert(self@.contains_key(listing[i].0));
            }
        }
        assert forall|key: nat| self@.contains_key(key) implies self@[key] == m[key] by {
            let i = choose|i: int| 0 <= i < listing.len() && (#[trigger] listing[i]).0 == key;
            assert(self@[listing[i].0] == (listing[i].1, listing[i].2));
        }
        assert(self@ =~= m);
    }

    /// Whether an output is known by the hash `key`.
    pub fn contains_key(&self, key: &crate::sha256::Hash) -> (r: bool)
        ensures
            r == self@.contains_key(key@),
    {
        find(&self.entries, key).is_some()
    }

    /// The mark and the output known by the hash `key`.
    pub fn get(&self, key: &crate::sha256::Hash) -> (r: Option<(bool, &TransactionOutput)>)
        ensures
            match r {
                Some((reserved, output)) => self@.contains_key(key@) && self@[key@] == (
                    reserved,
                    output@,
                ),
                None => !self@.contains_key(key@),
            },
    {
        proof {
            use_type_invariant(self);
        }
        match find(&self.entries, key) {
            Some(i) => {
                proof {
                    lemma_entry_found(self.entries@, i as int);
                }
                Some((self.entries[i].1, &self.entries[i].2))
            },
            None => None,
        }
    }

    /// Makes `key` the hash of `output`, with the given mark, in place of
    /// what was known by that hash.
    pub fn insert(&mut self, key: crate::sha256::Hash, reserved: bool, output: TransactionOutput)
        ensures
            final(self)@ == old(self)@.insert(key@, (reserved, output@)),
            !old(self)@.contains_key(key@) ==> final(self).listing() == old(self).listing().push(
                (key@, reserved, output@),
            ),
    {
        proof {
            use_type_invariant(&*self);
        }
        let mut entries: Vec<Entry> = Vec::new();
        std::mem::swap(&mut entries, &mut self.entries);
        let ghost before = entries@;
        match find(&entries, &key) {
            Some(i) => {
                proof {
                    lemma_replace(before, i as int, (key, reserved, output));
                }
                entries.remove(i);
                entries.insert(i, (key, reserved, output));
                assert(entries@ =~= before.update(i as int, (key, reserved, output)));
            },
            None => {
                proof {
                    lemma_push(before, (key, reserved, output));
                    assert(before.push((key, reserved, output)).map_values(
                        |e: Entry| (e.0@, e.1, e.2@),
                    ) =~= before.map_values(|e: Entry| (e.0@, e.1, e.2@)).push(
                        (key@, reserved, output@),
                    ));
                }
                entries.push((key, reserved, output));
            },
        }
        self.entries = entries;
    }

    /// Forgets the output known by the hash `key`, if there is one.
    pub fn remove(&mut self, key: &crate::sha256::Hash)
        ensures
            final(self)@ == old(self)@.remove(key@),
    {
        proof {
            use_type_invariant(&*self);
        }
        let mut entries: Vec<Entry> = Vec::new();
        std::mem::swap(&mut entries, &mut self.entries);
        let ghost before = entries@;
        match find(&entries, key) {
            Some(i) => {
                proof {
                    lemma_remove(before, i as int);
                }
                entries.remove(i);
            },
            None => {
                assert(entries_map(before) =~= entries_map(before).remove(key@));
            },
        }
        self.entries = entries;
    }

    /// Sets the mark of the output known by the hash `key`, if there is one.
    pub fn set_reserved(&mut self, key: &crate::sha256::Hash, reserved: bool)
        ensures
            final(self)@ == if old(self)@.contains_key(key@) {
                old(self)@.insert(key@, (reserved, old(self)@[key@].1))
            } else {
                old(self)@
            },
    {
        proof {
            use_type_invariant(&*self);
        }
        let mut entries: Vec<Entry> = Vec::new();
        std::mem::swap(&mut entries, &mut self.entries);
        let ghost before = entries@;
        match find(&entries, key) {
            Some(i) => {
                let (hash, _, output) = entries.remove(i);
                proof {
                    lemma_entry_found(before, i as int);
                    lemma_replace(before, i as int, (hash, reserved, output));
                }
                entries.insert(i, (hash, reserved, output));
                assert(entries@ =~= before.update(i as int, (hash, reserved, output)));
            },
            None => {},
        }
        self.entries = entries;
    }

    /// The number of outputs.
    pub fn len(&self) -> (r: usize)
        ensures
            r == self@.len(),
            r == self.listing().len(),
            self@.dom().finite(),
    {
        proof {
            use_type_invariant(self);
            lemma_count(self.entries@);
        }
        self.entries.len()
    }

    /// The outputs one after the other, each with its hash and its mark.
    pub closed spec fn listing(&self) -> Seq<(nat, bool, TransactionOutputView)> {
        self.entries@.map_values(|e: Entry| (e.0@, e.1, e.2@))
    }

    /// The listing holds what the map holds, each output once.
    pub proof fn lemma_listing(&self)
        requires
            self.wf(),
        ensures
            forall|i: int|
                0 <= i < self.listing().len() ==> self@.contains_key(
                    (#[trigger] self.listing()[i]).0,
                ) && self@[self.listing()[i].0] == (self.listing()[i].1, self.listing()[i].2),
            forall|key: nat|
                self@.contains_key(key) ==> exists|i: int|
                    0 <= i < self.listing().len() && (#[trigger] self.listing()[i]).0 == key,
            forall|i: int, j: int|
                0 <= i < j < self.listing().len() ==> (#[trigger] self.listing()[i]).0 != (
                #[trigger] self.listing()[j]).0,
    {
        let entries = self.entries@;
        assert forall|i: int| 0 <= i < self.listing().len() implies self@.contains_key(
            (#[trigger] self.listing()[i]).0,
        ) && self@[self.listing()[i].0] == (self.listing()[i].1, self.listing()[i].2) by {
            lemma_entry_found(entries, i);
        }
        assert forall|key: nat| self@.contains_key(key) implies exists|i: int|
            0 <= i < self.listing().len() && (#[trigger] self.listing()[i]).0 == key by {
            let p = place_of(entries, key);
            assert(self.listing()[p].0 == key);
        }
        assert forall|i: int, j: int| 0 <= i < j < self.listing().len() implies (
        #[trigger] self.listing()[i]).0 != (#[trigger] self.listing()[j]).0 by {
            assert(entries[i].0@ != entries[j].0@);
        }
    }

    /// The output at place `i` of the listing, with its hash and its mark.
    pub fn entry(&self, i: usize) -> (r: (crate::sha256::Hash, bool, &TransactionOutput))
        requires
            i < self.listing().len(),
        ensures
            (r.0@, r.1, r.2@) == self.listing()[i as int],
    {
        (self.entries[i].0, self.entries[i].1, &self.entries[i].2)
    }
}

/// Distinct entries make a map with as many keys as there are entries.
proof fn lemma_count(entries: Seq<Entry>)
    requires
        distinct_keys(entries),
    ensures
        entries_map(entries).dom().finite(),
        entries_map(entries).len() == entries.len(),
    decreases entries.len(),
{
    if entries.len() == 0 {
        assert(entries_map(entries) =~= Map::<nat, (bool, TransactionOutputView)>::empty());
    } else {
        let shorter = entries.drop_last();
        let last = entries.last();
        assert forall|i: int, j: int| 0 <= i < j < shorter.len() implies (#[trigger] shorter[i]).0@
            != (#[trigger] shorter[j]).0@ by {
            assert(shorter[i] == entries[i] && shorter[j] == entries[j]);
        }
        lemma_count(shorter);
        if has_key(shorter, last.0@) {
            let p = place_of(shorter, last.0@);
            assert(shorter[p] == entries[p]);
            assert(entries[p].0@ != entries[entries.len() - 1].0@);
        }
        lemma_push(shorter, last);
        assert(shorter.push(last) =~= entries);
    }
}

} // verus!
