//! Automatic widget identifiers.  Within a frame, widgets that would get the same
//! identifier are told apart by a counter: the first keeps the plain identifier,
//! later ones get the counter appended (`button`, `button1`, `button2`, ...).

use vstd::prelude::*;

use crate::text::{decimal, lemma_decimal_injective, lemma_decimal_nonempty, push_decimal};

verus! {

/// How many times each identifier has been generated.
pub open spec fn count_of(entries: Seq<(Seq<char>, u32)>, id: Seq<char>) -> nat {
    if exists|i: int| 0 <= i < entries.len() && entries[i].0 == id {
        entries[choose|i: int| 0 <= i < entries.len() && entries[i].0 == id].1 as nat
    } else {
        0
    }
}

/// The identifier generated for the `n`th use (counting from 0) of `id`.
pub open spec fn generated(id: Seq<char>, n: nat) -> Seq<char> {
    if n == 0 {
        id
    } else {
        id + decimal(n)
    }
}

pub open spec fn distinct_ids(entries: Seq<(Seq<char>, u32)>) -> bool {
    forall|i: int, j: int| 0 <= i < entries.len() && 0 <= j < entries.len() && i != j
        ==> entries[i].0 != entries[j].0
}

/// The counters of a frame's generated identifiers.
pub struct IdGenerator {
    entries: Vec<(String, u32)>,
}

impl View for IdGenerator {
    type V = Seq<(Seq<char>, u32)>;

    closed spec fn view(&self) -> Seq<(Seq<char>, u32)> {
        self.entries@.map_values(|e: (String, u32)| (e.0@, e.1))
    }
}

impl IdGenerator {
    #[verifier::type_invariant]
    spec fn inv(self) -> bool {
        distinct_ids(self@)
    }

    /// How many times `id` has been generated so far.
    pub open spec fn count(&self, id: Seq<char>) -> nat {
        count_of(self@, id)
    }

    /// A generator for which no identifier has been generated yet.
    pub fn new() -> (g: IdGenerator)
        ensures
            forall|id: Seq<char>| g.count(id) == 0,
    {
        let g = IdGenerator { entries: Vec::new() };
        proof {
            assert(g@ =~= Seq::<(Seq<char>, u32)>::empty());
        }
        g
    }

    /// Returns the identifier for this use of `id`: `id` itself the first time, and
    /// `id` followed by the number of earlier uses afterwards.
    pub fn generate_id(&mut self, id: String) -> (out: String)
        requires
            old(self).count(id@) < u32::MAX,
        ensures
            out@ == generated(id@, old(self).count(id@)),
            final(self).count(id@) == old(self).count(id@) + 1,
            forall|other: Seq<char>| other != id@ ==> final(self).count(other) == old(self).count(other),
    {
        proof {
            use_type_invariant(&*self);
        }
        let ghost before = self@;
        let mut i: usize = 0;
        while i < self.entries.len()
            invariant
                i <= before.len(),
                self@ == before,
                before == old(self)@,
                distinct_ids(before),
                count_of(before, id@) < u32::MAX,
                self.entries@.len() == before.len(),
                forall|j: int| 0 <= j < i ==> before[j].0 != id@,
            decreases before.len() - i,
        {
            if self.entries[i].0 == id {
                let index = self.entries[i].1;
                proof {
                    assert(before[i as int].0 == id@);
                    assert(exists|k: int| 0 <= k < before.len() && before[k].0 == id@);
                    let c = choose|k: int| 0 <= k < before.len() && before[k].0 == id@;
                    assert(c == i);
                }
                let mut out = id.clone();
                if index > 0 {
                    push_decimal(&mut out, index as u64);
                }
                let mut entries: Vec<(String, u32)> = Vec::new();
                std::mem::swap(&mut entries, &mut self.entries);
                let (key, _) = entries.remove(i);
                entries.insert(i, (key, index + 1));
                proof {
                    let after = entries@.map_values(|e: (String, u32)| (e.0@, e.1));
                    assert(after =~= before.update(i as int, (id@, (index + 1) as u32)));
                    lemma_count_update(before, i as int, (index + 1) as u32);
                    assert(before[i as int].0 == id@);
                    assert(exists|k: int| 0 <= k < before.len() && before[k].0 == id@);
                    let c = choose|k: int| 0 <= k < before.len() && before[k].0 == id@;
                    assert(c == i);
                    assert(count_of(before, id@) == index);
                }
                self.entries = entries;
                return out;
            }
            i = i + 1;
        }
        let out = id.clone();
        let mut entries: Vec<(String, u32)> = Vec::new();
        std::mem::swap(&mut entries, &mut self.entries);
        entries.push((id, 1));
        proof {
            let after = entries@.map_values(|e: (String, u32)| (e.0@, e.1));
            assert(after =~= before.push((id@, 1u32)));
            assert(count_of(before, id@) == 0);
            lemma_count_push(before, id@, 1u32);
        }
        self.entries = entries;
        out
    }
}

proof fn lemma_count_update(entries: Seq<(Seq<char>, u32)>, i: int, n: u32)
    requires
        distinct_ids(entries),
        0 <= i < entries.len(),
    ensures
        distinct_ids(entries.update(i, (entries[i].0, n))),
        count_of(entries.update(i, (entries[i].0, n)), entries[i].0) == n,
        forall|other: Seq<char>| other != entries[i].0 ==> count_of(entries.update(i, (entries[i].0, n)), other)
            == count_of(entries, other),
{
    let after = entries.update(i, (entries[i].0, n));
    let key = entries[i].0;
    assert(after[i].0 == key);
    assert(exists|k: int| 0 <= k < after.len() && after[k].0 == key);
    assert forall|other: Seq<char>| other != key implies count_of(after, other) == count_of(entries, other) by {
        assert forall|k: int| 0 <= k < after.len() implies (after[k].0 == other <==> entries[k].0 == other) by {
            if k == i {
            } else {
                assert(after[k] == entries[k]);
            }
        }
        if exists|k: int| 0 <= k < entries.len() && entries[k].0 == other {
            let c1 = choose|k: int| 0 <= k < after.len() && after[k].0 == other;
            let c2 = choose|k: int| 0 <= k < entries.len() && entries[k].0 == other;
            assert(c1 != i);
            assert(c1 == c2);
        }
    }
}

proof fn lemma_count_push(entries: Seq<(Seq<char>, u32)>, id: Seq<char>, n: u32)
    requires
        distinct_ids(entries),
        count_of(entries, id) == 0,
        forall|k: int| 0 <= k < entries.len() ==> entries[k].0 != id,
    ensures
        distinct_ids(entries.push((id, n))),
        count_of(entries.push((id, n)), id) == n,
        forall|other: Seq<char>| other != id ==> count_of(entries.push((id, n)), other) == count_of(entries, other),
{
    let after = entries.push((id, n));
    assert(after[entries.len() as int].0 == id);
    assert(exists|k: int| 0 <= k < after.len() && after[k].0 == id);
    assert forall|other: Seq<char>| other != id implies count_of(after, other) == count_of(entries, other) by {
        if exists|k: int| 0 <= k < entries.len() && entries[k].0 == other {
            let c2 = choose|k: int| 0 <= k < entries.len() && entries[k].0 == other;
            assert(after[c2].0 == other);
            let c1 = choose|k: int| 0 <= k < after.len() && after[k].0 == other;
            assert(c1 < entries.len());
            assert(c1 == c2);
        } else {
            assert forall|k: int| 0 <= k < after.len() implies after[k].0 != other by {
                if k < entries.len() {
                    assert(after[k] == entries[k]);
                }
            }
        }
    }
}

/// Identifiers generated from the same identifier never repeat: the `n`th and `m`th
/// uses of an identifier get different results whenever `n != m`.
pub proof fn lemma_generated_ids_distinct(id: Seq<char>, n: nat, m: nat)
    requires
        n != m,
    ensures
        generated(id, n) != generated(id, m),
{
    if n > 0 && m > 0 {
        if generated(id, n) == generated(id, m) {
            assert((id + decimal(n)).subrange(id.len() as int, (id + decimal(n)).len() as int) =~= decimal(n));
            assert((id + decimal(m)).subrange(id.len() as int, (id + decimal(m)).len() as int) =~= decimal(m));
            lemma_decimal_injective(n, m);
        }
    } else if n > 0 {
        lemma_decimal_nonempty(n);
        assert(generated(id, n).len() > id.len());
    } else {
        lemma_decimal_nonempty(m);
        assert(generated(id, m).len() > id.len());
    }
}

} // verus!
