use vstd::prelude::*;
use vstd::std_specs::iter::IteratorSpec;
use std::collections::HashMap;

use crate::math::expression::Number;
use crate::syllables::counter::NumberRepresentation;

verus! {

/// The best known way to say each number of a range.
pub struct OptimizedResult {
    pub inner: HashMap<Number, NumberRepresentation>,
}

/// The formats that results can be written in.
pub enum ExportType {
    Json,
}


/// Whether some entry of `entries` is for `k`.
pub open spec fn has_key(entries: Seq<(Number, NumberRepresentation)>, k: Number) -> bool {
    exists|i: int| 0 <= i < entries.len() && entries[i].0 == k
}

/// The keys of `entries` grow strictly.
pub open spec fn strictly_sorted(entries: Seq<(Number, NumberRepresentation)>) -> bool {
    forall|i: int, j: int| 0 <= i < j < entries.len() ==> entries[i].0 < entries[j].0
}

/// Inserts `(k, v)` where its key keeps the entries sorted.
fn insert_sorted(sorted: &mut Vec<(Number, NumberRepresentation)>, k: Number, v: NumberRepresentation)
    requires
        strictly_sorted(old(sorted)@),
        !has_key(old(sorted)@, k),
    ensures
        strictly_sorted(final(sorted)@),
        forall|key: Number| #[trigger]
            has_key(final(sorted)@, key) <==> (has_key(old(sorted)@, key) || key == k),
        forall|i: int|
            0 <= i < final(sorted)@.len() ==> #[trigger] final(sorted)@[i] == (k, v) || old(
                sorted,
            )@.contains(final(sorted)@[i]),
{
    let mut position: usize = 0;
    while position < sorted.len() && sorted[position].0 < k
        invariant
            position <= sorted@.len(),
            forall|i: int| 0 <= i < position ==> sorted@[i].0 < k,
        decreases sorted.len() - position,
    {
        position = position + 1;
    }
    let ghost before = sorted@;
    sorted.insert(position, (k, v));
    proof {
        assert forall|i: int| position <= i < before.len() implies before[i].0 > k by {
            assert(before[position as int].0 >= k);
            assert(before[position as int].0 != k);
        }
        assert forall|i: int, j: int| 0 <= i < j < sorted@.len() implies sorted@[i].0 < sorted@[j].0 by {
            if i < position {
                assert(sorted@[i] == before[i]);
            } else if i > position {
                assert(sorted@[i] == before[i - 1]);
            }
            if j < position {
                assert(sorted@[j] == before[j]);
            } else if j > position {
                assert(sorted@[j] == before[j - 1]);
            }
        }
        assert forall|key: Number| #[trigger]
            has_key(sorted@, key) <==> (has_key(before, key) || key == k) by {
            if has_key(sorted@, key) {
                let i = choose|i: int| 0 <= i < sorted@.len() && sorted@[i].0 == key;
                if i < position {
                    assert(sorted@[i] == before[i]);
                } else if i > position {
                    assert(sorted@[i] == before[i - 1]);
                }
            }
            if has_key(before, key) {
                let i = choose|i: int| 0 <= i < before.len() && before[i].0 == key;
                if i < position {
                    assert(sorted@[i] == before[i]);
                } else {
                    assert(sorted@[i + 1] == before[i]);
                }
            }
            if key == k {
                assert(sorted@[position as int].0 == k);
            }
        }
        assert forall|i: int| 0 <= i < sorted@.len() implies #[trigger] sorted@[i] == (k, v)
            || before.contains(sorted@[i]) by {
            if i < position {
                assert(sorted@[i] == before[i]);
            } else if i > position {
                assert(sorted@[i] == before[i - 1]);
            }
        }
    }
}

impl OptimizedResult {
    /// The entries ordered by the number they say, as they are written out.
    pub fn sorted_entries(&self) -> (r: Vec<(Number, NumberRepresentation)>)
        ensures
            strictly_sorted(r@),
            forall|i: int|
                0 <= i < r@.len() ==> self.inner@.contains_key(#[trigger] r@[i].0)
                    && r@[i].1@ == self.inner@[r@[i].0]@,
            forall|k: Number| #[trigger] self.inner@.contains_key(k) ==> has_key(r@, k),
    {
        let mut sorted: Vec<(Number, NumberRepresentation)> = Vec::new();
        let entries = self.inner.iter();
        let ghost s0 = entries.remaining();
        let ghost m = self.inner@;
        for kv in it: entries
            invariant
                it.seq() == s0,
                m == self.inner@,
                s0.no_duplicates(),
                forall|j: int| 0 <= j < s0.len() ==> m.contains_key(*s0[j].0) && *s0[j].1 == m[*s0[j].0],
                strictly_sorted(sorted@),
                forall|i: int|
                    0 <= i < sorted@.len() ==> m.contains_key(#[trigger] sorted@[i].0)
                        && sorted@[i].1@ == m[sorted@[i].0]@,
                forall|key: Number| #[trigger]
                    has_key(sorted@, key) <==> exists|j: int| 0 <= j < it.index() && *s0[j].0 == key,
        {
            let ghost n = it.index();
            assert(it.seq()[n] == kv);
            let (k, v) = kv;
            proof {
                if has_key(sorted@, *k) {
                    let j = choose|j: int| 0 <= j < n && *s0[j].0 == *k;
                    assert(s0[j] == s0[n]);
                }
            }
            let ghost before = sorted@;
            insert_sorted(&mut sorted, *k, v.duplicate());
            proof {
                assert forall|i: int|
                    0 <= i < sorted@.len() implies m.contains_key(#[trigger] sorted@[i].0)
                        && sorted@[i].1@ == m[sorted@[i].0]@ by {
                    if sorted@[i].0 != *k || sorted@[i].1@ != v@ {
                        let l = choose|l: int| 0 <= l < before.len() && before[l] == sorted@[i];
                        assert(m.contains_key(before[l].0));
                    }
                }
                assert forall|key: Number| #[trigger]
                    has_key(sorted@, key) <==> exists|j: int| 0 <= j < n + 1 && *s0[j].0 == key by {
                    if exists|j: int| 0 <= j < n + 1 && *s0[j].0 == key {
                        let j = choose|j: int| 0 <= j < n + 1 && *s0[j].0 == key;
                        if j < n {
                            assert(has_key(before, key));
                        }
                    }
                }
            }
        }
        proof {
            assert forall|k: Number| #[trigger] self.inner@.contains_key(k) implies has_key(sorted@, k) by {
                assert(s0.contains((&k, &m[k])));
                let j = choose|j: int| 0 <= j < s0.len() && s0[j] == (&k, &m[k]);
                assert(*s0[j].0 == k);
            }
        }
        sorted
    }
}

} // verus!
