use vstd::prelude::*;

use crate::math::expression::Number;
use crate::syllables::counter::NumberRepresentation;

verus! {

/// The whole-number figures of a set of results: the smallest and largest number said, the
/// most syllables any of them takes, and the total of their syllables with their count (from
/// which the average follows).
pub struct SyllableSummary {
    pub min_number: Option<Number>,
    pub max_number: Option<Number>,
    pub max_syllables: Option<Number>,
    pub total_syllables: i128,
    pub count: usize,
}

/// The total of the syllable counts of `entries`.
pub open spec fn syllable_total(entries: Seq<(Number, NumberRepresentation)>) -> int
    decreases entries.len(),
{
    if entries.len() == 0 {
        0
    } else {
        syllable_total(entries.drop_last()) + entries.last().1.number_of_syllables
    }
}

/// `best` is `Some` of the least of the values that `f` gives on `entries`, and `None` when
/// there are no entries.
pub open spec fn least(
    entries: Seq<(Number, NumberRepresentation)>,
    f: spec_fn((Number, NumberRepresentation)) -> Number,
    best: Option<Number>,
) -> bool {
    match best {
        None => entries.len() == 0,
        Some(b) => (exists|i: int| 0 <= i < entries.len() && f(entries[i]) == b) && forall|i: int|
            0 <= i < entries.len() ==> b <= f(#[trigger] entries[i]),
    }
}

/// `best` is `Some` of the greatest of the values that `f` gives on `entries`, and `None`
/// when there are no entries.
pub open spec fn greatest(
    entries: Seq<(Number, NumberRepresentation)>,
    f: spec_fn((Number, NumberRepresentation)) -> Number,
    best: Option<Number>,
) -> bool {
    match best {
        None => entries.len() == 0,
        Some(b) => (exists|i: int| 0 <= i < entries.len() && f(entries[i]) == b) && forall|i: int|
            0 <= i < entries.len() ==> f(#[trigger] entries[i]) <= b,
    }
}

/// The figures of `entries`, in one pass.
pub fn summarize(entries: &Vec<(Number, NumberRepresentation)>) -> (r: SyllableSummary)
    ensures
        least(entries@, |e: (Number, NumberRepresentation)| e.0, r.min_number),
        greatest(entries@, |e: (Number, NumberRepresentation)| e.0, r.max_number),
        greatest(
            entries@,
            |e: (Number, NumberRepresentation)| e.1.number_of_syllables,
            r.max_syllables,
        ),
        r.total_syllables == syllable_total(entries@),
        r.count == entries@.len(),
{
    let ghost key = |e: (Number, NumberRepresentation)| e.0;
    let ghost syl = |e: (Number, NumberRepresentation)| e.1.number_of_syllables;
    let mut min_number: Option<Number> = None;
    let mut max_number: Option<Number> = None;
    let mut max_syllables: Option<Number> = None;
    let mut total: i128 = 0;
    let mut i: usize = 0;
    while i < entries.len()
        invariant
            i <= entries@.len(),
            key == (|e: (Number, NumberRepresentation)| e.0),
            syl == (|e: (Number, NumberRepresentation)| e.1.number_of_syllables),
            least(entries@.take(i as int), key, min_number),
            greatest(entries@.take(i as int), key, max_number),
            greatest(entries@.take(i as int), syl, max_syllables),
            total == syllable_total(entries@.take(i as int)),
            -2147483648 * i <= total <= 2147483647 * i,
        decreases entries.len() - i,
    {
        let k = entries[i].0;
        let s = entries[i].1.number_of_syllables;
        let ghost prefix = entries@.take(i as int);
        let ghost next = entries@.take(i + 1);
        proof {
            assert(next.drop_last() =~= prefix);
            assert(next.last() == entries@[i as int]);
            assert forall|j: int| 0 <= j < prefix.len() implies next[j] == #[trigger] prefix[j] by {}
        }
        min_number = match min_number {
            Some(b) => if k < b { Some(k) } else { Some(b) },
            None => Some(k),
        };
        max_number = match max_number {
            Some(b) => if k > b { Some(k) } else { Some(b) },
            None => Some(k),
        };
        max_syllables = match max_syllables {
            Some(b) => if s > b { Some(s) } else { Some(b) },
            None => Some(s),
        };
        total = total + s as i128;
        proof {
            assert(least(next, key, min_number)) by {
                if exists|j: int| 0 <= j < prefix.len() && key(prefix[j]) == min_number->Some_0 {
                    let j = choose|j: int| 0 <= j < prefix.len() && key(prefix[j]) == min_number->Some_0;
                    assert(next[j] == prefix[j]);
                } else {
                    assert(key(next[i as int]) == min_number->Some_0);
                }
                assert forall|j: int| 0 <= j < next.len() implies min_number->Some_0 <= key(#[trigger] next[j]) by {
                    if j < i {
                        assert(next[j] == prefix[j]);
                    }
                }
            }
            assert(greatest(next, key, max_number)) by {
                if exists|j: int| 0 <= j < prefix.len() && key(prefix[j]) == max_number->Some_0 {
                    let j = choose|j: int| 0 <= j < prefix.len() && key(prefix[j]) == max_number->Some_0;
                    assert(next[j] == prefix[j]);
                } else {
                    assert(key(next[i as int]) == max_number->Some_0);
                }
                assert forall|j: int| 0 <= j < next.len() implies key(#[trigger] next[j]) <= max_number->Some_0 by {
                    if j < i {
                        assert(next[j] == prefix[j]);
                    }
                }
            }
            assert(greatest(next, syl, max_syllables)) by {
                if exists|j: int| 0 <= j < prefix.len() && syl(prefix[j]) == max_syllables->Some_0 {
                    let j = choose|j: int| 0 <= j < prefix.len() && syl(prefix[j]) == max_syllables->Some_0;
                    assert(next[j] == prefix[j]);
                } else {
                    assert(syl(next[i as int]) == max_syllables->Some_0);
                }
                assert forall|j: int| 0 <= j < next.len() implies syl(#[trigger] next[j]) <= max_syllables->Some_0 by {
                    if j < i {
                        assert(next[j] == prefix[j]);
                    }
                }
            }
        }
        i = i + 1;
    }
    proof {
        assert(entries@.take(i as int) =~= entries@);
    }
    SyllableSummary {
        min_number,
        max_number,
        max_syllables,
        total_syllables: total,
        count: entries.len(),
    }
}

} // verus!
