use vstd::prelude::*;

use crate::math::expression::{BinaryOperator, Number, UnaryOperator};

verus! {

/// An operator as a dictionary names it.
#[derive(Debug, Clone, Copy, PartialEq, Eq, Structural)]
pub enum Operator {
    Unary(UnaryOperator),
    Binary(BinaryOperator),
}

/// A number word: its value, its spelling and how many syllables it has.
#[derive(Debug, Clone, PartialEq, Eq)]
pub struct DictionaryConstant {
    pub representation: String,
    pub value: Number,
    pub number_of_syllables: Number,
}

/// The word for an operator and how many syllables it has.
#[derive(Debug, Clone)]
pub struct DictionaryOperator {
    pub representation: String,
    pub operator: Operator,
    pub number_of_syllables: Number,
}

/// The words of one language.
#[derive(Debug)]
pub struct Dictionary {
    pub constants: Vec<DictionaryConstant>,
    pub operators: Vec<DictionaryOperator>,
}

/// The first constant in `cs` whose value is `v`.
pub open spec fn find_constant(cs: Seq<DictionaryConstant>, v: int) -> Option<DictionaryConstant>
    decreases cs.len(),
{
    if cs.len() == 0 {
        None
    } else if cs[0].value == v {
        Some(cs[0])
    } else {
        find_constant(cs.drop_first(), v)
    }
}

/// The first operator word in `ops` for `op`.
pub open spec fn find_operator(ops: Seq<DictionaryOperator>, op: Operator) -> Option<
    DictionaryOperator,
>
    decreases ops.len(),
{
    if ops.len() == 0 {
        None
    } else if ops[0].operator == op {
        Some(ops[0])
    } else {
        find_operator(ops.drop_first(), op)
    }
}

/// The index in `cs` of the largest non-zero value that is at most `value`, the first of
/// equal ones; -1 when there is none. This is the constant that the number words are built
/// around.
pub open spec fn best_constant(cs: Seq<DictionaryConstant>, value: int) -> int
    decreases cs.len(),
{
    if cs.len() == 0 {
        -1
    } else {
        let rest = best_constant(cs.drop_last(), value);
        let c = cs.last();
        if c.value != 0 && c.value <= value && (rest < 0 || cs[rest].value < c.value) {
            cs.len() - 1
        } else {
            rest
        }
    }
}

pub proof fn lemma_best_constant_range(cs: Seq<DictionaryConstant>, value: int)
    ensures
        -1 <= best_constant(cs, value) < cs.len(),
        best_constant(cs, value) >= 0 ==> cs[best_constant(cs, value)].value != 0 && cs[best_constant(
            cs,
            value,
        )].value <= value,
    decreases cs.len(),
{
    if cs.len() > 0 {
        lemma_best_constant_range(cs.drop_last(), value);
    }
}

/// The index of the constant that `best_constant` picks, found by one pass over `cs`.
pub fn find_best_constant(cs: &Vec<DictionaryConstant>, value: Number) -> (r: Option<usize>)
    ensures
        match r {
            Some(i) => i as int == best_constant(cs@, value as int),
            None => best_constant(cs@, value as int) == -1,
        },
{
    let mut best: Option<usize> = None;
    let mut i: usize = 0;
    while i < cs.len()
        invariant
            i <= cs@.len(),
            match best {
                Some(b) => b as int == best_constant(cs@.take(i as int), value as int),
                None => best_constant(cs@.take(i as int), value as int) == -1,
            },
        decreases cs.len() - i,
    {
        proof {
            assert(cs@.take(i + 1).drop_last() =~= cs@.take(i as int));
            lemma_best_constant_range(cs@.take(i as int), value as int);
        }
        let c = &cs[i];
        if c.value != 0 && c.value <= value {
            match best {
                None => {
                    best = Some(i);
                },
                Some(b) => {
                    if cs[b].value < c.value {
                        best = Some(i);
                    }
                },
            }
        }
        i = i + 1;
    }
    proof {
        assert(cs@.take(cs@.len() as int) =~= cs@);
    }
    best
}

impl Dictionary {
    /// The first constant whose value is `value`.
    pub fn get_from_value(&self, value: Number) -> (r: Option<DictionaryConstant>)
        ensures
            r == find_constant(self.constants@, value as int),
    {
        let mut i: usize = 0;
        proof {
            assert(self.constants@.skip(0) =~= self.constants@);
        }
        while i < self.constants.len()
            invariant
                i <= self.constants@.len(),
                find_constant(self.constants@, value as int) == find_constant(
                    self.constants@.skip(i as int),
                    value as int,
                ),
            decreases self.constants.len() - i,
        {
            let item = &self.constants[i];
            proof {
                assert(self.constants@.skip(i as int)[0] == self.constants@[i as int]);
                assert(self.constants@.skip(i as int).drop_first() =~= self.constants@.skip(
                    i + 1,
                ));
            }
            if item.value == value {
                return Some(
                    DictionaryConstant {
                        representation: item.representation.clone(),
                        value: item.value,
                        number_of_syllables: item.number_of_syllables,
                    },
                );
            }
            i = i + 1;
        }
        None
    }

    /// The first operator word for `operator`.
    pub fn get_from_operator(&self, operator: Operator) -> (r: Option<
        DictionaryOperator,
    >)
        ensures
            r == find_operator(self.operators@, operator),
    {
        let mut i: usize = 0;
        proof {
            assert(self.operators@.skip(0) =~= self.operators@);
        }
        while i < self.operators.len()
            invariant
                i <= self.operators@.len(),
                find_operator(self.operators@, operator) == find_operator(
                    self.operators@.skip(i as int),
                    operator,
                ),
            decreases self.operators.len() - i,
        {
            let item = &self.operators[i];
            proof {
                assert(self.operators@.skip(i as int)[0] == self.operators@[i as int]);
                assert(self.operators@.skip(i as int).drop_first() =~= self.operators@.skip(
                    i + 1,
                ));
            }
            if item.operator == operator {
                return Some(
                    DictionaryOperator {
                        representation: item.representation.clone(),
                        operator: item.operator,
                        number_of_syllables: item.number_of_syllables,
                    },
                );
            }
            i = i + 1;
        }
        None
    }
}

/// The constant that the number words are built around is the largest non-zero constant not
/// above `value`, whatever the order of `cs`: when some non-zero constant fits, one is picked
/// and none that fits is larger.
pub proof fn law_best_constant_is_largest(cs: Seq<DictionaryConstant>, value: int, j: int)
    requires
        0 <= j < cs.len(),
        cs[j].value != 0,
        cs[j].value <= value,
    ensures
        0 <= best_constant(cs, value) < cs.len(),
        cs[j].value <= cs[best_constant(cs, value)].value,
    decreases cs.len(),
{
    let rest = best_constant(cs.drop_last(), value);
    lemma_best_constant_range(cs.drop_last(), value);
    if j < cs.len() - 1 {
        assert(cs.drop_last()[j] == cs[j]);
        law_best_constant_is_largest(cs.drop_last(), value, j);
        assert(cs.drop_last()[rest] == cs[rest]);
    } else if rest >= 0 {
        assert(cs.drop_last()[rest] == cs[rest]);
    }
}

} // verus!
