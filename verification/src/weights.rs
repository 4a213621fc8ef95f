//! Named weight tensors.

use crate::tensor::Tensor;
use vstd::prelude::*;

verus! {

/// A weight tensor and its name.
#[derive(Debug)]
pub struct NamedTensor {
    pub name: String,
    pub tensor: Tensor,
}

/// Weight tensors by name; no name occurs twice.
#[derive(Debug)]
pub struct Weights {
    pub entries: Vec<NamedTensor>,
}

/// Why a model could not be put together.
#[derive(Debug)]
pub enum LoadError {
    /// No tensor has this name.
    MissingWeight(String),
}

/// The place of the first of the entries from `i` on with this name, or `-1`.
pub open spec fn place(entries: Seq<NamedTensor>, name: Seq<char>, i: int) -> int
    decreases entries.len() - i,
{
    if i < 0 || i >= entries.len() {
        -1
    } else if entries[i].name@ == name {
        i
    } else {
        place(entries, name, i + 1)
    }
}

pub proof fn lemma_place(entries: Seq<NamedTensor>, name: Seq<char>, i: int)
    requires
        0 <= i <= entries.len(),
    ensures
        ({
            let p = place(entries, name, i);
            &&& p == -1 || i <= p < entries.len()
            &&& p >= 0 ==> entries[p].name@ == name
            &&& forall|k: int|
                i <= k < entries.len() && (p < 0 || k < p) ==> #[trigger] entries[k].name@ != name
        }),
    decreases entries.len() - i,
{
    if i < entries.len() && entries[i].name@ != name {
        lemma_place(entries, name, i + 1);
    }
}

impl Weights {
    pub open spec fn wf(&self) -> bool {
        &&& forall|i: int| 0 <= i < self.entries.len() ==> #[trigger] self.entries[i].tensor.wf()
        &&& forall|i: int, j: int|
            0 <= i < j < self.entries.len() ==> #[trigger] self.entries[i].name@
                != #[trigger] self.entries[j].name@
    }

    /// Whether there is a tensor of this name.
    pub open spec fn has(&self, name: Seq<char>) -> bool {
        place(self.entries@, name, 0) >= 0
    }

    /// The tensor of this name.
    pub open spec fn tensor(&self, name: Seq<char>) -> Tensor {
        self.entries[place(self.entries@, name, 0)].tensor
    }

    pub fn new() -> (res: Weights)
        ensures
            res.wf(),
            forall|name: Seq<char>| !#[trigger] res.has(name),
    {
        let res = Weights { entries: Vec::new() };
        proof {
            assert forall|name: Seq<char>| !#[trigger] res.has(name) by {
                lemma_place(res.entries@, name, 0);
            }
        }
        res
    }

    fn position(&self, name: &String) -> (res: Option<usize>)
        ensures
            match res {
                Some(p) => p == place(self.entries@, name@, 0) && p < self.entries.len(),
                None => place(self.entries@, name@, 0) == -1,
            },
    {
        let mut i: usize = 0;
        while i < self.entries.len()
            invariant
                i <= self.entries.len(),
                place(self.entries@, name@, 0) == place(self.entries@, name@, i as int),
            decreases self.entries.len() - i,
        {
            if self.entries[i].name == *name {
                return Some(i);
            }
            i = i + 1;
        }
        None
    }

    /// Adds a tensor, in the place of the one that had its name, if any.
    pub fn insert(&mut self, name: String, tensor: Tensor)
        requires
            old(self).wf(),
            tensor.wf(),
        ensures
            final(self).wf(),
            final(self).has(name@),
            final(self).tensor(name@) == tensor,
            forall|other: Seq<char>|
                other != name@ ==> #[trigger] final(self).has(other) == old(self).has(other) && (
                old(self).has(other) ==> final(self).tensor(other) == old(self).tensor(other)),
    {
        let ghost before = self.entries@;
        let ghost added = tensor;
        let ghost key = name@;
        match self.position(&name) {
            Some(p) => {
                proof {
                    lemma_place(before, key, 0);
                }
                self.entries.set(p, NamedTensor { name, tensor });
            },
            None => {
                proof {
                    lemma_place(before, key, 0);
                }
                self.entries.push(NamedTensor { name, tensor });
            },
        }
        proof {
            let after = self.entries@;
            lemma_place(after, key, 0);
            assert forall|other: Seq<char>| other != key implies #[trigger] self.has(other)
                == old(self).has(other) && (old(self).has(other) ==> self.tensor(other) == old(
                self,
            ).tensor(other)) by {
                lemma_place(before, other, 0);
                lemma_place(after, other, 0);
                let p = place(before, other, 0);
                let q = place(after, other, 0);
                if p >= 0 {
                    assert(after[p].name@ == other);
                }
                if q >= 0 {
                    assert(before[q].name@ == other);
                }
            }
            if place(before, key, 0) >= 0 {
                assert(after[place(before, key, 0)].name@ == key);
            } else {
                assert(after[before.len() as int].name@ == key);
            }
        }
    }

    /// Looks a tensor up.
    pub fn get(&self, name: &String) -> (res: Option<&Tensor>)
        ensures
            res is Some <==> self.has(name@),
            res matches Some(t) ==> *t == self.tensor(name@),
    {
        match self.position(name) {
            Some(p) => Some(&self.entries[p].tensor),
            None => None,
        }
    }
}

/// There is a tensor of a name where an entry has that name, and it is the tensor of that entry.
pub proof fn law_tensors_are_found_by_name(weights: &Weights, i: int, name: Seq<char>)
    requires
        weights.wf(),
        0 <= i < weights.entries.len(),
    ensures
        weights.has(weights.entries[i].name@),
        weights.tensor(weights.entries[i].name@) == weights.entries[i].tensor,
        weights.has(name) ==> exists|k: int|
            0 <= k < weights.entries.len() && #[trigger] weights.entries[k].name@ == name,
{
    let own = weights.entries[i].name@;
    lemma_place(weights.entries@, own, 0);
    lemma_place(weights.entries@, name, 0);
    let p = place(weights.entries@, own, 0);
    assert(weights.entries@[i].name@ == own);
    if p < i {
        assert(weights.entries[p].name@ != weights.entries[i].name@);
    }
    if weights.has(name) {
        let k = place(weights.entries@, name, 0);
        assert(weights.entries[k].name@ == name);
    }
}

/// The name of a weight of a module.
pub open spec fn weight_name(prefix: Seq<char>, name: Seq<char>) -> Seq<char> {
    prefix + "."@ + name
}

/// A copy of a weight of a module.
pub fn get_weight(weights: &Weights, prefix: &str, name: &str) -> (res: Result<Tensor, LoadError>)
    ensures
        match res {
            Ok(t) => weights.has(weight_name(prefix@, name@)) && t.same_as(
                &weights.tensor(weight_name(prefix@, name@)),
            ),
            Err(LoadError::MissingWeight(missing)) => missing@ == weight_name(prefix@, name@)
                && !weights.has(weight_name(prefix@, name@)),
        },
{
    let mut key: String = prefix.to_owned();
    key.append(".");
    key.append(name);
    match weights.get(&key) {
        Some(t) => Ok(t.duplicate()),
        None => Err(LoadError::MissingWeight(key)),
    }
}

} // verus!
