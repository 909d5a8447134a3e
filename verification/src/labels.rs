use vstd::prelude::*;
use vstd::slice::slice_to_vec;
use vstd::string::StringSliceAdditionalSpecFns;
use rustc_hash::FxHashMap;
use crate::hashed::{count, lookup, nothing_seen, record, recorded};

verus! {

/// Gives every label a number: the first label that is asked for gets 0,
/// and every label that has none when it is asked for gets the next.
pub struct LabelCompression(FxHashMap<Vec<u8>, usize>);

impl LabelCompression {
    /// The labels that have a number, each with its number.
    pub closed spec fn numbers(&self) -> Map<Seq<u8>, usize> {
        recorded(self.0)
    }

    /// Whether `label` has a number.
    pub open spec fn knows(&self, label: Seq<u8>) -> bool {
        self.numbers().dom().contains(label)
    }

    /// How many labels have a number.
    pub open spec fn count(&self) -> nat {
        self.numbers().dom().len()
    }

    /// The numbers are those below the number of labels, each given once.
    pub open spec fn wf(&self) -> bool {
        &&& self.numbers().dom().finite()
        &&& forall|label: Seq<u8>| self.knows(label) ==> (#[trigger] self.numbers()[label]) < self.count()
        &&& forall|one: Seq<u8>, other: Seq<u8>|
            self.knows(one) && self.knows(other) && #[trigger] self.numbers()[one]
                == #[trigger] self.numbers()[other] ==> one == other
    }

    /// No label has a number yet.
    pub fn new() -> (labels: Self)
        ensures
            labels.wf(),
            labels.count() == 0,
            forall|label: Seq<u8>| !labels.knows(label),
    {
        LabelCompression(nothing_seen())
    }

    /// The number of `label`, which is given the next number if it has none.
    pub fn get(&mut self, label: &str) -> (number: usize)
        requires
            old(self).wf(),
        ensures
            final(self).wf(),
            final(self).numbers() == old(self).numbers().insert(label.spec_bytes(), number),
            number == if old(self).knows(label.spec_bytes()) {
                old(self).numbers()[label.spec_bytes()]
            } else {
                old(self).count() as usize
            },
    {
        self.number(label.as_bytes())
    }

    /// The number of the label with the bytes `label`, which is given the
    /// next number if it has none.
    pub fn number(&mut self, label: &[u8]) -> (number: usize)
        requires
            old(self).wf(),
        ensures
            final(self).wf(),
            final(self).numbers() == old(self).numbers().insert(label@, number),
            number == if old(self).knows(label@) {
                old(self).numbers()[label@]
            } else {
                old(self).count() as usize
            },
    {
        match lookup(&self.0, label) {
            Some(number) => {
                assert(self.numbers() =~= self.numbers().insert(label@, number));
                number
            },
            None => {
                let next = count(&self.0);
                let ghost before = self.numbers();
                record(&mut self.0, slice_to_vec(label), next);
                proof {
                    assert(self.numbers().dom() =~= before.dom().insert(label@));
                    assert forall|one: Seq<u8>, other: Seq<u8>|
                        self.knows(one) && self.knows(other) && #[trigger] self.numbers()[one]
                            == #[trigger] self.numbers()[other] implies one == other by {
                        if one != label@ {
                            assert(before[one] < before.dom().len());
                        }
                        if other != label@ {
                            assert(before[other] < before.dom().len());
                        }
                    }
                    assert forall|known: Seq<u8>| self.knows(known) implies (
                    #[trigger] self.numbers()[known]) < self.count() by {
                        if known != label@ {
                            assert(before[known] < before.dom().len());
                        }
                    }
                }
                next
            },
        }
    }

    /// The number that `label` has, if it has one.
    pub fn find(&self, label: &[u8]) -> (number: Option<usize>)
        ensures
            number == if self.knows(label@) {
                Some(self.numbers()[label@])
            } else {
                None
            },
    {
        lookup(&self.0, label)
    }

    /// How many labels have a number.
    pub fn len(&self) -> (len: usize)
        ensures
            len == self.count(),
    {
        count(&self.0)
    }
}

impl Default for LabelCompression {
    fn default() -> (labels: Self)
        ensures
            labels.wf(),
            labels.count() == 0,
            forall|label: Seq<u8>| !labels.knows(label),
    {
        LabelCompression::new()
    }
}

} // verus!
