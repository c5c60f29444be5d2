//! Masks: which rows of a chunk are wanted.
use vstd::prelude::*;

verus! {

/// Which rows of a chunk are wanted.
#[derive(Debug)]
pub struct Mask {
    values: Vec<bool>,
}

/// The number of rows that are wanted.
pub open spec fn count_true(values: Seq<bool>) -> nat
    decreases values.len(),
{
    if values.len() == 0 {
        0
    } else {
        count_true(values.drop_last()) + if values.last() {
            1nat
        } else {
            0nat
        }
    }
}

/// The number of rows that are wanted lies between none and all, and is one of these exactly where
/// none or all are.
pub proof fn lemma_count_true(values: Seq<bool>)
    ensures
        count_true(values) <= values.len(),
        count_true(values) == 0 <==> forall|i: int| 0 <= i < values.len() ==> !#[trigger] values[i],
        count_true(values) == values.len() <==> forall|i: int|
            0 <= i < values.len() ==> #[trigger] values[i],
    decreases values.len(),
{
    if values.len() > 0 {
        let front = values.drop_last();
        lemma_count_true(front);
        assert forall|i: int| 0 <= i < front.len() implies front[i] == values[i] by {}
        if forall|i: int| 0 <= i < values.len() ==> !#[trigger] values[i] {
            assert forall|i: int| 0 <= i < front.len() implies !#[trigger] front[i] by {
                assert(!values[i]);
            }
            assert(!values[values.len() - 1]);
        }
        if forall|i: int| 0 <= i < values.len() ==> #[trigger] values[i] {
            assert forall|i: int| 0 <= i < front.len() implies #[trigger] front[i] by {
                assert(values[i]);
            }
            assert(values[values.len() - 1]);
        }
        if count_true(values) == 0 {
            assert forall|i: int| 0 <= i < values.len() implies !#[trigger] values[i] by {
                if i < front.len() {
                    assert(!front[i]);
                }
            }
        }
        if count_true(values) == values.len() {
            assert forall|i: int| 0 <= i < values.len() implies #[trigger] values[i] by {
                if i < front.len() {
                    assert(front[i]);
                }
            }
        }
    }
}

impl View for Mask {
    type V = Seq<bool>;

    closed spec fn view(&self) -> Seq<bool> {
        self.values@
    }
}

impl Clone for Mask {
    fn clone(&self) -> (result: Mask)
        ensures
            result@ == self@,
    {
        let values = self.values.clone();
        assert(values@ =~= self.values@);
        Mask { values }
    }
}

impl Mask {
    /// The mask of the given values.
    pub fn new(values: Vec<bool>) -> (result: Mask)
        ensures
            result@ == values@,
    {
        Mask { values }
    }

    /// The mask of `len` rows that are all wanted.
    pub fn new_true(len: usize) -> (result: Mask)
        ensures
            result@ == Seq::new(len as nat, |i: int| true),
    {
        let mut values: Vec<bool> = Vec::new();
        let mut i: usize = 0;
        while i < len
            invariant
                i <= len,
                values@ == Seq::new(i as nat, |j: int| true),
            decreases len - i,
        {
            values.push(true);
            i = i + 1;
            assert(values@ =~= Seq::new(i as nat, |j: int| true));
        }
        Mask { values }
    }

    /// The mask of the rows that hold true; null counts as false.
    pub fn from_values(values: &Vec<Option<bool>>) -> (result: Mask)
        ensures
            result@ == values@.map_values(|value: Option<bool>| value == Some(true)),
    {
        let mut wanted: Vec<bool> = Vec::new();
        let mut i: usize = 0;
        while i < values.len()
            invariant
                i <= values@.len(),
                wanted@.len() == i,
                forall|j: int| 0 <= j < i ==> #[trigger] wanted@[j] == (values@[j] == Some(true)),
            decreases values.len() - i,
        {
            let value = match values[i] {
                Some(value) => value,
                None => false,
            };
            wanted.push(value);
            i = i + 1;
        }
        assert(wanted@ =~= values@.map_values(|value: Option<bool>| value == Some(true)));
        Mask { values: wanted }
    }

    /// The number of rows.
    pub fn len(&self) -> (result: usize)
        ensures
            result == self@.len(),
    {
        self.values.len()
    }

    /// Whether there are no rows.
    pub fn is_empty(&self) -> (result: bool)
        ensures
            result == (self@.len() == 0),
    {
        self.values.len() == 0
    }

    /// Whether a row is wanted.
    pub fn value(&self, i: usize) -> (result: bool)
        requires
            i < self@.len(),
        ensures
            result == self@[i as int],
    {
        self.values[i]
    }

    /// The number of rows that are wanted.
    pub fn true_count(&self) -> (result: usize)
        ensures
            result == count_true(self@),
    {
        let mut count: usize = 0;
        let mut i: usize = 0;
        assert(self@.take(0) =~= Seq::<bool>::empty());
        while i < self.values.len()
            invariant
                i <= self@.len(),
                self@ == self.values@,
                count == count_true(self@.take(i as int)),
                count <= i,
            decreases self.values.len() - i,
        {
            assert(self@.take(i + 1).drop_last() =~= self@.take(i as int));
            if self.values[i] {
                count = count + 1;
            }
            i = i + 1;
        }
        assert(self@.take(self@.len() as int) =~= self@);
        count
    }

    /// Whether all rows are wanted.
    pub fn all_true(&self) -> (result: bool)
        ensures
            result == forall|i: int| 0 <= i < self@.len() ==> #[trigger] self@[i],
    {
        proof {
            lemma_count_true(self@);
        }
        self.true_count() == self.values.len()
    }

    /// Whether no rows are wanted.
    pub fn all_false(&self) -> (result: bool)
        ensures
            result == forall|i: int| 0 <= i < self@.len() ==> !#[trigger] self@[i],
    {
        proof {
            lemma_count_true(self@);
        }
        self.true_count() == 0
    }

    /// The mask of the rows that both masks want.
    pub fn and(&self, other: &Mask) -> (result: Mask)
        requires
            self@.len() == other@.len(),
        ensures
            result@ == Seq::new(self@.len(), |i: int| self@[i] && other@[i]),
    {
        let mut values: Vec<bool> = Vec::new();
        let mut i: usize = 0;
        while i < self.values.len()
            invariant
                i <= self@.len(),
                self@ == self.values@,
                other@ == other.values@,
                self@.len() == other@.len(),
                values@.len() == i,
                forall|j: int| 0 <= j < i ==> #[trigger] values@[j] == (self@[j] && other@[j]),
            decreases self.values.len() - i,
        {
            values.push(self.values[i] && other.values[i]);
            i = i + 1;
        }
        assert(values@ =~= Seq::new(self@.len(), |i: int| self@[i] && other@[i]));
        Mask { values }
    }
}

} // verus!
