//! Tables of rows with a textual key, no key occurring twice.

use crate::order;
use crate::seqs;
use vstd::prelude::*;

verus! {

/// Rows with a key.
pub trait Keyed: Sized {
    /// The key of the row.
    spec fn key(self) -> Seq<char>;

    /// Whether the row has this key.
    fn has_key(&self, k: &str) -> (r: bool)
        ensures
            r == (self.key() == k@),
    ;
}

/// The map from keys to rows.
pub open spec fn map_of<T: Keyed>(rows: Seq<T>) -> Map<Seq<char>, T>
    decreases rows.len(),
{
    if rows.len() == 0 {
        Map::empty()
    } else {
        map_of(rows.drop_last()).insert(rows.last().key(), rows.last())
    }
}

/// Whether no two rows have the same key.
pub open spec fn keys_differ<T: Keyed>(rows: Seq<T>) -> bool {
    forall|i: int, j: int|
        0 <= i < j < rows.len() ==> (#[trigger] rows[i]).key() != (#[trigger] rows[j]).key()
}

/// The map holds exactly the rows.
pub proof fn lemma_map_of<T: Keyed>(rows: Seq<T>)
    requires
        keys_differ(rows),
    ensures
        forall|i: int|
            0 <= i < rows.len() ==> map_of(rows).dom().contains((#[trigger] rows[i]).key())
                && map_of(rows)[rows[i].key()] == rows[i],
        forall|k: Seq<char>| #[trigger]
            map_of(rows).dom().contains(k) ==> exists|i: int|
                0 <= i < rows.len() && (#[trigger] rows[i]).key() == k,
        map_of(rows).dom().finite(),
        map_of(rows).dom().len() == rows.len(),
    decreases rows.len(),
{
    if rows.len() > 0 {
        let t = rows.drop_last();
        assert(keys_differ(t)) by {
            assert forall|i: int, j: int| 0 <= i < j < t.len() implies (#[trigger] t[i]).key() != (
            #[trigger] t[j]).key() by {
                assert(rows[i].key() != rows[j].key());
            }
        }
        lemma_map_of(t);
        let last = rows.last();
        assert forall|i: int| 0 <= i < rows.len() implies map_of(rows).dom().contains(
            (#[trigger] rows[i]).key(),
        ) && map_of(rows)[rows[i].key()] == rows[i] by {
            if i < t.len() {
                assert(t[i] == rows[i]);
                assert(rows[i].key() != rows[rows.len() - 1].key());
            }
        }
        assert(!map_of(t).dom().contains(last.key())) by {
            if map_of(t).dom().contains(last.key()) {
                let i = choose|i: int| 0 <= i < t.len() && (#[trigger] t[i]).key() == last.key();
                assert(rows[i].key() != rows[rows.len() - 1].key());
            }
        }
        assert forall|k: Seq<char>| #[trigger] map_of(rows).dom().contains(k) implies exists|i: int|
            0 <= i < rows.len() && (#[trigger] rows[i]).key() == k by {
            if k == last.key() {
                assert(rows[rows.len() - 1].key() == k);
            } else {
                assert(map_of(t).dom().contains(k));
                let i = choose|i: int| 0 <= i < t.len() && (#[trigger] t[i]).key() == k;
                assert(rows[i].key() == k);
            }
        }
        assert(map_of(rows).dom() =~= map_of(t).dom().insert(last.key()));
    }
}

/// A table.
#[derive(Debug)]
pub struct Table<T: Keyed> {
    rows: Vec<T>,
}

impl<T: Keyed> View for Table<T> {
    type V = Map<Seq<char>, T>;

    closed spec fn view(&self) -> Map<Seq<char>, T> {
        map_of(self.rows@)
    }
}

impl<T: Keyed> Table<T> {
    #[verifier::type_invariant]
    spec fn inv(self) -> bool {
        keys_differ(self.rows@)
    }

    /// A table without rows.
    pub fn new() -> (r: Self)
        ensures
            r@ == Map::<Seq<char>, T>::empty(),
    {
        Table { rows: Vec::new() }
    }

    /// The rows, in no particular order.
    pub fn rows(&self) -> (r: &Vec<T>)
        ensures
            keys_differ(r@),
            map_of(r@) == self@,
    {
        proof {
            use_type_invariant(self);
        }
        &self.rows
    }

    /// Where the row with this key stands.
    fn position(&self, k: &str) -> (r: Option<usize>)
        ensures
            match r {
                Some(i) => i < self.rows@.len() && self.rows@[i as int].key() == k@
                    && self@.dom().contains(k@) && self@[k@] == self.rows@[i as int],
                None => !self@.dom().contains(k@),
            },
    {
        proof {
            use_type_invariant(self);
            lemma_map_of(self.rows@);
        }
        let mut i: usize = 0;
        while i < self.rows.len()
            invariant
                i <= self.rows@.len(),
                forall|j: int| 0 <= j < i ==> (#[trigger] self.rows@[j]).key() != k@,
            decreases self.rows.len() - i,
        {
            if self.rows[i].has_key(k) {
                proof {
                    use_type_invariant(self);
                    lemma_map_of(self.rows@);
                    assert(self.rows@[i as int].key() == k@);
                }
                return Some(i);
            }
            i = i + 1;
        }
        None
    }

    /// Whether there is a row with this key.
    pub fn contains(&self, k: &str) -> (r: bool)
        ensures
            r == self@.dom().contains(k@),
    {
        match self.position(k) {
            Some(_) => true,
            None => false,
        }
    }

    /// The row with this key.
    pub fn get(&self, k: &str) -> (r: Option<&T>)
        ensures
            match r {
                Some(t) => self@.dom().contains(k@) && *t == self@[k@],
                None => !self@.dom().contains(k@),
            },
    {
        match self.position(k) {
            Some(i) => Some(&self.rows[i]),
            None => None,
        }
    }

    /// Takes out the row with this key.
    pub fn remove(&mut self, k: &str) -> (r: Option<T>)
        ensures
            final(self)@ == old(self)@.remove(k@),
            match r {
                Some(t) => old(self)@.dom().contains(k@) && t == old(self)@[k@],
                None => !old(self)@.dom().contains(k@),
            },
    {
        proof {
            use_type_invariant(&*self);
            lemma_map_of(self.rows@);
        }
        match self.position(k) {
            None => {
                assert(self@.remove(k@) =~= self@);
                None
            },
            Some(i) => {
                let ghost given = self.rows@;
                let mut rows: Vec<T> = Vec::new();
                std::mem::swap(&mut self.rows, &mut rows);
                let t: T = rows.remove(i);
                proof {
                    assert(keys_differ(rows@)) by {
                        assert forall|a: int, b: int| 0 <= a < b < rows@.len() implies (
                        #[trigger] rows@[a]).key() != (#[trigger] rows@[b]).key() by {
                            let a0 = if a < i { a } else { a + 1 };
                            let b0 = if b < i { b } else { b + 1 };
                            assert(given[a0].key() != given[b0].key());
                        }
                    }
                    lemma_map_of(rows@);
                    lemma_map_of(given);
                    assert(map_of(rows@) =~= map_of(given).remove(k@)) by {
                        assert forall|x: Seq<char>| map_of(rows@).dom().contains(x) == map_of(
                            given,
                        ).remove(k@).dom().contains(x) by {
                            if map_of(rows@).dom().contains(x) {
                                let a = choose|a: int|
                                    0 <= a < rows@.len() && (#[trigger] rows@[a]).key() == x;
                                let a0 = if a < i { a } else { a + 1 };
                                assert(given[a0].key() == x);
                                if a0 < i {
                                    assert(given[a0].key() != given[i as int].key());
                                } else {
                                    assert(given[i as int].key() != given[a0].key());
                                }
                            }
                            if map_of(given).dom().contains(x) && x != k@ {
                                let a = choose|a: int|
                                    0 <= a < given.len() && (#[trigger] given[a]).key() == x;
                                let a0 = if a < i { a } else { a - 1 };
                                assert(rows@[a0].key() == x);
                            }
                        }
                        assert forall|x: Seq<char>| map_of(rows@).dom().contains(x) implies map_of(
                            rows@,
                        )[x] == map_of(given).remove(k@)[x] by {
                            let a = choose|a: int|
                                0 <= a < rows@.len() && (#[trigger] rows@[a]).key() == x;
                            let a0 = if a < i { a } else { a + 1 };
                            assert(given[a0] == rows@[a]);
                        }
                    }
                }
                self.rows = rows;
                Some(t)
            },
        }
    }

    /// Puts a row into the table, in place of one with the same key.
    pub fn insert(&mut self, t: T, k: &str)
        requires
            t.key() == k@,
        ensures
            final(self)@ == old(self)@.insert(k@, t),
    {
        let ghost given = self@;
        let _ = self.remove(k);
        proof {
            use_type_invariant(&*self);
            lemma_map_of(self.rows@);
        }
        let ghost middle = self.rows@;
        let mut rows: Vec<T> = Vec::new();
        std::mem::swap(&mut self.rows, &mut rows);
        rows.push(t);
        proof {
            assert(!map_of(middle).dom().contains(k@));
            assert forall|a: int, b: int| 0 <= a < b < rows@.len() implies (
            #[trigger] rows@[a]).key() != (#[trigger] rows@[b]).key() by {
                if b == middle.len() {
                    assert(rows@[a] == middle[a]);
                    assert(map_of(middle).dom().contains(middle[a].key()));
                } else {
                    assert(middle[a].key() != middle[b].key());
                }
            }
            assert(rows@.drop_last() =~= middle);
            assert(map_of(rows@) =~= given.insert(k@, t));
        }
        self.rows = rows;
    }
}

/// Sorting the rows changes neither the keys nor what they stand for.
pub proof fn lemma_sorted_rows<T: Keyed>(rows: Seq<T>, less: spec_fn(T, T) -> bool)
    requires
        keys_differ(rows),
        order::is_weak_order(less),
    ensures
        keys_differ(order::sorted(rows, less)),
        map_of(order::sorted(rows, less)) == map_of(rows),
        order::in_order(order::sorted(rows, less), less),
{
    let r = order::sorted(rows, less);
    order::law_sorted(rows, less);
    assert(rows.no_duplicates()) by {
        assert forall|i: int, j: int|
            0 <= i < rows.len() && 0 <= j < rows.len() && i != j implies rows[i] != rows[j] by {
            if i < j {
                assert(rows[i].key() != rows[j].key());
            } else {
                assert(rows[j].key() != rows[i].key());
            }
        }
    }
    rows.lemma_multiset_has_no_duplicates();
    r.lemma_multiset_has_no_duplicates_conv();
    seqs::lemma_same_members(r, rows);
    assert forall|i: int, j: int| 0 <= i < j < r.len() implies (#[trigger] r[i]).key() != (
    #[trigger] r[j]).key() by {
        if r[i].key() == r[j].key() {
            assert(rows.contains(r[i]));
            assert(rows.contains(r[j]));
            let a = choose|a: int| 0 <= a < rows.len() && rows[a] == r[i];
            let b = choose|b: int| 0 <= b < rows.len() && rows[b] == r[j];
            if a < b {
                assert(rows[a].key() != rows[b].key());
            } else if b < a {
                assert(rows[b].key() != rows[a].key());
            }
            assert(r[i] == r[j]);
        }
    }
    lemma_map_of(r);
    lemma_map_of(rows);
    assert forall|k: Seq<char>| map_of(r).dom().contains(k) == map_of(rows).dom().contains(k) by {
        if map_of(r).dom().contains(k) {
            let i = choose|i: int| 0 <= i < r.len() && (#[trigger] r[i]).key() == k;
            assert(rows.contains(r[i]));
            let a = choose|a: int| 0 <= a < rows.len() && rows[a] == r[i];
            assert(rows[a].key() == k);
        }
        if map_of(rows).dom().contains(k) {
            let i = choose|i: int| 0 <= i < rows.len() && (#[trigger] rows[i]).key() == k;
            assert(r.contains(rows[i]));
            let a = choose|a: int| 0 <= a < r.len() && r[a] == rows[i];
            assert(r[a].key() == k);
        }
    }
    assert forall|k: Seq<char>| map_of(r).dom().contains(k) implies map_of(r)[k] == map_of(
        rows,
    )[k] by {
        let i = choose|i: int| 0 <= i < r.len() && (#[trigger] r[i]).key() == k;
        assert(rows.contains(r[i]));
        let a = choose|a: int| 0 <= a < rows.len() && rows[a] == r[i];
        assert(rows[a].key() == k);
    }
    assert(map_of(r) =~= map_of(rows));
}

} // verus!
