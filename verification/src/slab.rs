//! A slab: storage cells addressed by index, with freed cells reused.

use vstd::prelude::*;

verus! {

/// Cells addressed by index. A freed cell's index is handed out again by a later
/// `insert`.
pub struct Slab<T> {
    cells: Vec<Option<T>>,
    free: Vec<usize>,
}

impl<T> Slab<T> {
    /// The contents: cell index to stored value.
    pub closed spec fn view(&self) -> Map<usize, T> {
        Map::new(
            |i: usize| i < self.cells@.len() && self.cells@[i as int] is Some,
            |i: usize| self.cells@[i as int]->0,
        )
    }

    /// The free list names exactly the empty cells, each once.
    pub closed spec fn wf(&self) -> bool {
        &&& forall|j: int| 0 <= j < self.free@.len() ==> #[trigger] self.free@[j] < self.cells@.len()
            && self.cells@[self.free@[j] as int] is None
        &&& self.free@.no_duplicates()
    }

    /// An empty slab.
    pub fn new() -> (r: Self)
        ensures
            r.wf(),
            r.view() == Map::<usize, T>::empty(),
    {
        let r = Slab { cells: Vec::new(), free: Vec::new() };
        assert(r.view() =~= Map::<usize, T>::empty());
        r
    }

    /// Stores `value` in an unused cell and returns the cell's index.
    pub fn insert(&mut self, value: T) -> (i: usize)
        requires
            old(self).wf(),
        ensures
            final(self).wf(),
            !old(self).view().contains_key(i),
            final(self).view() == old(self).view().insert(i, value),
    {
        match self.free.pop() {
            Some(i) => {
                assert(old(self).free@[old(self).free@.len() - 1] == i);
                self.cells[i] = Some(value);
                assert(self.view() =~= old(self).view().insert(i, value));
                assert(forall|j: int| 0 <= j < self.free@.len() ==> self.free@[j] == old(self).free@[j]);
                i
            },
            None => {
                let i = self.cells.len();
                self.cells.push(Some(value));
                assert(self.view() =~= old(self).view().insert(i, value));
                i
            },
        }
    }

    /// Empties the cell `i` and returns what it held.
    pub fn remove(&mut self, i: usize) -> (value: T)
        requires
            old(self).wf(),
            old(self).view().contains_key(i),
        ensures
            final(self).wf(),
            value == old(self).view()[i],
            final(self).view() == old(self).view().remove(i),
    {
        let mut taken: Option<T> = None;
        std::mem::swap(&mut taken, &mut self.cells[i]);
        self.free.push(i);
        assert(self.view() =~= old(self).view().remove(i));
        assert(forall|j: int| 0 <= j < old(self).free@.len() ==> self.free@[j] == old(self).free@[j]);
        taken.unwrap()
    }

    /// Whether cell `i` holds a value.
    pub fn contains(&self, i: usize) -> (r: bool)
        ensures
            r == self.view().contains_key(i),
    {
        i < self.cells.len() && self.cells[i].is_some()
    }

    /// Borrows the value in cell `i`.
    pub fn get(&self, i: usize) -> (value: &T)
        requires
            self.wf(),
            self.view().contains_key(i),
        ensures
            *value == self.view()[i],
    {
        self.cells[i].as_ref().unwrap()
    }

    /// Borrows the value in cell `i` for modification.
    pub fn get_mut(&mut self, i: usize) -> (value: &mut T)
        requires
            old(self).wf(),
            old(self).view().contains_key(i),
        ensures
            *value == old(self).view()[i],
            final(self).wf(),
            final(self).view() == old(self).view().insert(i, *final(value)),
    {
        self.cells[i].as_mut().unwrap()
    }

    /// Cells that are in use and pairwise different are no more than indices there are.
    pub proof fn lemma_count(&self, s: Seq<usize>)
        requires
            s.no_duplicates(),
            forall|j: int| 0 <= j < s.len() ==> self.view().contains_key(#[trigger] s[j]),
        ensures
            s.len() <= usize::MAX,
    {
        let t = s.map_values(|x: usize| x as int);
        assert(t.no_duplicates());
        t.unique_seq_to_set();
        vstd::set_lib::lemma_int_range(0, self.cells@.len() as int);
        let range = vstd::set_lib::set_int_range(0, self.cells@.len() as int);
        assert forall|x: int| t.to_set().contains(x) implies range.contains(x) by {
            let j = choose|j: int| 0 <= j < t.len() && t[j] == x;
            assert(self.view().contains_key(s[j]));
        }
        vstd::set_lib::lemma_len_subset(t.to_set(), range);
        assert(self.cells.len() <= usize::MAX);
    }
}

} // verus!
