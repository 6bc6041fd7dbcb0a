//! Assigns dense, stable integer ids to distinct pattern keys: the id of a
//! key is the position at which it was first seen, and the table of keys
//! only ever grows at its end.

use vstd::prelude::*;

verus! {

/// `a` is an initial segment of `b`.
pub open spec fn table_prefix_of(a: Seq<Seq<char>>, b: Seq<Seq<char>>) -> bool {
    a.len() <= b.len() && forall|i: int| 0 <= i < a.len() ==> b[i] == a[i]
}

/// No key appears in the table twice.
pub open spec fn table_distinct(keys: Seq<Seq<char>>) -> bool {
    forall|i: int, j: int| 0 <= i < j < keys.len() ==> keys[i] != keys[j]
}

/// Assigns each distinct key the index at which it was first registered.
pub struct Enumerator {
    keys: Vec<String>,
}

impl View for Enumerator {
    type V = Seq<Seq<char>>;

    closed spec fn view(&self) -> Seq<Seq<char>> {
        self.keys@.map_values(|s: String| s@)
    }
}

impl Enumerator {
    pub fn new() -> (r: Enumerator)
        ensures
            r@ =~= Seq::<Seq<char>>::empty(),
    {
        Enumerator { keys: Vec::new() }
    }

    /// The id of `value`: its position if seen before (the table is then
    /// unchanged), a fresh one at the end of the table otherwise.
    pub fn get_id(&mut self, value: &str) -> (id: usize)
        ensures
            id < final(self)@.len(),
            final(self)@[id as int] == value@,
            table_prefix_of(old(self)@, final(self)@),
            final(self)@.len() <= old(self)@.len() + 1,
            forall|i: int| 0 <= i < id ==> final(self)@[i] != value@,
            (exists|i: int| 0 <= i < old(self)@.len() && old(self)@[i] == value@)
                ==> final(self)@ == old(self)@,
            final(self)@.len() == old(self)@.len() + 1 ==> id == old(self)@.len(),
            table_distinct(old(self)@) ==> table_distinct(final(self)@),
    {
        let owned = value.to_owned();
        let n = self.keys.len();
        let mut i: usize = 0;
        while i < n
            invariant
                n == self.keys@.len(),
                i <= n,
                owned@ == value@,
                forall|j: int| 0 <= j < i ==> self@[j] != value@,
            decreases n - i,
        {
            proof {
                assert(self@[i as int] == self.keys@[i as int]@);
            }
            if self.keys[i] == owned {
                return i;
            }
            i = i + 1;
        }
        self.keys.push(owned);
        proof {
            assert(self@ =~= old(self)@.push(value@));
            if table_distinct(old(self)@) {
                assert forall|x: int, y: int| 0 <= x < y < self@.len() implies self@[x]
                    != self@[y] by {
                    if y < old(self)@.len() {
                        assert(old(self)@[x] != old(self)@[y]);
                    } else {
                        assert(self@[y] == value@);
                        assert(self@[x] == old(self)@[x]);
                    }
                }
            }
        }
        n
    }

    pub fn get_count(&self) -> (r: usize)
        ensures
            r == self@.len(),
    {
        self.keys.len()
    }
}

} // verus!
