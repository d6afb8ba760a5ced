//! A list of distinct texts that finds a text without walking the whole list.
//!
//! The texts stand in a `Vec`, in the order in which they were added. A `HashMap` files the
//! position of each text under a number that is computed from its characters, so that a text
//! is looked for only among the few that share its number. The map is keyed by that number and
//! not by the text itself: what is known of a `HashMap` in proofs holds for integer keys.

use vstd::prelude::*;
use std::collections::HashMap;
use vstd::std_specs::iter::IteratorSpec;
use crate::text::{same_text, views};

verus! {

broadcast use vstd::std_specs::hash::group_hash_axioms;

/// The number under which a text is filed.
pub closed spec fn hash_of(s: Seq<char>) -> u64
    decreases s.len(),
{
    if s.len() == 0 {
        0
    } else {
        mixed(hash_of(s.drop_last()), s.last())
    }
}

/// The number for a text that ends in `c`, from the number for the text in front of `c`.
pub closed spec fn mixed(h: u64, c: char) -> u64 {
    ((h as int * 31 + c as u32 as int) % 0x1_0000_0000_0000_0000) as u64
}

/// Computes the number under which `s` is filed.
pub fn hash_text(s: &String) -> (h: u64)
    ensures
        h == hash_of(s@),
{
    let mut h: u64 = 0;
    let mut it = s.as_str().chars();
    let ghost mut read: Seq<char> = Seq::empty();
    proof {
        assert(read + it.remaining() =~= s@);
    }
    loop
        invariant_except_break
            read + it.remaining() == s@,
            it.decrease() is Some,
            h == hash_of(read),
        ensures
            h == hash_of(s@),
        decreases it.decrease()->0,
    {
        let ghost rest = it.remaining();
        match it.next() {
            Some(c) => {
                proof {
                    assert(read.push(c).drop_last() =~= read);
                    assert(read.push(c) + it.remaining() =~= read + rest);
                    read = read.push(c);
                }
                h = ((h as u128 * 31 + c as u32 as u128) % 0x1_0000_0000_0000_0000) as u64;
            },
            None => {
                assert(read + rest =~= read);
                break ;
            },
        }
    }
    h
}

/// A list of distinct texts, in the order in which they were added.
pub struct TextIndex {
    items: Vec<String>,
    filed: HashMap<u64, Vec<usize>>,
}

impl TextIndex {
    /// The texts, in the order in which they were added.
    pub closed spec fn view(&self) -> Seq<Seq<char>> {
        views(self.items@)
    }

    /// No text stands twice in the list, and each is filed under its number.
    pub closed spec fn wf(&self) -> bool {
        &&& views(self.items@).no_duplicates()
        &&& forall|i: int|
            0 <= i < self.items@.len() ==> {
                let h = hash_of(#[trigger] self.items@[i]@);
                self.filed@.contains_key(h) && self.filed@[h]@.contains(i as usize)
            }
        &&& forall|h: u64, k: int|
            self.filed@.contains_key(h) && 0 <= k < self.filed@[h]@.len()
                ==> #[trigger] self.filed@[h]@[k] < self.items@.len()
    }

    /// A well-formed list holds no text twice.
    pub proof fn lemma_distinct(&self)
        requires
            self.wf(),
        ensures
            self@.no_duplicates(),
    {
    }

    /// The empty list.
    pub fn new() -> (r: Self)
        ensures
            r.wf(),
            r@ == Seq::<Seq<char>>::empty(),
    {
        let r = TextIndex { items: Vec::new(), filed: HashMap::new() };
        assert(r@ =~= Seq::<Seq<char>>::empty());
        r
    }

    /// The number of texts.
    pub fn len(&self) -> (n: usize)
        ensures
            n == self@.len(),
    {
        self.items.len()
    }

    /// The text at `i`.
    pub fn get(&self, i: usize) -> (s: &String)
        requires
            i < self@.len(),
        ensures
            s@ == self@[i as int],
    {
        &self.items[i]
    }

    /// Where `s` stands in the list, if it is in it.
    pub fn position(&self, s: &String) -> (r: Option<usize>)
        requires
            self.wf(),
        ensures
            match r {
                Some(i) => i < self@.len() && self@[i as int] == s@,
                None => !self@.contains(s@),
            },
    {
        let h = hash_text(s);
        let n = self.items.len();
        match self.filed.get(&h) {
            None => {
                proof {
                    if self@.contains(s@) {
                        let i = choose|i: int| 0 <= i < self@.len() && self@[i] == s@;
                        assert(self.items@[i]@ == s@);
                    }
                }
                None
            },
            Some(places) => {
                let mut k: usize = 0;
                while k < places.len()
                    invariant
                        k <= places@.len(),
                        self.wf(),
                        n == self.items@.len(),
                        h == hash_of(s@),
                        self.filed@.contains_key(h),
                        self.filed@[h] == *places,
                        forall|j: int| 0 <= j < k ==> self@[#[trigger] places@[j] as int] != s@,
                    decreases places@.len() - k,
                {
                    let at = places[k];
                    assert(self.filed@[h]@[k as int] < self.items@.len());
                    if same_text(&self.items[at], s) {
                        assert(self@[at as int] == s@);
                        return Some(at);
                    }
                    k += 1;
                }
                proof {
                    if self@.contains(s@) {
                        let i = choose|i: int| 0 <= i < self@.len() && self@[i] == s@;
                        assert(self.items@[i]@ == s@);
                        assert(places@.contains(i as usize));
                        let j = choose|j: int| 0 <= j < places@.len() && places@[j] == i as usize;
                        assert(self@[places@[j] as int] != s@);
                    }
                }
                None
            },
        }
    }

    /// Whether `s` is in the list.
    pub fn contains(&self, s: &String) -> (r: bool)
        requires
            self.wf(),
        ensures
            r == self@.contains(s@),
    {
        self.position(s).is_some()
    }

    /// Adds a text that is not in the list yet.
    pub fn push(&mut self, s: String)
        requires
            old(self).wf(),
            !old(self)@.contains(s@),
        ensures
            final(self).wf(),
            final(self)@ == old(self)@.push(s@),
    {
        let ghost before = *self;
        let h = hash_text(&s);
        let n = self.items.len();
        let mut places = match self.filed.remove(&h) {
            Some(places) => places,
            None => Vec::new(),
        };
        let ghost was = places@;
        places.push(n);
        self.filed.insert(h, places);
        self.items.push(s);
        proof {
            assert(views(self.items@) =~= views(before.items@).push(s@));
            assert(self.filed@ =~= before.filed@.insert(h, places));
            assert(places@ =~= was.push(n));
            assert forall|j: int| 0 <= j < was.len() implies was[j] < n by {
                if before.filed@.contains_key(h) {
                    assert(before.filed@[h]@[j] < n);
                }
            }
            assert(views(self.items@).no_duplicates()) by {
                let all = views(self.items@);
                assert forall|i: int, j: int|
                    0 <= i < all.len() && 0 <= j < all.len() && i != j implies all[i] != all[j] by {
                    if i < n && j < n {
                        assert(views(before.items@)[i] != views(before.items@)[j]);
                    } else if i < n {
                        assert(views(before.items@)[i] == all[i]);
                        assert(views(before.items@).contains(all[i]));
                    } else {
                        assert(views(before.items@)[j] == all[j]);
                        assert(views(before.items@).contains(all[j]));
                    }
                }
            }
            assert forall|i: int| 0 <= i < self.items@.len() implies {
                let g = hash_of(#[trigger] self.items@[i]@);
                self.filed@.contains_key(g) && self.filed@[g]@.contains(i as usize)
            } by {
                let g = hash_of(self.items@[i]@);
                if i < n {
                    assert(self.items@[i] == before.items@[i]);
                    assert(before.filed@.contains_key(g) && before.filed@[g]@.contains(i as usize));
                    if g == h {
                        let j = choose|j: int| 0 <= j < was.len() && was[j] == i as usize;
                        assert(places@[j] == i as usize);
                    }
                } else {
                    assert(places@[was.len() as int] == n);
                }
            }
            assert forall|g: u64, k: int|
                self.filed@.contains_key(g) && 0 <= k < self.filed@[g]@.len()
                    implies #[trigger] self.filed@[g]@[k] < self.items@.len() by {
                if g == h {
                    if k < was.len() {
                        assert(places@[k] == was[k]);
                    }
                } else {
                    assert(before.filed@[g]@[k] < n);
                }
            }
        }
    }

    /// Adds a text unless it is in the list already, and says whether it was added.
    pub fn insert(&mut self, s: String) -> (added: bool)
        requires
            old(self).wf(),
        ensures
            final(self).wf(),
            added == !old(self)@.contains(s@),
            final(self)@ == if added {
                old(self)@.push(s@)
            } else {
                old(self)@
            },
    {
        if self.contains(&s) {
            false
        } else {
            self.push(s);
            true
        }
    }
}

} // verus!
