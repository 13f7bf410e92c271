//! The visited set: every URL ever admitted to the crawl, with atomic
//! check-and-insert so that no URL is admitted twice.

use vstd::prelude::*;

verus! {

/// The set of URLs already seen (enqueued or fetched). `try_admit` is its
/// only mutating operation: one check-and-insert, so that of any sequence of
/// admissions of the same URL exactly the first succeeds.
pub struct VisitedSet {
    urls: Vec<String>,
}

impl View for VisitedSet {
    type V = Set<Seq<char>>;

    closed spec fn view(&self) -> Set<Seq<char>> {
        Set::new(|s: Seq<char>| exists|i: int| 0 <= i < self.urls@.len() && self.urls@[i]@ == s)
    }
}

impl VisitedSet {
    /// How many URLs were admitted so far.
    pub closed spec fn count(&self) -> nat {
        self.urls@.len()
    }

    /// A fresh, empty visited set.
    pub fn new() -> (r: VisitedSet)
        ensures
            r@ == Set::<Seq<char>>::empty(),
            r.count() == 0,
    {
        let r = VisitedSet { urls: Vec::new() };
        proof {
            assert(r@ =~= Set::<Seq<char>>::empty());
        }
        r
    }

    /// Whether `url` was admitted already.
    pub fn contains(&self, url: &String) -> (r: bool)
        ensures
            r == self@.contains(url@),
    {
        let mut i: usize = 0;
        while i < self.urls.len()
            invariant
                i <= self.urls@.len(),
                forall|k: int| 0 <= k < i ==> self.urls@[k]@ != url@,
            decreases self.urls@.len() - i,
        {
            if self.urls[i].eq(url) {
                assert(self@.contains(url@));
                return true;
            }
            i += 1;
        }
        false
    }

    /// Atomic check-and-insert: admits `url` and reports true exactly when it
    /// was absent; reports false and changes nothing when it was present.
    pub fn try_admit(&mut self, url: &String) -> (admitted: bool)
        ensures
            admitted == !old(self)@.contains(url@),
            final(self)@ == old(self)@.insert(url@),
            final(self).count() == old(self).count() + (if admitted {
                1int
            } else {
                0int
            }),
    {
        if self.contains(url) {
            proof {
                assert(self@ =~= self@.insert(url@));
            }
            false
        } else {
            let ghost before = self.urls@;
            self.urls.push(url.clone());
            proof {
                assert forall|s: Seq<char>| self@.contains(s) implies old(self)@.insert(
                    url@,
                ).contains(s) by {
                    let i = choose|i: int| 0 <= i < self.urls@.len() && self.urls@[i]@ == s;
                    if i < before.len() {
                        assert(old(self)@.contains(s));
                    }
                }
                assert forall|s: Seq<char>| old(self)@.insert(url@).contains(s) implies self@.contains(
                    s,
                ) by {
                    if s == url@ {
                        assert(self.urls@[before.len() as int]@ == s);
                    } else {
                        let i = choose|i: int| 0 <= i < before.len() && before[i]@ == s;
                        assert(self.urls@[i]@ == s);
                    }
                }
                assert(final(self)@ =~= old(self)@.insert(url@));
            }
            true
        }
    }

    /// How many URLs were admitted so far.
    pub fn len(&self) -> (n: usize)
        ensures
            n == self.count(),
    {
        self.urls.len()
    }
}

} // verus!
