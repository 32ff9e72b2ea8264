use vstd::prelude::*;

use crate::addr::Addr;

verus! {

/// How many addresses a cache remembers unless told otherwise.
pub const DEFAULT_MAX_KNOWN: usize = 5000;

/// The addresses already exchanged with one peer, least recently seen
/// first. Inserting a known address makes it the most recent; once full, a
/// new address pushes out the least recent.
#[derive(Debug)]
pub struct AddrKnown {
    pub max_known: usize,
    pub addrs: Vec<Addr>,
}

/// The cache after inserting `a`.
pub open spec fn known_insert(s: Seq<Addr>, max: nat, a: Addr) -> Seq<Addr> {
    if s.contains(a) {
        let i = choose|i: int| 0 <= i < s.len() && s[i] == a;
        s.remove(i).push(a)
    } else if s.len() < max {
        s.push(a)
    } else {
        s.push(a).drop_first()
    }
}

/// `a` is among the `d` most recent entries of `s`.
pub open spec fn near(s: Seq<Addr>, a: Addr, d: int) -> bool {
    exists|p: int| 0 <= p < s.len() && s[p] == a && s.len() - p <= d
}

/// What one insertion does: the inserted address becomes the most recent,
/// and every other entry that was not the least recent of a full cache stays,
/// at most one place further from the most recent.
pub proof fn lemma_insert(s: Seq<Addr>, max: nat, x: Addr)
    requires
        0 < max,
        s.len() <= max,
        s.no_duplicates(),
    ensures
        known_insert(s, max, x).len() <= max,
        known_insert(s, max, x).no_duplicates(),
        near(known_insert(s, max, x), x, 1),
        known_insert(s, max, x).contains(x),
        forall|e: Addr| #[trigger] known_insert(s, max, x).contains(e) ==> s.contains(e) || e == x,
        forall|p: int| 0 <= p < s.len() && s.len() - p < max
            ==> near(known_insert(s, max, x), #[trigger] s[p], s.len() - p + 1),
{
    let t = known_insert(s, max, x);
    if s.contains(x) {
        let i = choose|i: int| 0 <= i < s.len() && s[i] == x;
        let r = s.remove(i);
        assert(t == r.push(x));
        assert forall|j: int| 0 <= j < r.len() implies r[j] == if j < i { s[j] } else { s[j + 1] } by {}
        assert(!r.contains(x)) by {
            if r.contains(x) {
                let j = choose|j: int| 0 <= j < r.len() && r[j] == x;
            }
        }
        assert forall|e: Addr| #[trigger] t.contains(e) implies s.contains(e) || e == x by {
            let j = choose|j: int| 0 <= j < t.len() && t[j] == e;
            if j < r.len() {
                if j < i {
                    assert(s[j] == e);
                } else {
                    assert(s[j + 1] == e);
                }
            }
        }
        assert forall|p: int| 0 <= p < s.len() && s.len() - p < max
            implies near(t, #[trigger] s[p], s.len() - p + 1) by {
            if p < i {
                assert(t[p] == s[p]);
            } else if p > i {
                assert(t[p - 1] == s[p]);
            } else {
                assert(t[t.len() - 1] == s[p]);
            }
        }
        assert(t[t.len() - 1] == x);
    } else if s.len() < max {
        assert forall|e: Addr| #[trigger] t.contains(e) implies s.contains(e) || e == x by {
            let j = choose|j: int| 0 <= j < t.len() && t[j] == e;
            if j < s.len() {
                assert(s[j] == e);
            }
        }
        assert forall|p: int| 0 <= p < s.len() && s.len() - p < max
            implies near(t, #[trigger] s[p], s.len() - p + 1) by {
            assert(t[p] == s[p]);
        }
        assert(t[t.len() - 1] == x);
    } else {
        let u = s.push(x);
        assert forall|e: Addr| #[trigger] t.contains(e) implies s.contains(e) || e == x by {
            let j = choose|j: int| 0 <= j < t.len() && t[j] == e;
            assert(u[j + 1] == e);
            if j + 1 < s.len() {
                assert(s[j + 1] == e);
            }
        }
        assert forall|p: int| 0 <= p < s.len() && s.len() - p < max
            implies near(t, #[trigger] s[p], s.len() - p + 1) by {
            assert(t[p - 1] == s[p]);
        }
        assert(t[t.len() - 1] == x);
    }
}

/// An inserted address is known afterwards.
pub proof fn lemma_insert_contains(s: Seq<Addr>, max: nat, a: Addr)
    requires
        0 < max,
        s.len() <= max,
        s.no_duplicates(),
    ensures
        known_insert(s, max, a).contains(a),
{
    lemma_insert(s, max, a);
}

/// The cache after inserting each of `addrs` in turn.
pub open spec fn known_fold(s: Seq<Addr>, max: nat, addrs: Seq<Addr>) -> Seq<Addr>
    decreases addrs.len(),
{
    if addrs.len() == 0 {
        s
    } else {
        known_insert(known_fold(s, max, addrs.drop_last()), max, addrs.last())
    }
}

impl AddrKnown {
    pub open spec fn wf(&self) -> bool {
        &&& 0 < self.max_known
        &&& self.addrs@.len() <= self.max_known
        &&& self.addrs@.no_duplicates()
    }

    pub open spec fn view(&self) -> Seq<Addr> {
        self.addrs@
    }

    /// An empty cache that remembers up to `max_known` addresses.
    pub fn new(max_known: usize) -> (r: AddrKnown)
        requires
            max_known > 0,
        ensures
            r.wf(),
            r@ == Seq::<Addr>::empty(),
            r.max_known == max_known,
    {
        AddrKnown { max_known, addrs: Vec::new() }
    }

    pub fn contains(&self, a: &Addr) -> (r: bool)
        ensures
            r == self@.contains(*a),
    {
        let mut i: usize = 0;
        while i < self.addrs.len()
            invariant
                0 <= i <= self.addrs@.len(),
                forall|k: int| 0 <= k < i ==> self.addrs@[k] != *a,
            decreases self.addrs@.len() - i,
        {
            if self.addrs[i] == *a {
                return true;
            }
            i = i + 1;
        }
        false
    }

    /// Remembers `a` as the most recent address.
    pub fn insert(&mut self, a: &Addr)
        requires
            old(self).wf(),
        ensures
            final(self).wf(),
            final(self).max_known == old(self).max_known,
            final(self)@ == known_insert(old(self)@, old(self).max_known as nat, *a),
            final(self)@.contains(*a),
    {
        proof {
            lemma_insert(self@, self.max_known as nat, *a);
        }
        let mut i: usize = 0;
        while i < self.addrs.len()
            invariant
                0 <= i <= self.addrs@.len(),
                self.addrs == old(self).addrs,
                self.max_known == old(self).max_known,
                self.wf(),
                old(self)@.len() <= old(self).max_known,
                old(self)@.no_duplicates(),
                known_insert(old(self)@, old(self).max_known as nat, *a).len() <= old(self).max_known,
                known_insert(old(self)@, old(self).max_known as nat, *a).no_duplicates(),
                known_insert(old(self)@, old(self).max_known as nat, *a).contains(*a),
                forall|k: int| 0 <= k < i ==> self.addrs@[k] != *a,
            decreases self.addrs@.len() - i,
        {
            if self.addrs[i] == *a {
                proof {
                    let s = old(self)@;
                    let j = choose|j: int| 0 <= j < s.len() && s[j] == *a;
                    assert(s[i as int] == *a);
                    assert(s.no_duplicates());
                    if j != i as int {
                        assert(s[j] != s[i as int]);
                    }
                    assert(j == i as int);
                }
                self.addrs.remove(i);
                self.addrs.push(*a);
                return;
            }
            i = i + 1;
        }
        self.addrs.push(*a);
        if self.addrs.len() > self.max_known {
            self.addrs.remove(0);
        }
    }

    /// Remembers each of `addrs` in turn. Afterwards all of `addrs` are known
    /// when they are no more than the cache holds, and so is every earlier
    /// entry that was recent enough not to be pushed out.
    pub fn extend(&mut self, addrs: &Vec<Addr>)
        requires
            old(self).wf(),
        ensures
            final(self).wf(),
            final(self).max_known == old(self).max_known,
            final(self)@ == known_fold(old(self)@, old(self).max_known as nat, addrs@),
            forall|a: Addr| #[trigger] final(self)@.contains(a) ==> old(self)@.contains(a) || addrs@.contains(a),
            addrs@.len() <= old(self).max_known ==> forall|i: int| 0 <= i < addrs@.len()
                ==> final(self)@.contains(#[trigger] addrs@[i]),
            forall|p: int| 0 <= p < old(self)@.len() && old(self)@.len() - p + addrs@.len() <= old(self).max_known
                ==> final(self)@.contains(#[trigger] old(self)@[p]),
            old(self)@.len() + addrs@.len() <= old(self).max_known ==>
                forall|a: Addr| old(self)@.contains(a) ==> #[trigger] final(self)@.contains(a),
    {
        let ghost start = self@;
        let ghost max = self.max_known as int;
        let mut i: usize = 0;
        while i < addrs.len()
            invariant
                self.wf(),
                self.max_known == old(self).max_known,
                max == self.max_known as int,
                start == old(self)@,
                0 <= i <= addrs@.len(),
                self@ == known_fold(start, max as nat, addrs@.subrange(0, i as int)),
                forall|a: Addr| #[trigger] self@.contains(a) ==> start.contains(a) || addrs@.contains(a),
                forall|p: int| 0 <= p < start.len() && start.len() - p + addrs@.len() <= max
                    ==> near(self@, #[trigger] start[p], start.len() - p + i),
                addrs@.len() <= max ==> forall|k: int| 0 <= k < i ==> near(self@, #[trigger] addrs@[k], i - k),
            decreases addrs@.len() - i,
        {
            let ghost before = self@;
            let ghost x = addrs@[i as int];
            proof {
                lemma_insert(before, max as nat, x);
            }
            self.insert(&addrs[i]);
            proof {
                let sub = addrs@.subrange(0, i + 1);
                assert(sub.drop_last() == addrs@.subrange(0, i as int));
                assert(sub.last() == x);
                assert forall|a: Addr| #[trigger] self@.contains(a) implies start.contains(a) || addrs@.contains(a) by {
                    if a == x {
                        assert(addrs@[i as int] == a);
                    } else {
                        assert(before.contains(a));
                    }
                }
                assert forall|p: int| 0 <= p < start.len() && start.len() - p + addrs@.len() <= max
                    implies near(self@, #[trigger] start[p], start.len() - p + i + 1) by {
                    assert(near(before, start[p], start.len() - p + i));
                    let q = choose|q: int| 0 <= q < before.len() && before[q] == start[p]
                        && before.len() - q <= start.len() - p + i;
                    assert(before.len() - q < max);
                    assert(near(self@, before[q], before.len() - q + 1));
                }
                if addrs@.len() <= max {
                    assert forall|k: int| 0 <= k < i + 1 implies near(self@, #[trigger] addrs@[k], i + 1 - k) by {
                        if k < i {
                            assert(near(before, addrs@[k], i - k));
                            let q = choose|q: int| 0 <= q < before.len() && before[q] == addrs@[k]
                                && before.len() - q <= i - k;
                            assert(before.len() - q < max);
                            assert(near(self@, before[q], before.len() - q + 1));
                        } else {
                            assert(near(self@, x, 1));
                        }
                    }
                }
            }
            i = i + 1;
        }
        proof {
            assert(addrs@.subrange(0, addrs@.len() as int) == addrs@);
            assert forall|p: int| 0 <= p < start.len() && start.len() - p + addrs@.len() <= max
                implies self@.contains(#[trigger] start[p]) by {
                let q = choose|q: int| 0 <= q < self@.len() && self@[q] == start[p] && self@.len() - q <= start.len() - p + i;
            }
            if addrs@.len() <= max {
                assert forall|k: int| 0 <= k < addrs@.len() implies self@.contains(#[trigger] addrs@[k]) by {
                    assert(near(self@, addrs@[k], i - k));
                    let q = choose|q: int| 0 <= q < self@.len() && self@[q] == addrs@[k] && self@.len() - q <= i - k;
                }
            }
            if start.len() + addrs@.len() <= max {
                assert forall|a: Addr| start.contains(a) implies #[trigger] self@.contains(a) by {
                    let p = choose|p: int| 0 <= p < start.len() && start[p] == a;
                    assert(self@.contains(start[p]));
                }
            }
        }
    }
}

} // verus!
