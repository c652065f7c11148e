//! An unordered collection of distinct numbers, with subset enumeration,
//! a winning-triple check, and a random draw.

use vstd::prelude::*;
use vstd::seq_lib::*;
use vstd::set_lib::*;

verus! {

/// Number of `k`-element subsets of an `m`-element set, by Pascal's rule.
pub open spec fn binom(m: nat, k: nat) -> nat
    decreases m,
{
    if k == 0 {
        1
    } else if m == 0 {
        0
    } else {
        binom((m - 1) as nat, k) + binom((m - 1) as nat, (k - 1) as nat)
    }
}

/// A set cannot have more subsets of size `k` than elements allow: above the
/// set's size the count is zero.
pub proof fn lemma_binom_above(m: nat, k: nat)
    requires
        m < k,
    ensures
        binom(m, k) == 0,
    decreases m,
{
    if m > 0 {
        lemma_binom_above((m - 1) as nat, k);
        lemma_binom_above((m - 1) as nat, (k - 1) as nat);
    }
}

/// Relies on `rand::random`: a value of the requested type, drawn from the
/// thread-local generator.  Nothing is known of which value comes back.
pub assume_specification<T>[ rand::random::<T> ]() -> (r: T)
    where
        rand::distributions::Standard: rand::distributions::Distribution<T>,
;

/// Everything `choose_n` promises of an enumeration `r` of the `k`-element
/// subsets of `src`: each entry is a well-formed `k`-element subset of
/// `src`, no two entries hold the same members, and every `k`-element subset
/// of `src` appears.
pub open spec fn enumerates_k_subsets(r: Seq<Numbers>, src: Set<u64>, k: nat) -> bool {
    &&& forall|i: int|
        0 <= i < r.len() ==> (#[trigger] r[i]).wf() && r[i]@.subset_of(src) && r[i]@.len() == k
    &&& forall|i: int, j: int| 0 <= i < j < r.len() ==> r[i]@ != r[j]@
    &&& forall|s: Set<u64>|
        #[trigger] s.subset_of(src) && s.finite() && s.len() == k ==> exists|i: int|
            0 <= i < r.len() && r[i]@ == s
}

/// `a`, `b` and `c` are three members of `s`, named in ascending order,
/// summing to exactly 15.
pub open spec fn is_winning_triple(s: Set<u64>, a: u64, b: u64, c: u64) -> bool {
    s.contains(a) && s.contains(b) && s.contains(c) && a < b && b < c && a + b + c == 15
}

/// Some three members of `s` sum to exactly 15.
pub open spec fn has_winning_triple(s: Set<u64>) -> bool {
    exists|a: u64, b: u64, c: u64| is_winning_triple(s, a, b, c)
}

/// The members of `t` are exactly three and sum to exactly 15.
pub open spec fn wins(t: Numbers) -> bool {
    t.ordered().len() == 3 && t.ordered()[0] + t.ordered()[1] + t.ordered()[2] == 15
}

/// A collection of distinct `u64` values, kept in strictly ascending order.
pub struct Numbers {
    elems: Vec<u64>,
}

impl View for Numbers {
    type V = Set<u64>;

    closed spec fn view(&self) -> Set<u64> {
        self.elems@.to_set()
    }
}

impl Numbers {
    /// The members in strictly ascending order.
    pub closed spec fn ordered(&self) -> Seq<u64> {
        self.elems@
    }

    /// The members are strictly sorted, so no value occurs twice.
    pub closed spec fn wf(&self) -> bool {
        forall|i: int, j: int|
            0 <= i < j < self.elems@.len() ==> self.elems@[i] < self.elems@[j]
    }

    /// A well-formed collection has as many members as stored values,
    /// membership agrees between the set and the ordered sequence, and the
    /// sequence is strictly ascending.
    pub proof fn lemma_wf_facts(&self)
        requires
            self.wf(),
        ensures
            self.ordered().no_duplicates(),
            self@.len() == self.ordered().len(),
            self@.finite(),
            forall|x: u64| #[trigger] self@.contains(x) <==> self.ordered().contains(x),
            forall|i: int, j: int|
                0 <= i < j < self.ordered().len() ==> self.ordered()[i] < self.ordered()[j],
    {
        assert(self.elems@.no_duplicates());
        self.elems@.unique_seq_to_set();
        seq_to_set_is_finite(self.elems@);
    }

    /// An empty collection.
    pub fn new() -> (r: Numbers)
        ensures
            r.wf(),
            r@ == Set::<u64>::empty(),
            r.ordered() == Seq::<u64>::empty(),
    {
        let r = Numbers { elems: Vec::new() };
        proof {
            assert(r.elems@.to_set() =~= Set::<u64>::empty());
            assert(r.elems@ =~= Seq::<u64>::empty());
        }
        r
    }

    /// Adds `e` to the collection; `e` must not already be present.
    #[verifier::loop_isolation(false)]
    pub fn insert(&mut self, e: u64)
        requires
            old(self).wf(),
            !old(self)@.contains(e),
        ensures
            final(self).wf(),
            final(self)@ == old(self)@.insert(e),
            final(self).ordered().len() == old(self).ordered().len() + 1,
    {
        let mut i: usize = 0;
        while i < self.elems.len() && self.elems[i] < e
            invariant
                i <= self.elems@.len(),
                forall|j: int| 0 <= j < i ==> self.elems@[j] < e,
            decreases self.elems@.len() - i,
        {
            i += 1;
        }
        proof {
            if i < self.elems@.len() {
                assert(self.elems@.contains(self.elems@[i as int]));
                assert(self.elems@[i as int] != e);
            }
        }
        let ghost s = self.elems@;
        self.elems.insert(i, e);
        proof {
            s.insert_ensures(i as int, e);
            lemma_insert_to_set(s, i as int, e);
            assert forall|p: int, q: int|
                0 <= p < q < self.elems@.len() implies self.elems@[p] < self.elems@[q] by {
                if q < i {
                    assert(self.elems@[p] == s[p]);
                    assert(self.elems@[q] == s[q]);
                } else if p > i {
                    assert(self.elems@[p] == s[p - 1]);
                    assert(self.elems@[q] == s[q - 1]);
                } else if p < i && q > i {
                    assert(self.elems@[p] == s[p]);
                    assert(self.elems@[q] == s[q - 1]);
                    assert(s[p] < e);
                } else if p == i {
                    assert(self.elems@[q] == s[q - 1]);
                } else if q == i {
                    assert(self.elems@[p] == s[p]);
                }
            };
        }
    }

    /// Removes `e` if present, reporting whether it was present.
    #[verifier::loop_isolation(false)]
    pub fn remove(&mut self, e: u64) -> (r: bool)
        requires
            old(self).wf(),
        ensures
            final(self).wf(),
            r == old(self)@.contains(e),
            final(self)@ == old(self)@.remove(e),
            r ==> final(self).ordered().len() == old(self).ordered().len() - 1,
            !r ==> final(self).ordered() == old(self).ordered(),
    {
        let mut i: usize = 0;
        while i < self.elems.len()
            invariant
                i <= self.elems@.len(),
                self.elems@ == old(self).elems@,
                forall|j: int| 0 <= j < i ==> self.elems@[j] != e,
            decreases self.elems@.len() - i,
        {
            if self.elems[i] == e {
                let ghost s = self.elems@;
                self.elems.remove(i);
                proof {
                    old(self).lemma_wf_facts();
                    assert(s.contains(e));
                    s.remove_ensures(i as int);
                    lemma_remove_to_set(s, i as int);
                    assert forall|p: int, q: int|
                        0 <= p < q < self.elems@.len() implies self.elems@[p] < self.elems@[q] by {
                        if q < i {
                            assert(self.elems@[p] == s[p]);
                            assert(self.elems@[q] == s[q]);
                        } else if p >= i {
                            assert(self.elems@[p] == s[p + 1]);
                            assert(self.elems@[q] == s[q + 1]);
                        } else {
                            assert(self.elems@[p] == s[p]);
                            assert(self.elems@[q] == s[q + 1]);
                        }
                    };
                }
                return true;
            }
            i += 1;
        }
        proof {
            old(self).lemma_wf_facts();
            assert(!self.elems@.contains(e));
            assert(!self@.contains(e));
            assert(self@.remove(e) =~= self@);
        }
        false
    }

    /// Reports whether no number is held.
    pub fn is_empty(&self) -> (r: bool)
        requires
            self.wf(),
        ensures
            r <==> self@.len() == 0,
            r <==> self.ordered().len() == 0,
    {
        proof {
            self.lemma_wf_facts();
        }
        self.elems.len() == 0
    }

    /// The members in ascending order, as a plain vector.
    #[verifier::loop_isolation(false)]
    pub fn elements(&self) -> (r: Vec<u64>)
        ensures
            r@ == self.ordered(),
    {
        let mut r: Vec<u64> = Vec::new();
        let mut i: usize = 0;
        while i < self.elems.len()
            invariant
                i <= self.elems@.len(),
                r@ == self.elems@.subrange(0, i as int),
            decreases self.elems@.len() - i,
        {
            r.push(self.elems[i]);
            proof {
                assert(self.elems@.subrange(0, i + 1 as int) =~= self.elems@.subrange(
                    0,
                    i as int,
                ).push(self.elems@[i as int]));
            }
            i += 1;
        }
        proof {
            assert(self.elems@.subrange(0, self.elems@.len() as int) =~= self.elems@);
        }
        r
    }

    /// One member picked at random; must not be called on an empty
    /// collection.  Which member comes back is not specified.  The draw can
    /// abort if the operating system's entropy source fails at a thread's
    /// first use; no input avoids or causes that.
    pub fn random_choice(&self) -> (r: u64)
        requires
            self.wf(),
            self@.len() > 0,
        ensures
            self@.contains(r),
    {
        proof {
            self.lemma_wf_facts();
        }
        let i: usize = rand::random::<usize>() % self.elems.len();
        let r = self.elems[i];
        proof {
            assert(self.elems@.contains(self.elems@[i as int]));
        }
        r
    }

    /// The collection without its largest member.
    #[verifier::loop_isolation(false)]
    fn without_last(&self) -> (r: Numbers)
        requires
            self.wf(),
            self.ordered().len() > 0,
        ensures
            r.wf(),
            r.ordered() == self.ordered().drop_last(),
            !r@.contains(self.ordered().last()),
            self@ == r@.insert(self.ordered().last()),
            r@ == self@.remove(self.ordered().last()),
            r@.len() == self@.len() - 1,
    {
        let mut v: Vec<u64> = Vec::new();
        let mut i: usize = 0;
        while i < self.elems.len() - 1
            invariant
                i <= self.elems@.len() - 1,
                v@ == self.elems@.subrange(0, i as int),
            decreases self.elems@.len() - 1 - i,
        {
            v.push(self.elems[i]);
            proof {
                assert(self.elems@.subrange(0, i + 1 as int) =~= self.elems@.subrange(
                    0,
                    i as int,
                ).push(self.elems@[i as int]));
            }
            i += 1;
        }
        let r = Numbers { elems: v };
        proof {
            let ghost e = self.elems@.last();
            assert(r.elems@ =~= self.elems@.drop_last());
            assert forall|x: u64| #[trigger] r.elems@.to_set().contains(x) implies x != e by {
                let j = choose|j: int| 0 <= j < r.elems@.len() && r.elems@[j] == x;
                assert(self.elems@[j] < self.elems@[self.elems@.len() - 1]);
            };
            r.elems@.lemma_push_to_set_commute(e);
            assert(r.elems@.push(e) =~= self.elems@);
            assert(self@ =~= r@.insert(e));
            assert(r@ =~= self@.remove(e));
            self.lemma_wf_facts();
            r.lemma_wf_facts();
        }
        r
    }

    /// Adds `e`, already known to exceed every member.
    fn push_greater(&mut self, e: u64)
        requires
            old(self).wf(),
            forall|x: u64| #[trigger] old(self)@.contains(x) ==> x < e,
        ensures
            final(self).wf(),
            final(self).ordered() == old(self).ordered().push(e),
            final(self)@ == old(self)@.insert(e),
            final(self)@.len() == old(self)@.len() + 1,
    {
        proof {
            self.lemma_wf_facts();
        }
        self.elems.push(e);
        proof {
            let ghost s = old(self).elems@;
            s.lemma_push_to_set_commute(e);
            assert(self.elems@ == s.push(e));
            assert forall|p: int, q: int|
                0 <= p < q < self.elems@.len() implies self.elems@[p] < self.elems@[q] by {
                if q == s.len() {
                    assert(self.elems@[p] == s[p]);
                    assert(s.contains(s[p]));
                    assert(old(self)@.contains(s[p]));
                } else {
                    assert(self.elems@[p] == s[p]);
                    assert(self.elems@[q] == s[q]);
                }
            };
            assert(!old(self)@.contains(e));
        }
    }

    /// All subsets holding exactly `k` members, each exactly once, by the
    /// recursion on the largest member: a subset either leaves it out or
    /// takes it.
    #[verifier::loop_isolation(false)]
    fn combos(&self, k: u64) -> (r: Vec<Numbers>)
        requires
            self.wf(),
        ensures
            enumerates_k_subsets(r@, self@, k as nat),
            r@.len() == binom(self@.len(), k as nat),
        decreases self.ordered().len(),
    {
        proof {
            self.lemma_wf_facts();
        }
        if k == 0 {
            let mut r: Vec<Numbers> = Vec::new();
            r.push(Numbers::new());
            proof {
                assert forall|s: Set<u64>|
                    #[trigger] s.subset_of(self@) && s.finite() && s.len()
                        == 0 implies exists|i: int| 0 <= i < r@.len() && r@[i]@ == s by {
                    s.lemma_len0_is_empty();
                    assert(r@[0]@ == s);
                };
            }
            return r;
        }
        if (self.elems.len() as u64) < k {
            let r: Vec<Numbers> = Vec::new();
            proof {
                lemma_binom_above(self@.len(), k as nat);
                assert forall|s: Set<u64>|
                    #[trigger] s.subset_of(self@) && s.finite() && s.len()
                        == k as nat implies exists|i: int| 0 <= i < r@.len() && r@[i]@ == s by {
                    lemma_len_subset(s, self@);
                    assert(false);
                };
            }
            return r;
        }
        // At least one member and k >= 1: split on the largest member.
        let e = self.elems[self.elems.len() - 1];
        let t = self.without_last();
        let mut r = t.combos(k);
        let b = t.combos(k - 1);
        let ghost a_seq = r@;
        let ghost b_seq = b@;
        proof {
            t.lemma_wf_facts();
            assert forall|x: u64| #[trigger] t@.contains(x) implies x < e by {
                let j = choose|j: int| 0 <= j < t.ordered().len() && t.ordered()[j] == x;
                assert(self.elems@[j] < self.elems@[self.elems@.len() - 1]);
            };
        }
        let mut i: usize = 0;
        while i < b.len()
            invariant
                i <= b_seq.len(),
                r@.len() == a_seq.len() + i,
                forall|j: int| 0 <= j < a_seq.len() ==> r@[j] == a_seq[j],
                forall|j: int|
                    0 <= j < i ==> (#[trigger] r@[a_seq.len() + j]).wf()
                        && r@[a_seq.len() + j]@ == b_seq[j]@.insert(e)
                        && r@[a_seq.len() + j]@.len() == k as nat,
            decreases b_seq.len() - i,
        {
            let mut w = (&b[i]).duplicate();
            proof {
                assert(b_seq[i as int]@.subset_of(t@));
                assert forall|x: u64| #[trigger] w@.contains(x) implies x < e by {
                    assert(t@.contains(x));
                };
                b_seq[i as int].lemma_wf_facts();
                assert(!w@.contains(e));
            }
            w.push_greater(e);
            r.push(w);
            i += 1;
        }
        proof {
            let ghost m = self@.len();
            assert(t@.len() == m - 1);
            assert(r@.len() == binom((m - 1) as nat, k as nat) + binom(
                (m - 1) as nat,
                (k - 1) as nat,
            ));
            assert(m > 0) by {
                assert(self@.contains(e)) by {
                    assert(self.elems@.contains(self.elems@[self.elems@.len() - 1]));
                };
            };
            assert(r@.len() == binom(m, k as nat));
            assert forall|ii: int|
                0 <= ii < r@.len() implies (#[trigger] r@[ii]).wf() && r@[ii]@.subset_of(self@)
                && r@[ii]@.len() == k as nat by {
                if ii < a_seq.len() {
                    assert(r@[ii] == a_seq[ii]);
                    assert(a_seq[ii]@.subset_of(t@));
                } else {
                    let j = ii - a_seq.len();
                    assert(r@[a_seq.len() + j].wf());
                    assert(r@[a_seq.len() + j]@ == b_seq[j]@.insert(e));
                    assert(r@[a_seq.len() + j]@.len() == k as nat);
                    assert(ii == a_seq.len() + j);
                    assert(b_seq[j]@.subset_of(t@));
                }
            };
            assert forall|ii: int, jj: int| 0 <= ii < jj < r@.len() implies r@[ii]@ != r@[jj]@ by {
                if jj < a_seq.len() {
                    assert(r@[ii] == a_seq[ii]);
                    assert(r@[jj] == a_seq[jj]);
                } else if ii >= a_seq.len() {
                    let pi = ii - a_seq.len();
                    let pj = jj - a_seq.len();
                    assert(r@[a_seq.len() + pi]@ == b_seq[pi]@.insert(e));
                    assert(r@[a_seq.len() + pj]@ == b_seq[pj]@.insert(e));
                    if r@[ii]@ == r@[jj]@ {
                        assert(b_seq[pi]@.subset_of(t@));
                        assert(b_seq[pj]@.subset_of(t@));
                        assert(!b_seq[pi]@.contains(e));
                        assert(!b_seq[pj]@.contains(e));
                        assert(b_seq[pi]@ =~= b_seq[pi]@.insert(e).remove(e));
                        assert(b_seq[pj]@ =~= b_seq[pj]@.insert(e).remove(e));
                        assert(b_seq[pi]@ == b_seq[pj]@);
                        assert(false);
                    }
                } else {
                    let pj = jj - a_seq.len();
                    assert(r@[a_seq.len() + pj]@ == b_seq[pj]@.insert(e));
                    assert(r@[jj]@.contains(e));
                    assert(a_seq[ii]@.subset_of(t@));
                    if r@[ii]@ == r@[jj]@ {
                        assert(t@.contains(e));
                        assert(false);
                    }
                }
            };
            assert forall|s: Set<u64>|
                #[trigger] s.subset_of(self@) && s.finite() && s.len()
                    == k as nat implies exists|i2: int| 0 <= i2 < r@.len() && r@[i2]@ == s by {
                if s.contains(e) {
                    let s0 = s.remove(e);
                    assert forall|x: u64| #[trigger] s0.contains(x) implies t@.contains(x) by {
                        assert(self@.contains(x));
                        assert(t@.insert(e).contains(x));
                    };
                    assert(s0.subset_of(t@));
                    assert(s0.finite());
                    assert(s0.len() == (k - 1) as nat);
                    let j = choose|j: int| 0 <= j < b_seq.len() && b_seq[j]@ == s0;
                    assert(r@[a_seq.len() + j]@ == b_seq[j]@.insert(e));
                    assert(r@[a_seq.len() + j]@ == s0.insert(e));
                    assert(s0.insert(e) =~= s);
                    assert(r@[a_seq.len() + j]@ == s);
                } else {
                    assert forall|x: u64| #[trigger] s.contains(x) implies t@.contains(x) by {
                        assert(self@.contains(x));
                        assert(t@.insert(e).contains(x));
                    };
                    assert(s.subset_of(t@));
                    let j = choose|j: int| 0 <= j < a_seq.len() && a_seq[j]@ == s;
                    assert(r@[j]@ == s);
                }
            };
        }
        r
    }

    /// Every subset holding exactly `n` members.  For an `n` of zero the
    /// enumeration is empty; otherwise each `n`-member subset of the
    /// collection appears exactly once, so the count is the binomial
    /// coefficient.
    pub fn choose_n(&self, n: u64) -> (r: Vec<Numbers>)
        requires
            self.wf(),
        ensures
            n == 0 ==> r@.len() == 0,
            n >= 1 ==> enumerates_k_subsets(r@, self@, n as nat) && r@.len() == binom(
                self@.len(),
                n as nat,
            ),
    {
        if n == 0 {
            Vec::new()
        } else {
            self.combos(n)
        }
    }

    /// The first enumerated three-member subset summing to exactly 15, if
    /// one exists: a triple is returned exactly when some three members sum
    /// to 15.
    #[verifier::loop_isolation(false)]
    pub fn won(&self) -> (r: Option<Numbers>)
        requires
            self.wf(),
        ensures
            r is Some <==> has_winning_triple(self@),
            r matches Some(t) ==> t.wf() && t@.subset_of(self@) && wins(t),
    {
        let cands = self.choose_n(3);
        let mut i: usize = 0;
        while i < cands.len()
            invariant
                i <= cands@.len(),
                forall|j: int| 0 <= j < i ==> !wins(#[trigger] cands@[j]),
            decreases cands@.len() - i,
        {
            let c = &cands[i];
            proof {
                c.lemma_wf_facts();
                assert(c.ordered().len() == 3);
            }
            if c.elems[0] <= 15 && c.elems[1] <= 15 && c.elems[2] <= 15 && c.elems[0] + c.elems[1]
                + c.elems[2] == 15 {
                proof {
                    assert(wins(*c));
                    assert(c@.contains(c.ordered()[0])) by {
                        assert(c.ordered().contains(c.ordered()[0]));
                    };
                    assert(c@.contains(c.ordered()[1])) by {
                        assert(c.ordered().contains(c.ordered()[1]));
                    };
                    assert(c@.contains(c.ordered()[2])) by {
                        assert(c.ordered().contains(c.ordered()[2]));
                    };
                    assert(is_winning_triple(
                        self@,
                        c.ordered()[0],
                        c.ordered()[1],
                        c.ordered()[2],
                    ));
                }
                return Some(c.duplicate());
            }
            proof {
                if wins(*c) {
                    assert(c.ordered()[0] + c.ordered()[1] + c.ordered()[2] == 15);
                    assert(false);
                }
            }
            i += 1;
        }
        proof {
            if has_winning_triple(self@) {
                let (a, b, cc) = choose|a: u64, b: u64, cc: u64|
                    is_winning_triple(self@, a, b, cc);
                let s = Set::<u64>::empty().insert(a).insert(b).insert(cc);
                assert(s.subset_of(self@));
                assert(s.len() == 3) by {
                    assert(!Set::<u64>::empty().contains(a));
                    assert(!Set::<u64>::empty().insert(a).contains(b));
                    assert(!Set::<u64>::empty().insert(a).insert(b).contains(cc));
                };
                let j = choose|j: int| 0 <= j < cands@.len() && cands@[j]@ == s;
                lemma_three_ordered(cands@[j], a, b, cc);
                assert(wins(cands@[j]));
                assert(false);
            }
        }
        None
    }

    /// A fresh collection with the same members.
    fn duplicate(&self) -> (r: Numbers)
        ensures
            r.ordered() == self.ordered(),
            r@ == self@,
            self.wf() ==> r.wf(),
    {
        Numbers { elems: self.elements() }
    }
}

/// A well-formed collection whose members are exactly `{a, b, c}` with
/// `a < b < c` stores them as the sequence `[a, b, c]`.
proof fn lemma_three_ordered(t: Numbers, a: u64, b: u64, c: u64)
    requires
        t.wf(),
        t@ == Set::<u64>::empty().insert(a).insert(b).insert(c),
        a < b,
        b < c,
    ensures
        t.ordered().len() == 3,
        t.ordered()[0] == a,
        t.ordered()[1] == b,
        t.ordered()[2] == c,
{
    t.lemma_wf_facts();
    assert(t@.len() == 3) by {
        assert(!Set::<u64>::empty().contains(a));
        assert(!Set::<u64>::empty().insert(a).contains(b));
        assert(!Set::<u64>::empty().insert(a).insert(b).contains(c));
    };
    assert(t.ordered().len() == 3);
    assert(t@.contains(a)) by {
        assert(Set::<u64>::empty().insert(a).insert(b).insert(c).contains(a));
    };
    assert(t@.contains(b)) by {
        assert(Set::<u64>::empty().insert(a).insert(b).insert(c).contains(b));
    };
    assert(t@.contains(c)) by {
        assert(Set::<u64>::empty().insert(a).insert(b).insert(c).contains(c));
    };
    assert(t.ordered().contains(a));
    assert(t.ordered().contains(b));
    assert(t.ordered().contains(c));
    let ia = choose|j: int| 0 <= j < t.ordered().len() && t.ordered()[j] == a;
    let ib = choose|j: int| 0 <= j < t.ordered().len() && t.ordered()[j] == b;
    let ic = choose|j: int| 0 <= j < t.ordered().len() && t.ordered()[j] == c;
    assert(t@.contains(t.ordered()[0])) by {
        assert(t.ordered().contains(t.ordered()[0]));
    };
    assert(t@.contains(t.ordered()[1])) by {
        assert(t.ordered().contains(t.ordered()[1]));
    };
    assert(t@.contains(t.ordered()[2])) by {
        assert(t.ordered().contains(t.ordered()[2]));
    };
    assert(t.ordered()[0] == a);
    assert(t.ordered()[2] == c);
    assert(t.ordered()[1] == b);
}

/// Inserting a value into the ordered sequence inserts it into the set of
/// members.
proof fn lemma_insert_to_set(s: Seq<u64>, i: int, e: u64)
    requires
        0 <= i <= s.len(),
    ensures
        s.insert(i, e).to_set() == s.to_set().insert(e),
{
    let t = s.insert(i, e);
    s.insert_ensures(i, e);
    assert forall|x: u64| t.to_set().contains(x) implies s.to_set().insert(e).contains(x) by {
        let j = choose|j: int| 0 <= j < t.len() && t[j] == x;
        if j < i {
            assert(s[j] == x);
            assert(s.contains(x));
        } else if j == i {
        } else {
            assert(s[j - 1] == x);
            assert(s.contains(x));
        }
    };
    assert forall|x: u64| s.to_set().insert(e).contains(x) implies t.to_set().contains(x) by {
        if x == e {
            assert(t[i] == x);
            assert(t.contains(x));
        } else {
            assert(s.contains(x));
            let j = choose|j: int| 0 <= j < s.len() && s[j] == x;
            if j < i {
                assert(t[j] == x);
            } else {
                assert(t[j + 1] == x);
            }
            assert(t.contains(x));
        }
    };
    assert(t.to_set() =~= s.to_set().insert(e));
}

/// Removing position `i` from a duplicate-free ordered sequence removes
/// exactly that value from the set of members.
proof fn lemma_remove_to_set(s: Seq<u64>, i: int)
    requires
        0 <= i < s.len(),
        s.no_duplicates(),
    ensures
        s.remove(i).to_set() == s.to_set().remove(s[i]),
{
    let t = s.remove(i);
    s.remove_ensures(i);
    assert forall|x: u64| t.to_set().contains(x) implies s.to_set().remove(s[i]).contains(x) by {
        let j = choose|j: int| 0 <= j < t.len() && t[j] == x;
        if j < i {
            assert(s[j] == x);
            assert(s.contains(x));
        } else {
            assert(s[j + 1] == x);
            assert(s.contains(x));
        }
    };
    assert forall|x: u64| s.to_set().remove(s[i]).contains(x) implies t.to_set().contains(x) by {
        assert(s.contains(x));
        let j = choose|j: int| 0 <= j < s.len() && s[j] == x;
        assert(j != i);
        if j < i {
            assert(t[j] == x);
        } else {
            assert(t[j - 1] == x);
        }
        assert(t.contains(x));
    };
    assert(t.to_set() =~= s.to_set().remove(s[i]));
}

} // verus!
