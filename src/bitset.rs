//! A growable set of small non-negative integers, one inline word plus a tail.
use vstd::prelude::*;

verus! {

/// Number of bits held by one word of a [`Bitset`].
pub fn bits_per_word() -> (r: usize)
    ensures
        r == 64,
{
    64
}

/// Whether bit `b` of word `w` is set.
pub open spec fn word_has(w: u64, b: nat) -> bool {
    b < 64 && (w >> (b as u64)) & 1u64 == 1u64
}

proof fn lemma_bit_or_one(w: u64, b: u64, c: u64)
    requires
        b < 64,
        c < 64,
    ensures
        ((w | (1u64 << b)) >> c) & 1u64 == 1u64 <==> ((w >> c) & 1u64 == 1u64 || c == b),
{
    assert(((w | (1u64 << b)) >> c) & 1u64 == 1u64 <==> ((w >> c) & 1u64 == 1u64 || c == b))
        by (bit_vector)
        requires
            b < 64,
            c < 64,
    ;
}

proof fn lemma_bit_or(w: u64, v: u64, c: u64)
    requires
        c < 64,
    ensures
        ((w | v) >> c) & 1u64 == 1u64 <==> ((w >> c) & 1u64 == 1u64 || (v >> c) & 1u64 == 1u64),
{
    assert(((w | v) >> c) & 1u64 == 1u64 <==> ((w >> c) & 1u64 == 1u64 || (v >> c) & 1u64
        == 1u64)) by (bit_vector)
        requires
            c < 64,
    ;
}

proof fn lemma_bit_and(w: u64, b: u64)
    requires
        b < 64,
    ensures
        (w & (1u64 << b)) != 0 <==> (w >> b) & 1u64 == 1u64,
{
    assert((w & (1u64 << b)) != 0 <==> (w >> b) & 1u64 == 1u64) by (bit_vector)
        requires
            b < 64,
    ;
}

proof fn lemma_bit_zero(c: u64)
    requires
        c < 64,
    ensures
        (0u64 >> c) & 1u64 != 1u64,
{
    assert((0u64 >> c) & 1u64 != 1u64) by (bit_vector);
}

/// A set of `usize` values. Bits `0..64` live in `head`; entry `k` of `tail`
/// holds bits `64 * (k + 1) .. 64 * (k + 2)`.
#[derive(Clone, Debug)]
pub struct Bitset {
    head: u64,
    tail: Vec<u64>,
}

impl Bitset {
    /// Word `k` of the set, zero past the end of the tail.
    pub closed spec fn word(&self, k: nat) -> u64 {
        if k == 0 {
            self.head
        } else if k - 1 < self.tail@.len() {
            self.tail@[k - 1]
        } else {
            0
        }
    }

    /// Membership of `i`.
    pub closed spec fn has(&self, i: nat) -> bool {
        word_has(self.word(i / 64), i % 64)
    }

    /// The set of members.
    pub open spec fn view(&self) -> Set<nat> {
        Set::new(|i: nat| self.has(i))
    }

    /// The tail is short enough for every bit index to fit in a `usize`.
    pub closed spec fn wf(&self) -> bool {
        64 * self.tail@.len() + 63 <= usize::MAX
    }

    /// The empty set.
    pub fn new() -> (r: Bitset)
        ensures
            r.wf(),
            r@ == Set::<nat>::empty(),
    {
        let r = Bitset { head: 0, tail: Vec::new() };
        proof {
            assert forall|i: nat| !r.has(i) by {
                lemma_bit_zero((i % 64) as u64);
            }
            assert(r@ =~= Set::<nat>::empty());
        }
        r
    }

    /// A copy of the set.
    pub fn duplicate(&self) -> (r: Bitset)
        ensures
            r@ == self@,
            r.wf() == self.wf(),
    {
        let r = Bitset { head: self.head, tail: self.tail.clone() };
        proof {
            assert(r.tail@ =~= self.tail@);
            assert forall|i: nat| r.has(i) == self.has(i) by {
                assert(r.word(i / 64) == self.word(i / 64));
            }
            assert(r@ =~= self@);
        }
        r
    }

    /// The tail words.
    fn tail(&self) -> (r: &[u64])
        ensures
            r@ == self.tail@,
    {
        self.tail.as_slice()
    }

    /// Adds `bit` to the set.
    pub fn set_bit(&mut self, bit: usize)
        requires
            old(self).wf(),
        ensures
            final(self).wf(),
            final(self)@ == old(self)@.insert(bit as nat),
    {
        let ghost pre = *self;
        if bit < bits_per_word() {
            self.head = self.head | (1u64 << (bit as u64));
            proof {
                assert forall|i: nat| self.has(i) == (pre.has(i) || i == bit) by {
                    if i / 64 == 0 {
                        lemma_bit_or_one(pre.head, bit as u64, (i % 64) as u64);
                    }
                }
            }
        } else {
            let word: usize = bit / 64 - 1;
            proof {
                assert(usize::MAX == 0xffff_ffff || usize::MAX == 0xffff_ffff_ffff_ffff);
                assert(64 * (word + 1) + 63 <= usize::MAX);
            }
            if word >= self.tail.len() {
                let mut n: usize = self.tail.len();
                while n <= word
                    invariant
                        pre.tail@.len() <= n <= word + 1,
                        self.tail@.len() == n,
                        self.head == pre.head,
                        forall|j: int| 0 <= j < pre.tail@.len() ==> self.tail@[j] == pre.tail@[j],
                        forall|j: int| pre.tail@.len() <= j < n ==> self.tail@[j] == 0,
                        64 * (word + 1) + 63 <= usize::MAX,
                    decreases word + 1 - n,
                {
                    self.tail.push(0);
                    n = n + 1;
                }
            }
            let ghost mid = *self;
            let b: u64 = (bit % 64) as u64;
            let w = self.tail[word];
            self.tail.set(word, w | (1u64 << b));
            proof {
                assert forall|i: nat| self.has(i) == (pre.has(i) || i == bit) by {
                    assert(mid.word(i / 64) == pre.word(i / 64));
                    if i / 64 == word + 1 {
                        lemma_bit_or_one(w, b, (i % 64) as u64);
                    } else {
                        assert(self.word(i / 64) == mid.word(i / 64));
                    }
                }
            }
        }
        proof {
            assert forall|i: nat| self@.contains(i) == pre@.insert(bit as nat).contains(i) by {
                assert(self@.contains(i) == self.has(i));
                assert(pre@.contains(i) == pre.has(i));
            }
            assert(self@ =~= pre@.insert(bit as nat));
        }
    }

    /// Membership of `bit`.
    pub fn has_bit(&self, bit: usize) -> (r: bool)
        ensures
            r == self@.contains(bit as nat),
    {
        if bit < bits_per_word() {
            proof {
                lemma_bit_and(self.head, bit as u64);
            }
            (self.head & (1u64 << (bit as u64))) != 0
        } else {
            let word: usize = bit / 64 - 1;
            let tail = self.tail();
            if word >= tail.len() {
                proof {
                    lemma_bit_zero((bit % 64) as u64);
                }
                false
            } else {
                proof {
                    lemma_bit_and(tail@[word as int], (bit % 64) as u64);
                }
                (tail[word] & (1u64 << ((bit % 64) as u64))) != 0
            }
        }
    }

    /// Replaces the set by its union with `rhs`.
    pub fn union_with(&mut self, rhs: &Bitset)
        requires
            old(self).wf(),
            rhs.wf(),
        ensures
            final(self).wf(),
            final(self)@ == old(self)@.union(rhs@),
    {
        let ghost pre = *self;
        self.head = self.head | rhs.head;
        let rtail = rhs.tail();
        let mut n: usize = self.tail.len();
        while n < rtail.len()
            invariant
                pre.tail@.len() <= n,
                n <= pre.tail@.len() || n <= rtail@.len(),
                rtail@ == rhs.tail@,
                self.tail@.len() == n,
                self.head == pre.head | rhs.head,
                forall|j: int| 0 <= j < pre.tail@.len() ==> self.tail@[j] == pre.tail@[j],
                forall|j: int| pre.tail@.len() <= j < n ==> self.tail@[j] == 0,
            decreases rtail@.len() - n,
        {
            self.tail.push(0);
            n = n + 1;
        }
        let ghost mid = *self;
        let mut i: usize = 0;
        while i < rtail.len()
            invariant
                0 <= i <= rtail@.len() <= self.tail@.len(),
                rtail@ == rhs.tail@,
                self.tail@.len() == mid.tail@.len(),
                self.head == mid.head,
                forall|j: int| 0 <= j < i ==> self.tail@[j] == mid.tail@[j] | rtail@[j],
                forall|j: int| i <= j < self.tail@.len() ==> self.tail@[j] == mid.tail@[j],
            decreases rtail@.len() - i,
        {
            let w = self.tail[i] | rtail[i];
            self.tail.set(i, w);
            i = i + 1;
        }
        proof {
            assert forall|x: nat| self.has(x) == (pre.has(x) || rhs.has(x)) by {
                let k = x / 64;
                let c = (x % 64) as u64;
                if k == 0 {
                    lemma_bit_or(pre.head, rhs.head, c);
                } else if k - 1 < rtail@.len() {
                    assert(mid.word(k) == pre.word(k));
                    lemma_bit_or(mid.word(k), rhs.word(k), c);
                } else {
                    assert(mid.word(k) == pre.word(k));
                    assert(self.word(k) == mid.word(k));
                    assert(rhs.word(k) == 0);
                    lemma_bit_zero(c);
                }
            }
            assert(self@ =~= pre@.union(rhs@));
        }
    }

    /// The members, in strictly ascending order.
    pub fn to_vec(&self) -> (r: Vec<usize>)
        requires
            self.wf(),
        ensures
            forall|a: int, b: int| 0 <= a < b < r@.len() ==> r@[a] < r@[b],
            forall|x: nat| self@.contains(x) <==> exists|j: int| 0 <= j < r@.len() && r@[j] == x,
    {
        let mut r: Vec<usize> = Vec::new();
        let tail = self.tail();
        let mut k: usize = 0;
        while k <= tail.len()
            invariant
                self.wf(),
                tail@ == self.tail@,
                k <= tail@.len() + 1,
                forall|a: int, b: int| 0 <= a < b < r@.len() ==> r@[a] < r@[b],
                forall|j: int| 0 <= j < r@.len() ==> r@[j] < 64 * k,
                forall|x: nat|
                    x < 64 * k ==> (self@.contains(x) <==> exists|j: int|
                        0 <= j < r@.len() && r@[j] == x),
            decreases tail@.len() + 1 - k,
        {
            let w: u64 = if k == 0 { self.head } else { tail[k - 1] };
            let mut b: usize = 0;
            while b < 64
                invariant
                    self.wf(),
                    tail@ == self.tail@,
                    k <= tail@.len(),
                    b <= 64,
                    w == self.word(k as nat),
                    forall|a: int, c: int| 0 <= a < c < r@.len() ==> r@[a] < r@[c],
                    forall|j: int| 0 <= j < r@.len() ==> r@[j] < 64 * k + b,
                    forall|x: nat|
                        x < 64 * k + b ==> (self@.contains(x) <==> exists|j: int|
                            0 <= j < r@.len() && r@[j] == x),
                decreases 64 - b,
            {
                proof {
                    lemma_bit_and(w, b as u64);
                }
                let ghost r0 = r@;
                let ghost x = (64 * k + b) as nat;
                proof {
                    assert(x / 64 == k && x % 64 == b);
                    assert(self@.contains(x) == self.has(x));
                }
                if (w & (1u64 << (b as u64))) != 0 {
                    assert(64 * k + b <= usize::MAX);
                    r.push(64 * k + b);
                    proof {
                        assert(r@[r0.len() as int] == x);
                        assert forall|y: nat| y < x + 1 implies (self@.contains(y) <==> exists|j: int|
                            0 <= j < r@.len() && r@[j] == y) by {
                            if y < x {
                                if exists|j: int| 0 <= j < r0.len() && r0[j] == y {
                                    let j = choose|j: int| 0 <= j < r0.len() && r0[j] == y;
                                    assert(r@[j] == y);
                                }
                            }
                        }
                    }
                } else {
                    proof {
                        assert(!exists|j: int| 0 <= j < r@.len() && r@[j] == x);
                    }
                }
                b = b + 1;
            }
            k = k + 1;
        }
        proof {
            assert forall|x: nat| x >= 64 * k implies !self@.contains(x) by {
                assert(self.word(x / 64) == 0);
                lemma_bit_zero((x % 64) as u64);
            }
        }
        r
    }
}

/// The union holds exactly what either operand holds.
pub proof fn lemma_union_members(a: Bitset, b: Bitset, u: Bitset, i: nat)
    requires
        u@ == a@.union(b@),
    ensures
        u@.contains(i) <==> (a@.contains(i) || b@.contains(i)),
{
}

} // verus!
